//! Local APIC: register numbers, where a register is reached (an MSR in x2APIC
//! mode, memory otherwise) and the decoding of the in-service register.
use vstd::prelude::*;

verus! {

pub const LOCAL_APIC_LAPIC_ID_REGISTER: u32 = 0x20;
pub const LOCAL_APIC_LAPIC_VERSION_REGISTER: u32 = 0x23;
pub const LOCAL_APIC_TASK_PRIORITY_REGISTER: u32 = 0x80;
pub const LOCAL_APIC_ARBITRATION_PRIORITY_REGISTER: u32 = 0x90;
pub const LOCAL_APIC_PROCESSOR_PRIORITY_REGISTER: u32 = 0xA0;
pub const LOCAL_APIC_END_OF_INTERRUPT_REGISTER: u32 = 0xB0;
pub const LOCAL_APIC_REMOTE_READ_REGISTER: u32 = 0xC0;
pub const LOCAL_APIC_LOGICAL_DESTINATION_REGISTER: u32 = 0xD0;
pub const LOCAL_APIC_DESTINATION_FORMAT_REGISTER: u32 = 0xE0;
pub const LOCAL_APIC_SPURIOUS_INTERRUPT_VECTOR_REGISTER: u32 = 0xF0;
pub const LOCAL_APIC_IN_SERVICE_REGISTER: u32 = 0x100;
pub const LOCAL_APIC_ERROR_STATUS_REGISTER: u32 = 0x280;
pub const LOCAL_APIC_INTERRUPT_OPTIONS_REGISTER: u32 = 0x300;
pub const LOCAL_APIC_INTERRUPT_TARGET_PROCESSOR_REGISTER: u32 = 0x310;
pub const LOCAL_APIC_LVT_TIMER_REGISTER: u32 = 0x320;
pub const LOCAL_APIC_LVT_ERROR_REGISTER: u32 = 0x370;
pub const LOCAL_APIC_INITIAL_COUNT_REGISTER: u32 = 0x380;
pub const LOCAL_APIC_CURRENT_COUNT_REGISTER: u32 = 0x390;
pub const LOCAL_APIC_DIVIDE_CONFIGURATION_REGISTER: u32 = 0x3E0;
pub const IA32_APIC_BASE_MSR: u32 = 0x1B;
pub const APIC_BASE_MSR_BSP_FLAG: u64 = 0x100;
pub const APIC_BASE_MSR_APIC_GLOBAL_ENABLE_FLAG: u64 = 0x800;
pub const APIC_BASE_MSR_APIC_BASE_FIELD_MASK: u64 = 0xFFFFFF000;
pub const LOCAL_APIC_TIMER_ONESHOT: u32 = 0;
pub const LOCAL_APIC_TIMER_PERIODIC: u32 = 0x20000;

/// First MSR of the x2APIC register block.
pub const X2APIC_MSR_BASE: u32 = 0x800;

/// Where a local APIC register is read and written.
#[derive(Clone, Copy, PartialEq, Eq, Structural, Debug)]
pub enum RegisterAccess {
    /// Through the model-specific register with this number.
    Msr(u32),
    /// Through memory at this virtual address.
    Memory(u64),
}

/// The local APIC of one processor.
#[derive(Clone, Copy, Debug)]
pub struct LocalApic {
    /// Virtual address of the memory-mapped register block.
    pub local_apic_base: u64,
    /// Whether the registers are reached as x2APIC MSRs.
    pub x2apic: bool,
}

/// The in-service register (a 32-bit slice of the 256-bit vector) that holds
/// `vector`'s bit.
pub open spec fn spec_isr_register(vector: u8) -> u32 {
    (LOCAL_APIC_IN_SERVICE_REGISTER + (vector / 32) as u32 * 0x10) as u32
}

impl LocalApic {
    /// The local APIC whose registers start at `local_apic_base`, in x2APIC
    /// mode or not.
    pub fn new(local_apic_base: u64, x2apic: bool) -> (r: Self)
        ensures
            r.local_apic_base == local_apic_base,
            r.x2apic == x2apic,
    {
        LocalApic { local_apic_base, x2apic }
    }

    /// Where `register` is reached: the MSR `0x800 + register / 16` in x2APIC
    /// mode, else the register's offset from the mapped base.
    pub fn register_access(&self, register: u32) -> (r: RegisterAccess)
        requires
            self.x2apic || self.local_apic_base + register <= u64::MAX,
        ensures
            r == (if self.x2apic {
                RegisterAccess::Msr((X2APIC_MSR_BASE + register / 16) as u32)
            } else {
                RegisterAccess::Memory((self.local_apic_base + register) as u64)
            }),
    {
        if self.x2apic {
            proof {
                crate::bits::lemma_u32_fields(register);
            }
            RegisterAccess::Msr(X2APIC_MSR_BASE + (register >> 4u32))
        } else {
            RegisterAccess::Memory(self.local_apic_base + register as u64)
        }
    }

    /// The in-service register that holds the bit of `vector`.
    pub fn isr_register(vector: u8) -> (r: u32)
        ensures
            r == spec_isr_register(vector),
            LOCAL_APIC_IN_SERVICE_REGISTER <= r <= LOCAL_APIC_IN_SERVICE_REGISTER + 0x70,
    {
        let reg_offset = (vector / 32) as u32 * 0x10;
        LOCAL_APIC_IN_SERVICE_REGISTER + reg_offset
    }

    /// Whether `vector` is in service, given the value `isr_value` read from
    /// its in-service register ([`LocalApic::isr_register`]).
    pub fn is_isr(isr_value: u32, vector: u8) -> (r: bool)
        ensures
            r == ((isr_value >> ((vector % 32) as u32)) & 1 == 1),
    {
        let bit = (vector % 32) as u32;
        let set = (isr_value & (1u32 << bit)) != 0;
        assert(bit < 32 ==> ((isr_value & (1u32 << bit)) != 0) == ((isr_value >> bit) & 1 == 1))
            by (bit_vector);
        set
    }

    /// The physical base of the register block that the `IA32_APIC_BASE` MSR
    /// value `apic_base` names.
    pub fn base_address(apic_base: u64) -> (r: u64)
        ensures
            r == apic_base & APIC_BASE_MSR_APIC_BASE_FIELD_MASK,
    {
        apic_base & APIC_BASE_MSR_APIC_BASE_FIELD_MASK
    }

    /// Whether the `IA32_APIC_BASE` MSR value `apic_base` marks the bootstrap
    /// processor.
    pub fn is_bootstrap_processor(apic_base: u64) -> (r: bool)
        ensures
            r == (apic_base & APIC_BASE_MSR_BSP_FLAG != 0),
    {
        apic_base & APIC_BASE_MSR_BSP_FLAG != 0
    }

    /// The spurious-interrupt vector register value with the APIC enabled
    /// (bit 8 set).
    pub fn enabled_spurious_vector(value: u32) -> (r: u32)
        ensures
            r == value | 0x100,
    {
        value | 0x100
    }

    /// Whether CPUID leaf 1's `ecx` reports x2APIC support (bit 21).
    pub fn is_x2apic_supported(ecx: u32) -> (r: bool)
        ensures
            r == (ecx & 0x200000 != 0),
    {
        ecx & 0x200000 != 0
    }
}

} // verus!
