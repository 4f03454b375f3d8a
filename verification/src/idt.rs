//! The interrupt descriptor table: gate descriptors, their attribute byte,
//! the table itself and the registry of handlers for external interrupts.
use vstd::prelude::*;
use crate::gdt::KERNEL_MODE_CODE_SEGMENT_INDEX;

verus! {

/// Interrupt vector of the system call gate.
pub const SYSCALL_IRQ: u8 = 0x80;

/// Number of gates in the table.
pub const IDT_ENTRIES: usize = 256;

/// Size in bytes of one gate descriptor.
pub const IDT_ENTRY_SIZE: usize = 16;

/// First vector of the external interrupts.
pub const FIRST_INTERRUPT_VECTOR: u8 = 32;

/// Number of external interrupt vectors (32 to 255).
pub const INTERRUPT_VECTORS: usize = 224;

/// The kind of a gate.
#[derive(Debug, Clone, Copy, PartialEq, Eq, Structural, Hash)]
pub enum GateKind {
    Interrupt,
    Trap,
}

impl GateKind {
    /// The type field value of this kind.
    pub open spec fn spec_bits(self) -> u8 {
        match self {
            GateKind::Interrupt => 0xE,
            GateKind::Trap => 0xF,
        }
    }

    /// The type field value of this kind.
    pub fn into_bits(self) -> (b: u8)
        ensures
            b == self.spec_bits(),
    {
        match self {
            GateKind::Interrupt => 0xE,
            GateKind::Trap => 0xF,
        }
    }

    /// The kind for a type field value, which must be `0xE` or `0xF`.
    pub fn from_bits(bits: u8) -> (k: GateKind)
        requires
            bits == 0xE || bits == 0xF,
        ensures
            k.spec_bits() == bits,
    {
        if bits == 0xE {
            GateKind::Interrupt
        } else {
            GateKind::Trap
        }
    }
}

/// A protection ring.
#[derive(Debug, Clone, Copy, PartialEq, Eq, Structural, Hash)]
pub enum PrivilegeLevel {
    Ring0,
    Ring1,
    Ring2,
    Ring3,
}

impl PrivilegeLevel {
    /// The two-bit ring number.
    pub open spec fn spec_bits(self) -> u8 {
        match self {
            PrivilegeLevel::Ring0 => 0,
            PrivilegeLevel::Ring1 => 1,
            PrivilegeLevel::Ring2 => 2,
            PrivilegeLevel::Ring3 => 3,
        }
    }

    /// The two-bit ring number.
    pub fn into_bits(self) -> (b: u8)
        ensures
            b == self.spec_bits(),
            b < 4,
    {
        match self {
            PrivilegeLevel::Ring0 => 0,
            PrivilegeLevel::Ring1 => 1,
            PrivilegeLevel::Ring2 => 2,
            PrivilegeLevel::Ring3 => 3,
        }
    }

    /// The ring with number `bits`, which must be below 4.
    pub fn from_bits(bits: u8) -> (p: PrivilegeLevel)
        requires
            bits < 4,
        ensures
            p.spec_bits() == bits,
    {
        match bits {
            0 => PrivilegeLevel::Ring0,
            1 => PrivilegeLevel::Ring1,
            2 => PrivilegeLevel::Ring2,
            _ => PrivilegeLevel::Ring3,
        }
    }
}

/// Index of an interrupt stack in the task state segment (0 = none).
#[derive(Debug, Clone, Copy, PartialEq, Eq, Structural)]
pub struct InterruptStackTableOffset(pub u8);

impl InterruptStackTableOffset {
    /// An offset, which must be below 8.
    pub fn new(value: u8) -> (o: Self)
        requires
            value < 8,
        ensures
            o.0 == value,
    {
        InterruptStackTableOffset(value)
    }

    /// The offset.
    pub fn value(self) -> (v: u8)
        ensures
            v == self.0,
    {
        self.0
    }
}

/// The attribute byte of a descriptor: bits 0-3 its kind, bits 5-6 the
/// privilege level, bit 7 the present flag.
#[derive(Debug, Clone, Copy, PartialEq, Eq, Structural)]
pub struct IdtAttributes {
    pub bits: u8,
}

/// The kind field of an attribute byte.
pub open spec fn kind_field(bits: u8) -> u8 {
    bits & 0xFu8
}

/// The privilege level field of an attribute byte.
pub open spec fn privilege_field(bits: u8) -> u8 {
    (bits >> 5u8) & 3u8
}

/// The present flag of an attribute byte.
pub open spec fn present_field(bits: u8) -> bool {
    bits & 0x80u8 != 0
}

/// Bit 4 of an attribute byte, which no accessor touches.
pub open spec fn unused_field(bits: u8) -> u8 {
    bits & 0x10u8
}

impl IdtAttributes {
    /// An attribute byte with the kind field set to an interrupt gate and
    /// every other bit clear.
    pub fn new() -> (a: Self)
        ensures
            a.bits == 0xE,
            kind_field(a.bits) == GateKind::Interrupt.spec_bits(),
            privilege_field(a.bits) == 0,
            !present_field(a.bits),
    {
        let a = IdtAttributes { bits: 0xE };
        proof {
            lemma_attribute_bytes();
        }
        a
    }

    /// This byte with the kind field replaced.
    pub fn with_kind(self, kind: GateKind) -> (a: Self)
        ensures
            a.bits == (self.bits & 0xF0u8) | kind.spec_bits(),
            kind_field(a.bits) == kind.spec_bits(),
            privilege_field(a.bits) == privilege_field(self.bits),
            present_field(a.bits) == present_field(self.bits),
            unused_field(a.bits) == unused_field(self.bits),
    {
        let k = kind.into_bits();
        let b = self.bits;
        let bits = (b & 0xF0) | k;
        assert(kind_field(bits) == k && privilege_field(bits) == privilege_field(b)
            && present_field(bits) == present_field(b) && unused_field(bits) == unused_field(b)) by (bit_vector)
            requires bits == (b & 0xF0u8) | k, k < 16;
        IdtAttributes { bits }
    }

    /// This byte with the privilege level field replaced.
    pub fn with_privilege_level(self, level: PrivilegeLevel) -> (a: Self)
        ensures
            a.bits == (self.bits & 0x9Fu8) | (level.spec_bits() << 5u8),
            privilege_field(a.bits) == level.spec_bits(),
            kind_field(a.bits) == kind_field(self.bits),
            present_field(a.bits) == present_field(self.bits),
            unused_field(a.bits) == unused_field(self.bits),
    {
        let p = level.into_bits();
        let b = self.bits;
        let bits = (b & 0x9F) | (p << 5);
        assert(privilege_field(bits) == p && kind_field(bits) == kind_field(b)
            && present_field(bits) == present_field(b) && unused_field(bits) == unused_field(b)) by (bit_vector)
            requires bits == (b & 0x9Fu8) | (p << 5u8), p < 4;
        IdtAttributes { bits }
    }

    /// This byte with the present flag replaced.
    pub fn with_present(self, present: bool) -> (a: Self)
        ensures
            a.bits == if present {
                self.bits | 0x80u8
            } else {
                self.bits & 0x7Fu8
            },
            present_field(a.bits) == present,
            kind_field(a.bits) == kind_field(self.bits),
            privilege_field(a.bits) == privilege_field(self.bits),
            unused_field(a.bits) == unused_field(self.bits),
    {
        let b = self.bits;
        let bits = if present {
            b | 0x80
        } else {
            b & 0x7F
        };
        assert(present ==> (present_field(b | 0x80u8) && kind_field(b | 0x80u8) == kind_field(b)
            && privilege_field(b | 0x80u8) == privilege_field(b) && unused_field(b | 0x80u8) == unused_field(b))) by (bit_vector);
        assert(!present ==> (!present_field(b & 0x7Fu8) && kind_field(b & 0x7Fu8) == kind_field(b)
            && privilege_field(b & 0x7Fu8) == privilege_field(b) && unused_field(b & 0x7Fu8) == unused_field(b))) by (bit_vector);
        IdtAttributes { bits }
    }

    /// The descriptor kind, when the kind field holds one.
    pub fn kind(self) -> (k: GateKind)
        requires
            kind_field(self.bits) == 0xE || kind_field(self.bits) == 0xF,
        ensures
            k.spec_bits() == kind_field(self.bits),
    {
        GateKind::from_bits(self.bits & 0xF)
    }

    /// The privilege level.
    pub fn privilege_level(self) -> (p: PrivilegeLevel)
        ensures
            p.spec_bits() == privilege_field(self.bits),
    {
        let b = self.bits;
        assert((b >> 5u8) & 3u8 < 4) by (bit_vector);
        PrivilegeLevel::from_bits((b >> 5) & 3)
    }

    /// The present flag.
    pub fn present(self) -> (p: bool)
        ensures
            p == present_field(self.bits),
    {
        self.bits & 0x80 != 0
    }

    /// The raw byte.
    pub fn into_bits(self) -> (b: u8)
        ensures
            b == self.bits,
    {
        self.bits
    }

    /// The attributes held in a raw byte.
    pub fn from_bits(bits: u8) -> (a: Self)
        ensures
            a.bits == bits,
    {
        IdtAttributes { bits }
    }
}

/// Setting one field of an attribute byte and reading it back gives the
/// value set, and leaves the other fields as they were.
pub proof fn lemma_attributes_fields_independent(bits: u8, kind: GateKind, level: PrivilegeLevel, present: bool)
    ensures
        ({
            let k = ((bits & 0xF0u8) | kind.spec_bits()) as u8;
            kind_field(k) == kind.spec_bits() && privilege_field(k) == privilege_field(bits)
                && present_field(k) == present_field(bits)
        }),
        ({
            let p = ((bits & 0x9Fu8) | (level.spec_bits() << 5u8)) as u8;
            privilege_field(p) == level.spec_bits() && kind_field(p) == kind_field(bits)
                && present_field(p) == present_field(bits)
        }),
{
    let kb = kind.spec_bits();
    let pb = level.spec_bits();
    assert(kb < 16);
    assert(pb < 4);
    assert({
        let k = ((bits & 0xF0u8) | kb) as u8;
        kind_field(k) == kb && privilege_field(k) == privilege_field(bits)
            && present_field(k) == present_field(bits)
    }) by (bit_vector)
        requires kb < 16;
    assert({
        let p = ((bits & 0x9Fu8) | (pb << 5u8)) as u8;
        privilege_field(p) == pb && kind_field(p) == kind_field(bits)
            && present_field(p) == present_field(bits)
    }) by (bit_vector)
        requires pb < 4;
}

/// The attribute bytes of a fresh attribute set and of the two descriptors
/// that the table uses.
proof fn lemma_attribute_bytes()
    by (bit_vector)
    ensures
        kind_field(0xEu8) == 0xE && privilege_field(0xEu8) == 0 && !present_field(0xEu8),
        ((((0xEu8 & 0xF0u8) | 0xEu8) & 0x9Fu8) | (3u8 << 5u8)) | 0x80u8 == 0xEEu8,
        ((((0xEu8 & 0x7Fu8) & 0x9Fu8) | (3u8 << 5u8)) & 0xF0u8) | 0xEu8 == 0x6Eu8,
{
}

/// A gate descriptor.
#[derive(Debug, Clone, Copy, PartialEq, Eq, Structural)]
pub struct IdtEntry {
    pub offset_low: u16,
    pub selector: u16,
    pub interrupt_stack_table_offset: InterruptStackTableOffset,
    pub attributes: u8,
    pub offset_middle: u16,
    pub offset_high: u32,
    pub reserved: u32,
}

/// The handler address a gate descriptor holds, put back together.
pub open spec fn entry_offset(e: IdtEntry) -> u64 {
    (e.offset_low as u64) | ((e.offset_middle as u64) << 16u64) | ((e.offset_high as u64) << 32u64)
}

/// The descriptor that `IdtEntry::new` builds.
pub open spec fn spec_idt_entry(offset: u64, selector: u16, attributes: u8) -> IdtEntry {
    IdtEntry {
        offset_low: (offset & 0xFFFFu64) as u16,
        selector: selector,
        interrupt_stack_table_offset: InterruptStackTableOffset(0),
        attributes: attributes,
        offset_middle: ((offset >> 16u64) & 0xFFFFu64) as u16,
        offset_high: (offset >> 32u64) as u32,
        reserved: 0,
    }
}

/// The attribute byte of a present, ring-3 accessible interrupt gate.
pub const RING3_INTERRUPT_GATE_ATTRIBUTES: u8 = 0xEE;

/// The attribute byte of an absent gate.
pub const ABSENT_GATE_ATTRIBUTES: u8 = 0x6E;

/// The code segment selector of the kernel.
pub open spec fn kernel_code_selector() -> u16 {
    (KERNEL_MODE_CODE_SEGMENT_INDEX as u16) << 3u16
}

impl IdtEntry {
    /// A gate to the handler at `offset` through code segment `selector`.
    pub fn new(offset: u64, selector: u16, attributes: IdtAttributes) -> (e: Self)
        ensures
            e == spec_idt_entry(offset, selector, attributes.bits),
            entry_offset(e) == offset,
    {
        let low = offset & 0xFFFF;
        let middle = (offset >> 16) & 0xFFFF;
        let high = offset >> 32;
        assert(low < 0x10000 && middle < 0x10000 && high < 0x1_0000_0000) by (bit_vector)
            requires low == offset & 0xFFFFu64, middle == (offset >> 16u64) & 0xFFFFu64, high == offset >> 32u64;
        let e = IdtEntry {
            offset_low: low as u16,
            selector,
            interrupt_stack_table_offset: InterruptStackTableOffset::new(0),
            attributes: attributes.into_bits(),
            offset_middle: middle as u16,
            offset_high: high as u32,
            reserved: 0,
        };
        assert(low | (middle << 16u64) | (high << 32u64) == offset) by (bit_vector)
            requires low == offset & 0xFFFFu64, middle == (offset >> 16u64) & 0xFFFFu64, high == offset >> 32u64;
        e
    }

    /// A present interrupt gate to the handler at `offset`, in the kernel's
    /// code segment, which ring 3 may raise.
    pub fn kernel_mode_ring3_accessible_interrupt(offset: u64) -> (e: Self)
        ensures
            e == spec_idt_entry(offset, kernel_code_selector(), RING3_INTERRUPT_GATE_ATTRIBUTES),
            entry_offset(e) == offset,
    {
        let a1 = IdtAttributes::new().with_kind(GateKind::Interrupt);
        let a2 = a1.with_privilege_level(PrivilegeLevel::Ring3);
        let attributes = a2.with_present(true);
        proof {
            lemma_attribute_bytes();
        }
        IdtEntry::new(offset, (KERNEL_MODE_CODE_SEGMENT_INDEX as u16) << 3, attributes)
    }

    /// The descriptor that every slot holds until a handler is installed.
    pub fn absent() -> (e: Self)
        ensures
            e == spec_idt_entry(0, 0, ABSENT_GATE_ATTRIBUTES),
    {
        let a1 = IdtAttributes::new().with_present(false);
        let a2 = a1.with_privilege_level(PrivilegeLevel::Ring3);
        let attributes = a2.with_kind(GateKind::Interrupt);
        proof {
            lemma_attribute_bytes();
        }
        IdtEntry::new(0, 0, attributes)
    }
}

impl Default for IdtEntry {
    fn default() -> (e: Self)
        ensures
            e == spec_idt_entry(0, 0, 0xE),
    {
        IdtEntry::new(0, 0, IdtAttributes::new())
    }
}

/// The operand of `lidt`: the table's limit and base address.
#[derive(Debug, Clone, Copy, PartialEq, Eq, Structural)]
pub struct Idtr {
    pub limit: u16,
    pub base: u64,
}

impl Idtr {
    /// The operand that loads a table at `base`.
    pub fn new(base: u64) -> (r: Self)
        ensures
            r.base == base,
            r.limit == IDT_ENTRIES * IDT_ENTRY_SIZE - 1,
    {
        Idtr { base, limit: (IDT_ENTRIES * IDT_ENTRY_SIZE - 1) as u16 }
    }
}

/// The interrupt descriptor table: one gate per vector.
pub struct Idt {
    entries: Vec<IdtEntry>,
}

impl View for Idt {
    type V = Seq<IdtEntry>;

    closed spec fn view(&self) -> Seq<IdtEntry> {
        self.entries@
    }
}

impl Idt {
    /// Every table has one gate per vector.
    pub closed spec fn wf(&self) -> bool {
        self.entries@.len() == IDT_ENTRIES
    }

    pub proof fn lemma_wf_len(&self)
        requires
            self.wf(),
        ensures
            self@.len() == IDT_ENTRIES,
    {
    }

    /// A table whose every gate is absent.
    pub fn new() -> (t: Self)
        ensures
            t.wf(),
            t@.len() == IDT_ENTRIES,
            forall|v: int| 0 <= v < IDT_ENTRIES ==> #[trigger] t@[v] == spec_idt_entry(0, 0, ABSENT_GATE_ATTRIBUTES),
    {
        let absent = IdtEntry::absent();
        let mut entries: Vec<IdtEntry> = Vec::new();
        let mut i: usize = 0;
        while i < IDT_ENTRIES
            invariant
                i <= IDT_ENTRIES,
                entries@.len() == i,
                absent == spec_idt_entry(0, 0, ABSENT_GATE_ATTRIBUTES),
                forall|v: int| 0 <= v < i ==> #[trigger] entries@[v] == absent,
            decreases IDT_ENTRIES - i,
        {
            entries.push(absent);
            i = i + 1;
        }
        Idt { entries }
    }

    /// The descriptor of `vector`.
    pub fn entry(&self, vector: u8) -> (e: IdtEntry)
        requires
            self.wf(),
        ensures
            e == self@[vector as int],
    {
        self.entries[vector as usize]
    }

    /// Installs the handler at `handler` for `vector` as a present interrupt
    /// gate that ring 3 may raise; every other gate stays as it was.
    pub fn set_handler(&mut self, vector: u8, handler: u64)
        requires
            old(self).wf(),
        ensures
            final(self).wf(),
            final(self)@ == old(self)@.update(
                vector as int,
                spec_idt_entry(handler, kernel_code_selector(), RING3_INTERRUPT_GATE_ATTRIBUTES),
            ),
    {
        let e = IdtEntry::kernel_mode_ring3_accessible_interrupt(handler);
        self.entries.set(vector as usize, e);
    }
}

/// The frame the processor pushes on an exception without an error code.
/// The exception vectors that the kernel handles: divide error, NMI,
/// breakpoint, overflow, bound range, invalid opcode, device not available,
/// double fault, invalid TSS, segment not present, stack fault, general
/// protection, page fault, x87, alignment check, machine check, SIMD,
/// virtualization, control protection, VMM communication and security.
pub open spec fn handled_exception(v: int) -> bool {
    ||| v == 0 || v == 2 || v == 3 || v == 4 || v == 5 || v == 6 || v == 7 || v == 8
    ||| v == 10 || v == 11 || v == 12 || v == 13 || v == 14
    ||| v == 16 || v == 17 || v == 18 || v == 19 || v == 20 || v == 21
    ||| v == 29 || v == 30
}

/// The x86 exception vectors, by the architecture's numbering.
pub const DIVIDE_ERROR_VECTOR: u8 = 0;
pub const DEBUG_VECTOR: u8 = 1;
pub const NON_MASKABLE_INTERRUPT_VECTOR: u8 = 2;
pub const BREAKPOINT_VECTOR: u8 = 3;
pub const OVERFLOW_VECTOR: u8 = 4;
pub const BOUND_RANGE_EXCEEDED_VECTOR: u8 = 5;
pub const INVALID_OPCODE_VECTOR: u8 = 6;
pub const DEVICE_NOT_AVAILABLE_VECTOR: u8 = 7;
pub const DOUBLE_FAULT_VECTOR: u8 = 8;
pub const COPROCESSOR_SEGMENT_OVERRUN_VECTOR: u8 = 9;
pub const INVALID_TSS_VECTOR: u8 = 10;
pub const SEGMENT_NOT_PRESENT_VECTOR: u8 = 11;
pub const STACK_SEGMENT_FAULT_VECTOR: u8 = 12;
pub const GENERAL_PROTECTION_FAULT_VECTOR: u8 = 13;
pub const PAGE_FAULT_VECTOR: u8 = 14;
pub const X87_FLOATING_POINT_VECTOR: u8 = 16;
pub const ALIGNMENT_CHECK_VECTOR: u8 = 17;
pub const MACHINE_CHECK_VECTOR: u8 = 18;
pub const SIMD_FLOATING_POINT_VECTOR: u8 = 19;
pub const VIRTUALIZATION_VECTOR: u8 = 20;
pub const CONTROL_PROTECTION_VECTOR: u8 = 21;
pub const HYPERVISOR_INJECTION_VECTOR: u8 = 28;
pub const VMM_COMMUNICATION_VECTOR: u8 = 29;
pub const SECURITY_VECTOR: u8 = 30;

/// The kernel's table holds a handler gate, with the handler given for its
/// vector, for every exception the kernel handles: divide error, NMI,
/// breakpoint, overflow, bound range, invalid opcode, device not
/// available, double fault, invalid TSS, segment not present, stack
/// fault, general protection, page fault, x87, alignment check, machine
/// check, SIMD, virtualization, control protection, VMM communication and
/// security. Debug, the coprocessor segment overrun, hypervisor injection
/// and the reserved vectors (15, 22 to 27 and 31) stay absent.
pub proof fn lemma_kernel_handles_exceptions(
    exception_handlers: Seq<u64>,
    interrupt_handlers: Seq<u64>,
    syscall_handler: u64,
    v: int,
)
    requires
        exception_handlers.len() == FIRST_INTERRUPT_VECTOR,
        0 <= v < FIRST_INTERRUPT_VECTOR,
    ensures
        ({
            let handled = v == DIVIDE_ERROR_VECTOR || v == NON_MASKABLE_INTERRUPT_VECTOR || v == BREAKPOINT_VECTOR
                || v == OVERFLOW_VECTOR || v == BOUND_RANGE_EXCEEDED_VECTOR || v == INVALID_OPCODE_VECTOR
                || v == DEVICE_NOT_AVAILABLE_VECTOR || v == DOUBLE_FAULT_VECTOR || v == INVALID_TSS_VECTOR
                || v == SEGMENT_NOT_PRESENT_VECTOR || v == STACK_SEGMENT_FAULT_VECTOR
                || v == GENERAL_PROTECTION_FAULT_VECTOR || v == PAGE_FAULT_VECTOR || v == X87_FLOATING_POINT_VECTOR
                || v == ALIGNMENT_CHECK_VECTOR || v == MACHINE_CHECK_VECTOR || v == SIMD_FLOATING_POINT_VECTOR
                || v == VIRTUALIZATION_VECTOR || v == CONTROL_PROTECTION_VECTOR || v == VMM_COMMUNICATION_VECTOR
                || v == SECURITY_VECTOR;
            &&& handled_exception(v) == handled
            &&& handled ==> kernel_gate(exception_handlers, interrupt_handlers, syscall_handler, v) == handler_gate(
                exception_handlers[v],
            )
            &&& !handled ==> kernel_gate(exception_handlers, interrupt_handlers, syscall_handler, v)
                == spec_idt_entry(0, 0, ABSENT_GATE_ATTRIBUTES)
        }),
{
}

/// Whether the kernel installs a handler for exception vector `v`.
pub fn is_handled_exception(v: u8) -> (r: bool)
    ensures
        r == handled_exception(v as int),
{
    match v {
        0 | 2 | 3 | 4 | 5 | 6 | 7 | 8 | 10 | 11 | 12 | 13 | 14 | 16 | 17 | 18 | 19 | 20 | 21 | 29 | 30 => true,
        _ => false,
    }
}

/// A present ring-3 interrupt descriptor for the handler at `offset`, in
/// the kernel's code segment.
pub open spec fn handler_gate(offset: u64) -> IdtEntry {
    spec_idt_entry(offset, kernel_code_selector(), RING3_INTERRUPT_GATE_ATTRIBUTES)
}

/// The kernel's gate for vector `v`: the exception handler of a handled
/// exception, none for the other exception vectors, the system call
/// handler at the system call vector and the interrupt handler of every
/// other vector.
pub open spec fn kernel_gate(exception_handlers: Seq<u64>, interrupt_handlers: Seq<u64>, syscall_handler: u64, v: int) -> IdtEntry {
    if v < FIRST_INTERRUPT_VECTOR {
        if handled_exception(v) {
            handler_gate(exception_handlers[v])
        } else {
            spec_idt_entry(0, 0, ABSENT_GATE_ATTRIBUTES)
        }
    } else if v == SYSCALL_IRQ {
        handler_gate(syscall_handler)
    } else {
        handler_gate(interrupt_handlers[v - FIRST_INTERRUPT_VECTOR])
    }
}

/// The kernel's table: handlers for the handled exceptions (by vector, from
/// `exception_handlers`), for every external interrupt (vector 32 + i from
/// `interrupt_handlers[i]`) and the system call handler at its vector.
pub fn init_idt(exception_handlers: &[u64], interrupt_handlers: &[u64], syscall_handler: u64) -> (t: Idt)
    requires
        exception_handlers@.len() == FIRST_INTERRUPT_VECTOR,
        interrupt_handlers@.len() == INTERRUPT_VECTORS,
    ensures
        t.wf(),
        forall|v: int| 0 <= v < IDT_ENTRIES ==> #[trigger] t@[v] == kernel_gate(
            exception_handlers@,
            interrupt_handlers@,
            syscall_handler,
            v,
        ),
{
    let mut t = Idt::new();
    let mut v: usize = 0;
    while v < IDT_ENTRIES
        invariant
            v <= IDT_ENTRIES,
            t.wf(),
            t@.len() == IDT_ENTRIES,
            exception_handlers@.len() == FIRST_INTERRUPT_VECTOR,
            interrupt_handlers@.len() == INTERRUPT_VECTORS,
            forall|w: int| 0 <= w < v ==> #[trigger] t@[w] == kernel_gate(
                exception_handlers@,
                interrupt_handlers@,
                syscall_handler,
                w,
            ),
            forall|w: int| v <= w < IDT_ENTRIES ==> #[trigger] t@[w] == spec_idt_entry(0, 0, ABSENT_GATE_ATTRIBUTES),
        decreases IDT_ENTRIES - v,
    {
        let vector = v as u8;
        if v < FIRST_INTERRUPT_VECTOR as usize {
            if is_handled_exception(vector) {
                t.set_handler(vector, exception_handlers[v]);
            }
        } else if vector == SYSCALL_IRQ {
            t.set_handler(vector, syscall_handler);
        } else {
            t.set_handler(vector, interrupt_handlers[v - FIRST_INTERRUPT_VECTOR as usize]);
        }
        v = v + 1;
    }
    t
}

#[derive(Debug, Clone, Copy, PartialEq, Eq, Structural)]
pub struct ExceptionFrame {
    pub rip: usize,
    pub cs: usize,
    pub rflags: usize,
    pub rsp: usize,
    pub ss: usize,
}

/// The frame the processor pushes on an exception with an error code.
#[derive(Debug, Clone, Copy, PartialEq, Eq, Structural)]
pub struct ErrorCodeExceptionFrame {
    pub error_code: usize,
    pub rip: usize,
    pub cs: usize,
    pub rflags: usize,
    pub rsp: usize,
    pub ss: usize,
}

/// The caller-saved registers an interrupt entry stub saves, in the order it
/// leaves them on the stack.
#[derive(Debug, Clone, Copy, PartialEq, Eq, Structural)]
pub struct VolatileRegisters {
    pub r11: usize,
    pub r10: usize,
    pub r9: usize,
    pub r8: usize,
    pub rdi: usize,
    pub rsi: usize,
    pub rdx: usize,
    pub rcx: usize,
    pub rax: usize,
}

/// The handlers registered for each external interrupt vector, by id, in
/// the order in which they were registered and are to be run.
pub struct InterruptHandlers {
    handlers: Vec<Vec<u64>>,
}

impl View for InterruptHandlers {
    type V = Seq<Seq<u64>>;

    closed spec fn view(&self) -> Seq<Seq<u64>> {
        Seq::new(self.handlers@.len(), |i: int| self.handlers@[i]@)
    }
}

impl InterruptHandlers {
    /// There is one list of handlers per interrupt vector.
    pub closed spec fn wf(&self) -> bool {
        self.handlers@.len() == INTERRUPT_VECTORS
    }

    /// A well-formed registry has one list per interrupt vector, and every
    /// registry of that shape is well formed.
    pub proof fn lemma_wf_len(&self)
        ensures
            self.wf() <==> self@.len() == INTERRUPT_VECTORS,
    {
    }

    /// A registry with no handler for any vector.
    pub fn new() -> (h: Self)
        ensures
            h.wf(),
            h@.len() == INTERRUPT_VECTORS,
            forall|i: int| 0 <= i < INTERRUPT_VECTORS ==> #[trigger] h@[i] == Seq::<u64>::empty(),
    {
        let mut handlers: Vec<Vec<u64>> = Vec::new();
        let mut i: usize = 0;
        while i < INTERRUPT_VECTORS
            invariant
                i <= INTERRUPT_VECTORS,
                handlers@.len() == i,
                forall|j: int| 0 <= j < i ==> (#[trigger] handlers@[j])@ == Seq::<u64>::empty(),
            decreases INTERRUPT_VECTORS - i,
        {
            handlers.push(Vec::new());
            i = i + 1;
        }
        let h = InterruptHandlers { handlers };
        assert forall|i: int| 0 <= i < INTERRUPT_VECTORS implies #[trigger] h@[i] == Seq::<u64>::empty() by {
            assert(h.handlers@[i]@ == Seq::<u64>::empty());
        }
        h
    }

    /// Appends `handler` to the handlers of vector `n`, an external interrupt
    /// other than the system call vector.
    pub fn register_interrupt_handler(&mut self, n: u8, handler: u64)
        requires
            old(self).wf(),
            n != SYSCALL_IRQ,
            n >= FIRST_INTERRUPT_VECTOR,
        ensures
            final(self).wf(),
            final(self)@ == old(self)@.update(n - 32, old(self)@[n - 32].push(handler)),
    {
        let index = (n - FIRST_INTERRUPT_VECTOR) as usize;
        let mut list = self.handlers[index].clone();
        list.push(handler);
        self.handlers.set(index, list);
        proof {
            assert(self@ =~= old(self)@.update(n - 32, old(self)@[n - 32].push(handler)));
        }
    }

    /// The handlers of external interrupt number `n` (vector `n + 32`), in
    /// the order they run.
    pub fn handlers_for(&self, n: usize) -> (hs: &Vec<u64>)
        requires
            self.wf(),
            n < INTERRUPT_VECTORS,
        ensures
            hs@ == self@[n as int],
    {
        &self.handlers[n]
    }
}

} // verus!
