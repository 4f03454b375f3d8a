//! The global descriptor table: segment descriptors and their attribute
//! bytes, the 64-bit system (task state) descriptors, the table the kernel
//! loads and the task state segment selectors.
use vstd::prelude::*;

verus! {

pub const KERNEL_MODE_CODE_SEGMENT_INDEX: usize = 5;

pub const KERNEL_MODE_DATA_SEGMENT_INDEX: usize = 6;

pub const USER_MODE_CODE_SEGMENT_INDEX: usize = 7;

pub const USER_MODE_DATA_SEGMENT_INDEX: usize = 8;

pub const TSS_INDEX: usize = 9;

/// Number of processors that get a task state segment.
pub const MAXIMUM_CPU_CORES: usize = 4;

/// Size in bytes of a task state segment.
pub const TASK_STATE_SEGMENT_SIZE: u32 = 104;

/// Size in bytes of a stack for interrupt handling.
pub const INTERRUPT_STACK_SIZE: u64 = 16 * 1024;

/// Largest segment limit: limits have 20 bits.
pub const MAX_SEGMENT_LIMIT: u32 = 0xF_FFFF;

/// The flags nibble of a segment descriptor.
#[derive(Debug, Clone, Copy, PartialEq, Eq, Structural)]
pub struct SegmentFlags {
    pub bits: u8,
}

impl SegmentFlags {
    pub const SIXTY_FOUR_BIT_CODE_SEGMENT: u8 = 0b0000_0010;

    pub const THIRTY_TWO_BIT_PROTECTED_MODE_SEGMENT: u8 = 0b0000_0100;

    pub const IS_LIMIT_SCALED_BY_4KIB: u8 = 0b0000_1000;

    /// No flag set.
    pub fn empty() -> (f: Self)
        ensures
            f.bits == 0,
    {
        SegmentFlags { bits: 0 }
    }

    /// The flag of a 64-bit code segment.
    pub fn sixty_four_bit_code_segment() -> (f: Self)
        ensures
            f.bits == Self::SIXTY_FOUR_BIT_CODE_SEGMENT,
    {
        SegmentFlags { bits: Self::SIXTY_FOUR_BIT_CODE_SEGMENT }
    }

    /// The flags held in `bits`, any bits kept.
    pub fn from_bits_retain(bits: u8) -> (f: Self)
        ensures
            f.bits == bits,
    {
        SegmentFlags { bits }
    }

    /// The raw bits.
    pub fn bits(&self) -> (b: u8)
        ensures
            b == self.bits,
    {
        self.bits
    }

    /// Whether every flag of `other` is set here.
    pub fn contains(&self, other: SegmentFlags) -> (b: bool)
        ensures
            b == (self.bits & other.bits == other.bits),
    {
        self.bits & other.bits == other.bits
    }
}

/// The access byte of a code or data segment descriptor: bit 0 accessed,
/// bit 1 readable/writable, bit 2 direction/conforming, bit 3 executable,
/// bit 4 descriptor type, bits 5-6 privilege level, bit 7 present.
#[derive(Debug, Clone, Copy, PartialEq, Eq, Structural)]
pub struct SegmentDescriptorAttributes {
    pub bits: u8,
}

/// `b` with bit `i` set to `value`.
pub open spec fn set_bit(b: u8, i: u8, value: bool) -> u8 {
    if value {
        b | (1u8 << i)
    } else {
        b & !(1u8 << i)
    }
}

/// Whether bit `i` of `b` is set.
pub open spec fn bit_set(b: u8, i: u8) -> bool {
    (b >> i) & 1u8 == 1u8
}

impl SegmentDescriptorAttributes {
    /// An access byte with every bit clear.
    pub fn new() -> (a: Self)
        ensures
            a.bits == 0,
    {
        SegmentDescriptorAttributes { bits: 0 }
    }

    /// This byte with bit `i` (below 8, not a privilege bit) set to `value`.
    fn with_bit(self, i: u8, value: bool) -> (a: Self)
        requires
            i < 8,
        ensures
            a.bits == set_bit(self.bits, i, value),
            bit_set(a.bits, i) == value,
            forall|j: u8| j < 8 && j != i ==> bit_set(a.bits, j) == bit_set(self.bits, j),
    {
        let b = self.bits;
        let mask: u8 = 1u8 << i;
        let bits = if value {
            b | mask
        } else {
            b & !mask
        };
        assert(bit_set(bits, i) == value) by (bit_vector)
            requires
                i < 8,
                mask == 1u8 << i,
                value ==> bits == b | mask,
                !value ==> bits == b & !mask,
        ;
        assert forall|j: u8| j < 8 && j != i implies bit_set(bits, j) == bit_set(b, j) by {
            assert(bit_set(bits, j) == bit_set(b, j)) by (bit_vector)
                requires
                    i < 8,
                    j < 8,
                    j != i,
                    mask == 1u8 << i,
                    value ==> bits == b | mask,
                    !value ==> bits == b & !mask,
            ;
        }
        SegmentDescriptorAttributes { bits }
    }

    pub fn with_accessed(self, value: bool) -> (a: Self)
        ensures
            a.bits == set_bit(self.bits, 0, value),
            bit_set(a.bits, 0) == value,
            forall|j: u8| j < 8 && j != 0 ==> bit_set(a.bits, j) == bit_set(self.bits, j),
    {
        self.with_bit(0, value)
    }

    pub fn with_readable_or_writable(self, value: bool) -> (a: Self)
        ensures
            a.bits == set_bit(self.bits, 1, value),
            bit_set(a.bits, 1) == value,
            forall|j: u8| j < 8 && j != 1 ==> bit_set(a.bits, j) == bit_set(self.bits, j),
    {
        self.with_bit(1, value)
    }

    pub fn with_direction_or_conforming(self, value: bool) -> (a: Self)
        ensures
            a.bits == set_bit(self.bits, 2, value),
            bit_set(a.bits, 2) == value,
            forall|j: u8| j < 8 && j != 2 ==> bit_set(a.bits, j) == bit_set(self.bits, j),
    {
        self.with_bit(2, value)
    }

    pub fn with_executable(self, value: bool) -> (a: Self)
        ensures
            a.bits == set_bit(self.bits, 3, value),
            bit_set(a.bits, 3) == value,
            forall|j: u8| j < 8 && j != 3 ==> bit_set(a.bits, j) == bit_set(self.bits, j),
    {
        self.with_bit(3, value)
    }

    pub fn with_descriptor_type(self, value: bool) -> (a: Self)
        ensures
            a.bits == set_bit(self.bits, 4, value),
            bit_set(a.bits, 4) == value,
            forall|j: u8| j < 8 && j != 4 ==> bit_set(a.bits, j) == bit_set(self.bits, j),
    {
        self.with_bit(4, value)
    }

    pub fn with_present(self, value: bool) -> (a: Self)
        ensures
            a.bits == set_bit(self.bits, 7, value),
            bit_set(a.bits, 7) == value,
            forall|j: u8| j < 8 && j != 7 ==> bit_set(a.bits, j) == bit_set(self.bits, j),
    {
        self.with_bit(7, value)
    }

    /// This byte with the two-bit privilege level replaced by `level & 3`.
    pub fn with_privilege_level(self, level: u8) -> (a: Self)
        ensures
            a.bits == (self.bits & 0x9Fu8) | ((level & 3u8) << 5u8),
            (a.bits >> 5u8) & 3u8 == level & 3u8,
            a.bits & 0x9Fu8 == self.bits & 0x9Fu8,
    {
        let b = self.bits;
        let bits = (b & 0x9F) | ((level & 3) << 5);
        assert((bits >> 5u8) & 3u8 == level & 3u8 && bits & 0x9Fu8 == b & 0x9Fu8) by (bit_vector)
            requires bits == (b & 0x9Fu8) | ((level & 3u8) << 5u8);
        SegmentDescriptorAttributes { bits }
    }

    pub fn into_bits(self) -> (b: u8)
        ensures
            b == self.bits,
    {
        self.bits
    }
}

/// A code or data segment descriptor.
#[derive(Debug, Clone, Copy, PartialEq, Eq, Structural)]
pub struct SegmentDescriptor {
    pub limit_low: u16,
    pub base_low: u16,
    pub base_mid: u8,
    pub attributes: u8,
    pub flags_and_limit_high: u8,
    pub base_high: u8,
}

/// The base address a segment descriptor holds, put back together.
pub open spec fn segment_base(d: SegmentDescriptor) -> u32 {
    (d.base_low as u32) | ((d.base_mid as u32) << 16u32) | ((d.base_high as u32) << 24u32)
}

/// The 20-bit limit a segment descriptor holds, put back together.
pub open spec fn segment_limit(d: SegmentDescriptor) -> u32 {
    (d.limit_low as u32) | (((d.flags_and_limit_high & 0xFu8) as u32) << 16u32)
}

/// Whether `flags` asks for a 64-bit code segment.
pub open spec fn is_long_mode_code(flags: SegmentFlags) -> bool {
    flags.bits & SegmentFlags::SIXTY_FOUR_BIT_CODE_SEGMENT == SegmentFlags::SIXTY_FOUR_BIT_CODE_SEGMENT
}

impl SegmentDescriptor {
    /// The null descriptor.
    pub fn zero() -> (d: Self)
        ensures
            d == (SegmentDescriptor {
                limit_low: 0,
                base_low: 0,
                base_mid: 0,
                attributes: 0,
                flags_and_limit_high: 0,
                base_high: 0,
            }),
    {
        SegmentDescriptor {
            limit_low: 0,
            base_low: 0,
            base_mid: 0,
            attributes: 0,
            flags_and_limit_high: 0,
            base_high: 0,
        }
    }

    /// A descriptor of the segment at `base` with limit `limit` (20 bits); a
    /// 64-bit code segment must have base and limit 0.
    pub fn new(base: u32, limit: u32, attributes: SegmentDescriptorAttributes, flags: SegmentFlags) -> (d: Self)
        requires
            limit <= MAX_SEGMENT_LIMIT,
            is_long_mode_code(flags) ==> base == 0 && limit == 0,
        ensures
            segment_base(d) == base,
            segment_limit(d) == limit,
            d.attributes == attributes.bits,
            d.flags_and_limit_high >> 4u8 == flags.bits & 0xFu8,
    {
        let base_high = ((base >> 24) & 0xFF) as u8;
        let base_mid = ((base >> 16) & 0xFF) as u8;
        let base_low = (base & 0xFFFF) as u16;
        let limit_low = (limit & 0xFFFF) as u16;
        let limit_high = ((limit >> 16) & 0xF) as u8;
        let fl = flags.bits() & 0xF;
        let flags_and_limit_high = limit_high | (fl << 4);
        let d = SegmentDescriptor {
            limit_low,
            base_low,
            base_mid,
            attributes: attributes.into_bits(),
            flags_and_limit_high,
            base_high,
        };
        let fb = flags.bits;
        assert((base_low as u32) | ((base_mid as u32) << 16u32) | ((base_high as u32) << 24u32) == base) by (bit_vector)
            requires
                base_high == ((base >> 24u32) & 0xFFu32) as u8,
                base_mid == ((base >> 16u32) & 0xFFu32) as u8,
                base_low == (base & 0xFFFFu32) as u16,
        ;
        assert((limit_low as u32) | (((flags_and_limit_high & 0xFu8) as u32) << 16u32) == limit
            && flags_and_limit_high >> 4u8 == fb & 0xFu8) by (bit_vector)
            requires
                limit <= 0xF_FFFFu32,
                limit_low == (limit & 0xFFFFu32) as u16,
                limit_high == ((limit >> 16u32) & 0xFu32) as u8,
                fl == fb & 0xFu8,
                flags_and_limit_high == limit_high | (fl << 4u8),
        ;
        d
    }
}

/// The access byte of a system segment descriptor: bits 0-3 the segment
/// type, bits 5-6 the privilege level, bit 7 present.
#[derive(Debug, Clone, Copy, PartialEq, Eq, Structural)]
pub struct SystemSegmentDescriptorAttributes {
    pub bits: u8,
}

impl SystemSegmentDescriptorAttributes {
    /// An access byte holding a local descriptor table type and every other
    /// bit clear.
    pub fn new() -> (a: Self)
        ensures
            a.bits == SystemSegmentType::LocalDescriptorTable.spec_bits(),
    {
        SystemSegmentDescriptorAttributes { bits: 0x2 }
    }

    /// This byte with the segment type replaced.
    pub fn with_segment_type(self, t: SystemSegmentType) -> (a: Self)
        ensures
            a.bits == (self.bits & 0xF0u8) | t.spec_bits(),
            a.bits & 0xFu8 == t.spec_bits(),
            a.bits & 0xF0u8 == self.bits & 0xF0u8,
    {
        let b = self.bits;
        let tb = t.into_bits();
        let bits = (b & 0xF0) | tb;
        assert(bits & 0xFu8 == tb && bits & 0xF0u8 == b & 0xF0u8) by (bit_vector)
            requires bits == (b & 0xF0u8) | tb, tb < 16;
        SystemSegmentDescriptorAttributes { bits }
    }

    /// This byte with the present flag replaced.
    pub fn with_present(self, present: bool) -> (a: Self)
        ensures
            a.bits == if present {
                self.bits | 0x80u8
            } else {
                self.bits & 0x7Fu8
            },
            (a.bits & 0x80u8 != 0) == present,
            a.bits & 0x7Fu8 == self.bits & 0x7Fu8,
    {
        let b = self.bits;
        let bits = if present {
            b | 0x80
        } else {
            b & 0x7F
        };
        assert(present ==> ((b | 0x80u8) & 0x80u8 != 0 && (b | 0x80u8) & 0x7Fu8 == b & 0x7Fu8)) by (bit_vector);
        assert(!present ==> ((b & 0x7Fu8) & 0x80u8 == 0 && (b & 0x7Fu8) & 0x7Fu8 == b & 0x7Fu8)) by (bit_vector);
        SystemSegmentDescriptorAttributes { bits }
    }

    pub fn into_bits(self) -> (b: u8)
        ensures
            b == self.bits,
    {
        self.bits
    }
}

/// The type of a system segment.
#[derive(Debug, Clone, Copy, PartialEq, Eq, Structural)]
pub enum SystemSegmentType {
    LocalDescriptorTable,
    SixtyFourBitAvailableTaskStateSegment,
    SixtyFourBitBusyTaskStateSegment,
}

impl SystemSegmentType {
    /// The type field value.
    pub open spec fn spec_bits(self) -> u8 {
        match self {
            SystemSegmentType::LocalDescriptorTable => 0x2,
            SystemSegmentType::SixtyFourBitAvailableTaskStateSegment => 0x9,
            SystemSegmentType::SixtyFourBitBusyTaskStateSegment => 0xB,
        }
    }

    /// The type for a type field value, which must be 0x2, 0x9 or 0xB.
    pub fn from_bits(bits: u8) -> (t: Self)
        requires
            bits == 0x2 || bits == 0x9 || bits == 0xB,
        ensures
            t.spec_bits() == bits,
    {
        match bits {
            0x2 => SystemSegmentType::LocalDescriptorTable,
            0x9 => SystemSegmentType::SixtyFourBitAvailableTaskStateSegment,
            _ => SystemSegmentType::SixtyFourBitBusyTaskStateSegment,
        }
    }

    /// The type field value.
    pub fn into_bits(self) -> (b: u8)
        ensures
            b == self.spec_bits(),
            b < 16,
    {
        match self {
            SystemSegmentType::LocalDescriptorTable => 0x2,
            SystemSegmentType::SixtyFourBitAvailableTaskStateSegment => 0x9,
            SystemSegmentType::SixtyFourBitBusyTaskStateSegment => 0xB,
        }
    }
}

/// Reading a system segment type back from its bits gives the same type.
pub proof fn lemma_system_segment_type_round_trip(t: SystemSegmentType, bits: u8)
    ensures
        (bits == 0x2 || bits == 0x9 || bits == 0xB) ==> exists|u: SystemSegmentType| #[trigger] u.spec_bits() == bits,
        forall|u: SystemSegmentType| #[trigger] u.spec_bits() == t.spec_bits() ==> u == t,
{
    if bits == 0x2 {
        assert(SystemSegmentType::LocalDescriptorTable.spec_bits() == bits);
    } else if bits == 0x9 {
        assert(SystemSegmentType::SixtyFourBitAvailableTaskStateSegment.spec_bits() == bits);
    } else if bits == 0xB {
        assert(SystemSegmentType::SixtyFourBitBusyTaskStateSegment.spec_bits() == bits);
    }
}

/// A 16-byte system segment descriptor (a task state segment's).
#[derive(Debug, Clone, Copy, PartialEq, Eq, Structural)]
pub struct SystemSegmentDescriptor {
    pub limit_low: u16,
    pub base_low: u16,
    pub base_mid: u8,
    pub attributes: u8,
    pub flags_and_limit_high: u8,
    pub base_high: u8,
    pub base_higher: u32,
    pub reserved: u32,
}

/// The base address a system descriptor holds, put back together.
pub open spec fn system_segment_base(d: SystemSegmentDescriptor) -> u64 {
    ((d.base_higher as u64) << 32u64) | ((d.base_high as u64) << 24u64) | ((d.base_mid as u64) << 16u64)
        | (d.base_low as u64)
}

/// The 20-bit limit a system descriptor holds, put back together.
pub open spec fn system_segment_limit(d: SystemSegmentDescriptor) -> u32 {
    (d.limit_low as u32) | (((d.flags_and_limit_high & 0xFu8) as u32) << 16u32)
}

impl SystemSegmentDescriptor {
    /// The null system descriptor.
    pub fn zero() -> (d: Self)
        ensures
            d == (SystemSegmentDescriptor {
                limit_low: 0,
                base_low: 0,
                base_mid: 0,
                attributes: 0,
                flags_and_limit_high: 0,
                base_high: 0,
                base_higher: 0,
                reserved: 0,
            }),
    {
        SystemSegmentDescriptor {
            limit_low: 0,
            base_low: 0,
            base_mid: 0,
            attributes: 0,
            flags_and_limit_high: 0,
            base_high: 0,
            base_higher: 0,
            reserved: 0,
        }
    }

    /// A descriptor of the system segment at `base` with limit `limit`
    /// (20 bits).
    pub fn new(base: u64, limit: u32, attributes: SystemSegmentDescriptorAttributes, flags: SegmentFlags) -> (d: Self)
        requires
            limit <= MAX_SEGMENT_LIMIT,
        ensures
            system_segment_base(d) == base,
            system_segment_limit(d) == limit,
            d.attributes == attributes.bits,
            d.flags_and_limit_high >> 4u8 == flags.bits & 0xFu8,
            d.reserved == 0,
    {
        let limit_low = (limit & 0xFFFF) as u16;
        let base_low = (base & 0xFFFF) as u16;
        let base_mid = ((base >> 16) & 0xFF) as u8;
        let fl = flags.bits() & 0xF;
        let limit_high = ((limit >> 16) & 0xF) as u8;
        let flags_and_limit_high = (fl << 4) | limit_high;
        let base_high = ((base >> 24) & 0xFF) as u8;
        let base_higher = ((base >> 32) & 0xFFFF_FFFF) as u32;
        let d = SystemSegmentDescriptor {
            limit_low,
            base_low,
            base_mid,
            attributes: attributes.into_bits(),
            flags_and_limit_high,
            base_high,
            base_higher,
            reserved: 0,
        };
        let fb = flags.bits;
        assert(((base_higher as u64) << 32u64) | ((base_high as u64) << 24u64)
            | ((base_mid as u64) << 16u64) | (base_low as u64) == base) by (bit_vector)
            requires
                base_low == (base & 0xFFFFu64) as u16,
                base_mid == ((base >> 16u64) & 0xFFu64) as u8,
                base_high == ((base >> 24u64) & 0xFFu64) as u8,
                base_higher == ((base >> 32u64) & 0xFFFF_FFFFu64) as u32,
        ;
        assert((limit_low as u32) | (((flags_and_limit_high & 0xFu8) as u32) << 16u32) == limit
            && flags_and_limit_high >> 4u8 == fb & 0xFu8) by (bit_vector)
            requires
                limit <= 0xF_FFFFu32,
                limit_low == (limit & 0xFFFFu32) as u16,
                limit_high == ((limit >> 16u32) & 0xFu32) as u8,
                fl == fb & 0xFu8,
                flags_and_limit_high == (fl << 4u8) | limit_high,
        ;
        d
    }

    /// The base address of the segment.
    pub fn base(&self) -> (b: u64)
        ensures
            b == system_segment_base(*self),
    {
        ((self.base_higher as u64) << 32) | ((self.base_high as u64) << 24) | ((self.base_mid as u64) << 16)
            | (self.base_low as u64)
    }
}

/// The table of segment descriptors the kernel loads.
#[derive(Debug)]
pub struct GlobalDescriptorTable {
    pub null_entry: SegmentDescriptor,
    pub kernel_mode_sixteen_bit_code_segment: SegmentDescriptor,
    pub kernel_mode_sixteen_bit_data_segment: SegmentDescriptor,
    pub kernel_mode_thirty_two_bit_code_segment: SegmentDescriptor,
    pub kernel_mode_thirty_two_bit_data_segment: SegmentDescriptor,
    pub kernel_mode_sixty_four_code_segment: SegmentDescriptor,
    pub kernel_mode_sixty_four_data_segment: SegmentDescriptor,
    pub user_mode_sixty_four_code_segment: SegmentDescriptor,
    pub user_mode_sixty_four_data_segment: SegmentDescriptor,
    pub tss_segments: Vec<SystemSegmentDescriptor>,
}

/// Access byte of the kernel's 64-bit code segment: present, code/data type,
/// executable, readable, accessed, ring 0.
pub const KERNEL_CODE_ACCESS: u8 = 0x9B;

/// Access byte of the kernel's data segment: present, code/data type,
/// writable, accessed, ring 0.
pub const KERNEL_DATA_ACCESS: u8 = 0x93;

/// Access byte of the user 64-bit code segment (ring 3).
pub const USER_CODE_ACCESS: u8 = 0xFB;

/// Access byte of the user data segment (ring 3).
pub const USER_DATA_ACCESS: u8 = 0xF3;

/// Access byte of a present, available 64-bit task state segment.
pub const AVAILABLE_TSS_ACCESS: u8 = 0x89;

/// The access bytes that the attribute builders produce for the flat
/// segments and the task state segment.
proof fn lemma_access_bytes()
    by (bit_vector)
    ensures
        set_bit(set_bit(set_bit(set_bit(set_bit(0u8, 7u8, true), 4u8, true), 3u8, true), 1u8, true), 0u8, true)
            == KERNEL_CODE_ACCESS,
        set_bit(set_bit(set_bit(set_bit(0u8, 7u8, true), 4u8, true), 1u8, true), 0u8, true)
            == KERNEL_DATA_ACCESS,
        set_bit(set_bit(set_bit(set_bit((set_bit(0u8, 7u8, true) & 0x9Fu8) | ((3u8 & 3u8) << 5u8), 4u8, true), 3u8, true), 1u8, true), 0u8, true)
            == USER_CODE_ACCESS,
        set_bit(set_bit(set_bit((set_bit(0u8, 7u8, true) & 0x9Fu8) | ((3u8 & 3u8) << 5u8), 4u8, true), 1u8, true), 0u8, true)
            == USER_DATA_ACCESS,
        ((2u8 | 0x80u8) & 0xF0u8) | 9u8 == AVAILABLE_TSS_ACCESS,
        (0u8 & 0xFu8) << 4u8 == 0u8,
        0u8 & 0xFu8 == 0u8,
{
}

/// The descriptor of a flat segment with access byte `access` and flags `flags`.
pub open spec fn flat_segment(access: u8, flags: u8) -> SegmentDescriptor {
    SegmentDescriptor {
        limit_low: 0,
        base_low: 0,
        base_mid: 0,
        attributes: access,
        flags_and_limit_high: (flags & 0xFu8) << 4u8,
        base_high: 0,
    }
}

proof fn lemma_flat_segment(d: SegmentDescriptor, access: u8, flags: u8)
    requires
        segment_base(d) == 0,
        segment_limit(d) == 0,
        d.attributes == access,
        d.flags_and_limit_high >> 4u8 == flags & 0xFu8,
    ensures
        d == flat_segment(access, flags),
{
    let bl = d.base_low;
    let bm = d.base_mid;
    let bh = d.base_high;
    let ll = d.limit_low;
    let fh = d.flags_and_limit_high;
    assert(bl == 0 && bm == 0 && bh == 0) by (bit_vector)
        requires (bl as u32) | ((bm as u32) << 16u32) | ((bh as u32) << 24u32) == 0u32;
    assert(ll == 0 && fh == (flags & 0xFu8) << 4u8) by (bit_vector)
        requires
            (ll as u32) | (((fh & 0xFu8) as u32) << 16u32) == 0u32,
            fh >> 4u8 == flags & 0xFu8,
    ;
}

impl GlobalDescriptorTable {
    /// The kernel's table: null and legacy slots empty, flat 64-bit code and
    /// data segments for rings 0 and 3, and empty task state slots.
    pub fn new() -> (t: Self)
        ensures
            t.null_entry == flat_segment(0, 0),
            t.kernel_mode_sixteen_bit_code_segment == flat_segment(0, 0),
            t.kernel_mode_sixteen_bit_data_segment == flat_segment(0, 0),
            t.kernel_mode_thirty_two_bit_code_segment == flat_segment(0, 0),
            t.kernel_mode_thirty_two_bit_data_segment == flat_segment(0, 0),
            t.kernel_mode_sixty_four_code_segment == flat_segment(
                KERNEL_CODE_ACCESS,
                SegmentFlags::SIXTY_FOUR_BIT_CODE_SEGMENT,
            ),
            t.kernel_mode_sixty_four_data_segment == flat_segment(KERNEL_DATA_ACCESS, 0),
            t.user_mode_sixty_four_code_segment == flat_segment(
                USER_CODE_ACCESS,
                SegmentFlags::SIXTY_FOUR_BIT_CODE_SEGMENT,
            ),
            t.user_mode_sixty_four_data_segment == flat_segment(USER_DATA_ACCESS, 0),
            t.tss_segments@.len() == MAXIMUM_CPU_CORES,
            forall|i: int| 0 <= i < MAXIMUM_CPU_CORES ==> #[trigger] t.tss_segments@[i] == SystemSegmentDescriptor::zero_spec(),
    {
        let k0 = SegmentDescriptorAttributes::new();
        let k1 = k0.with_present(true);
        let k2 = k1.with_descriptor_type(true);
        let k3 = k2.with_executable(true);
        let k4 = k3.with_readable_or_writable(true);
        let kernel_code_attributes = k4.with_accessed(true);
        proof {
            lemma_access_bytes();
        }
        let kernel_code = SegmentDescriptor::new(
            0,
            0,
            kernel_code_attributes,
            SegmentFlags::sixty_four_bit_code_segment(),
        );
        let d0 = SegmentDescriptorAttributes::new();
        let d1 = d0.with_present(true);
        let d2 = d1.with_descriptor_type(true);
        let d3 = d2.with_readable_or_writable(true);
        let kernel_data_attributes = d3.with_accessed(true);

        let kernel_data = SegmentDescriptor::new(0, 0, kernel_data_attributes, SegmentFlags::empty());
        let u0 = SegmentDescriptorAttributes::new();
        let u1 = u0.with_present(true);
        let u2 = u1.with_privilege_level(3);
        let u3 = u2.with_descriptor_type(true);
        let u4 = u3.with_executable(true);
        let u5 = u4.with_readable_or_writable(true);
        let user_code_attributes = u5.with_accessed(true);

        let user_code = SegmentDescriptor::new(
            0,
            0,
            user_code_attributes,
            SegmentFlags::sixty_four_bit_code_segment(),
        );
        let v0 = SegmentDescriptorAttributes::new();
        let v1 = v0.with_present(true);
        let v2 = v1.with_privilege_level(3);
        let v3 = v2.with_descriptor_type(true);
        let v4 = v3.with_readable_or_writable(true);
        let user_data_attributes = v4.with_accessed(true);

        let user_data = SegmentDescriptor::new(0, 0, user_data_attributes, SegmentFlags::empty());
        proof {
            lemma_flat_segment(kernel_code, KERNEL_CODE_ACCESS, SegmentFlags::SIXTY_FOUR_BIT_CODE_SEGMENT);
            lemma_flat_segment(kernel_data, KERNEL_DATA_ACCESS, 0);
            lemma_flat_segment(user_code, USER_CODE_ACCESS, SegmentFlags::SIXTY_FOUR_BIT_CODE_SEGMENT);
            lemma_flat_segment(user_data, USER_DATA_ACCESS, 0);
        }
        let mut tss_segments: Vec<SystemSegmentDescriptor> = Vec::new();
        let mut i: usize = 0;
        while i < MAXIMUM_CPU_CORES
            invariant
                i <= MAXIMUM_CPU_CORES,
                tss_segments@.len() == i,
                forall|j: int| 0 <= j < i ==> #[trigger] tss_segments@[j] == SystemSegmentDescriptor::zero_spec(),
            decreases MAXIMUM_CPU_CORES - i,
        {
            tss_segments.push(SystemSegmentDescriptor::zero());
            i = i + 1;
        }
        GlobalDescriptorTable {
            null_entry: SegmentDescriptor::zero(),
            kernel_mode_sixteen_bit_code_segment: SegmentDescriptor::zero(),
            kernel_mode_sixteen_bit_data_segment: SegmentDescriptor::zero(),
            kernel_mode_thirty_two_bit_code_segment: SegmentDescriptor::zero(),
            kernel_mode_thirty_two_bit_data_segment: SegmentDescriptor::zero(),
            kernel_mode_sixty_four_code_segment: kernel_code,
            kernel_mode_sixty_four_data_segment: kernel_data,
            user_mode_sixty_four_code_segment: user_code,
            user_mode_sixty_four_data_segment: user_data,
            tss_segments,
        }
    }

    /// Points task state slot `index` at the segment at `base`: a present,
    /// available 64-bit task state segment of `TASK_STATE_SEGMENT_SIZE`
    /// bytes.
    pub fn set_task_state_segment(&mut self, index: usize, base: u64)
        requires
            index < old(self).tss_segments@.len(),
        ensures
            final(self).tss_segments@.len() == old(self).tss_segments@.len(),
            forall|j: int| 0 <= j < old(self).tss_segments@.len() && j != index ==> #[trigger] final(self).tss_segments@[j] == old(self).tss_segments@[j],
            system_segment_base(final(self).tss_segments@[index as int]) == base,
            system_segment_limit(final(self).tss_segments@[index as int]) == TASK_STATE_SEGMENT_SIZE,
            final(self).tss_segments@[index as int].attributes == AVAILABLE_TSS_ACCESS,
            final(self).tss_segments@[index as int].flags_and_limit_high >> 4u8 == 0,
            final(self).null_entry == old(self).null_entry,
            final(self).kernel_mode_sixty_four_code_segment == old(self).kernel_mode_sixty_four_code_segment,
            final(self).kernel_mode_sixty_four_data_segment == old(self).kernel_mode_sixty_four_data_segment,
            final(self).user_mode_sixty_four_code_segment == old(self).user_mode_sixty_four_code_segment,
            final(self).user_mode_sixty_four_data_segment == old(self).user_mode_sixty_four_data_segment,
    {
        let a0 = SystemSegmentDescriptorAttributes::new();
        let a1 = a0.with_present(true);
        let attributes = a1.with_segment_type(SystemSegmentType::SixtyFourBitAvailableTaskStateSegment);
        proof {
            lemma_access_bytes();
        }
        let d = SystemSegmentDescriptor::new(base, TASK_STATE_SEGMENT_SIZE, attributes, SegmentFlags::empty());
        self.tss_segments.set(index, d);
    }
}

impl SystemSegmentDescriptor {
    /// The null system descriptor.
    pub open spec fn zero_spec() -> SystemSegmentDescriptor {
        SystemSegmentDescriptor {
            limit_low: 0,
            base_low: 0,
            base_mid: 0,
            attributes: 0,
            flags_and_limit_high: 0,
            base_high: 0,
            base_higher: 0,
            reserved: 0,
        }
    }
}

/// The kernel's table with one task state segment per processor, the
/// segment of processor `i` at `tss_base + i * TASK_STATE_SEGMENT_SIZE`.
pub fn setup_gdt(tss_base: u64) -> (t: GlobalDescriptorTable)
    requires
        tss_base + MAXIMUM_CPU_CORES * TASK_STATE_SEGMENT_SIZE <= u64::MAX,
    ensures
        t.tss_segments@.len() == MAXIMUM_CPU_CORES,
        forall|i: int| 0 <= i < MAXIMUM_CPU_CORES ==> system_segment_base(#[trigger] t.tss_segments@[i]) == tss_base + i * TASK_STATE_SEGMENT_SIZE,
        forall|i: int| 0 <= i < MAXIMUM_CPU_CORES ==> (#[trigger] t.tss_segments@[i]).attributes == AVAILABLE_TSS_ACCESS,
        forall|i: int| 0 <= i < MAXIMUM_CPU_CORES ==> system_segment_limit(#[trigger] t.tss_segments@[i]) == TASK_STATE_SEGMENT_SIZE,
        t.kernel_mode_sixty_four_code_segment == flat_segment(
            KERNEL_CODE_ACCESS,
            SegmentFlags::SIXTY_FOUR_BIT_CODE_SEGMENT,
        ),
        t.kernel_mode_sixty_four_data_segment == flat_segment(KERNEL_DATA_ACCESS, 0),
        t.user_mode_sixty_four_code_segment == flat_segment(
            USER_CODE_ACCESS,
            SegmentFlags::SIXTY_FOUR_BIT_CODE_SEGMENT,
        ),
        t.user_mode_sixty_four_data_segment == flat_segment(USER_DATA_ACCESS, 0),
{
    let mut gdt = GlobalDescriptorTable::new();
    let mut index: usize = 0;
    while index < MAXIMUM_CPU_CORES
        invariant
            index <= MAXIMUM_CPU_CORES,
            tss_base + MAXIMUM_CPU_CORES * TASK_STATE_SEGMENT_SIZE <= u64::MAX,
            gdt.tss_segments@.len() == MAXIMUM_CPU_CORES,
            forall|i: int| 0 <= i < index ==> system_segment_base(#[trigger] gdt.tss_segments@[i]) == tss_base + i * TASK_STATE_SEGMENT_SIZE,
            forall|i: int| 0 <= i < index ==> (#[trigger] gdt.tss_segments@[i]).attributes == AVAILABLE_TSS_ACCESS,
            forall|i: int| 0 <= i < index ==> system_segment_limit(#[trigger] gdt.tss_segments@[i]) == TASK_STATE_SEGMENT_SIZE,
            gdt.kernel_mode_sixty_four_code_segment == flat_segment(
                KERNEL_CODE_ACCESS,
                SegmentFlags::SIXTY_FOUR_BIT_CODE_SEGMENT,
            ),
            gdt.kernel_mode_sixty_four_data_segment == flat_segment(KERNEL_DATA_ACCESS, 0),
            gdt.user_mode_sixty_four_code_segment == flat_segment(
                USER_CODE_ACCESS,
                SegmentFlags::SIXTY_FOUR_BIT_CODE_SEGMENT,
            ),
            gdt.user_mode_sixty_four_data_segment == flat_segment(USER_DATA_ACCESS, 0),
        decreases MAXIMUM_CPU_CORES - index,
    {
        assert(index * TASK_STATE_SEGMENT_SIZE <= MAXIMUM_CPU_CORES * TASK_STATE_SEGMENT_SIZE) by (nonlinear_arith)
            requires index <= MAXIMUM_CPU_CORES;
        let base = tss_base + (index as u64) * (TASK_STATE_SEGMENT_SIZE as u64);
        gdt.set_task_state_segment(index, base);
        index = index + 1;
    }
    gdt
}

/// The operand of `lgdt`: the table's size less one and its address.
#[derive(Debug, Clone, Copy, PartialEq, Eq, Structural)]
pub struct GlobalDescriptorTableDescriptor {
    pub size: u16,
    pub addr: u64,
}

impl GlobalDescriptorTableDescriptor {
    pub fn new(size: u16, addr: u64) -> (d: Self)
        ensures
            d.size == size,
            d.addr == addr,
    {
        GlobalDescriptorTableDescriptor { size, addr }
    }
}

/// The selector that `ltr` loads for the task state segment of processor
/// `processor_index`: its slot (two descriptor slots per processor, from
/// `TSS_INDEX`) with requested privilege level 3.
pub fn tss_selector(processor_index: u16) -> (s: u16)
    requires
        processor_index < MAXIMUM_CPU_CORES,
    ensures
        s == ((TSS_INDEX + 2 * processor_index) * 8 + 3),
{
    let slot: u16 = 9 + processor_index * 2;
    assert((slot << 3u16) | 3u16 == slot * 8 + 3) by (bit_vector)
        requires slot < 32;
    (slot << 3) | 3
}

/// The address an interrupt stack pointer starts at: 16 bytes below the
/// top of the stack allocated at `stack_base`.
pub fn interrupt_stack_top(stack_base: u64) -> (top: u64)
    requires
        stack_base + INTERRUPT_STACK_SIZE <= u64::MAX,
    ensures
        top == stack_base + INTERRUPT_STACK_SIZE - 16,
{
    stack_base + INTERRUPT_STACK_SIZE - 16
}

/// The task state segment of a processor.
#[derive(Debug, Clone, Copy, PartialEq, Eq, Structural)]
pub struct TaskStateSegment {
    pub reserved1: u32,
    pub rsp0: u64,
    pub rsp1: u64,
    pub rsp2: u64,
    pub reserved2: u32,
    pub reserved3: u32,
    pub ist1: u64,
    pub ist2: u64,
    pub ist3: u64,
    pub ist4: u64,
    pub ist5: u64,
    pub ist6: u64,
    pub ist7: u64,
    pub reserved4: u32,
    pub reserved5: u32,
    pub reserved6: u16,
    pub iopb: u16,
}

impl TaskStateSegment {
    /// A segment with no stacks and the I/O permission bitmap past its end.
    pub fn new() -> (t: Self)
        ensures
            t.iopb == TASK_STATE_SEGMENT_SIZE,
            t.rsp0 == 0 && t.ist1 == 0 && t.ist2 == 0 && t.ist3 == 0,
    {
        TaskStateSegment {
            reserved1: 0,
            rsp0: 0,
            rsp1: 0,
            rsp2: 0,
            reserved2: 0,
            reserved3: 0,
            ist1: 0,
            ist2: 0,
            ist3: 0,
            ist4: 0,
            ist5: 0,
            ist6: 0,
            ist7: 0,
            reserved4: 0,
            reserved5: 0,
            reserved6: 0,
            iopb: TASK_STATE_SEGMENT_SIZE as u16,
        }
    }

    /// Sets the kernel stack and the three interrupt stacks (timer, yield,
    /// system call) to start below the tops of the stacks at the given bases.
    pub fn set_stacks(&mut self, kernel_stack: u64, timer_stack: u64, yield_stack: u64, syscall_stack: u64)
        requires
            kernel_stack + INTERRUPT_STACK_SIZE <= u64::MAX,
            timer_stack + INTERRUPT_STACK_SIZE <= u64::MAX,
            yield_stack + INTERRUPT_STACK_SIZE <= u64::MAX,
            syscall_stack + INTERRUPT_STACK_SIZE <= u64::MAX,
        ensures
            final(self).rsp0 == kernel_stack + INTERRUPT_STACK_SIZE - 16,
            final(self).rsp1 == 0,
            final(self).rsp2 == 0,
            final(self).ist1 == timer_stack + INTERRUPT_STACK_SIZE - 16,
            final(self).ist2 == yield_stack + INTERRUPT_STACK_SIZE - 16,
            final(self).ist3 == syscall_stack + INTERRUPT_STACK_SIZE - 16,
            final(self).iopb == old(self).iopb,
            final(self).ist4 == old(self).ist4,
    {
        self.rsp0 = interrupt_stack_top(kernel_stack);
        self.rsp1 = 0;
        self.rsp2 = 0;
        self.ist1 = interrupt_stack_top(timer_stack);
        self.ist2 = interrupt_stack_top(yield_stack);
        self.ist3 = interrupt_stack_top(syscall_stack);
    }
}

} // verus!
