//! Processor bring-up: the features the kernel requires and the control
//! register values it sets.
use vstd::prelude::*;

verus! {

/// The processor features that CPUID reports and the kernel requires.
#[derive(Clone, Copy, PartialEq, Eq, Structural, Debug)]
pub struct CpuFeatures {
    pub has_64bit_mode: bool,
    pub has_sse: bool,
    pub has_sse2: bool,
    pub has_pge: bool,
    pub has_fsgsbase: bool,
    pub has_execute_disable: bool,
}

/// A required feature that the processor lacks, in the order the kernel
/// checks them.
#[derive(Clone, Copy, PartialEq, Eq, Structural, Debug)]
pub enum MissingFeature {
    LongMode,
    Sse,
    Sse2,
    Pge,
    FsGsBase,
    NoExecute,
}

impl MissingFeature {
    /// The message the kernel stops with.
    pub fn message(&self) -> (r: &'static str)
        ensures
            r@ == match *self {
                MissingFeature::LongMode => "CPU doesn't support x86_64"@,
                MissingFeature::Sse => "CPU doesn't support SSE"@,
                MissingFeature::Sse2 => "CPU doesn't support SSE2"@,
                MissingFeature::Pge => "CPU doesn't support PGE"@,
                MissingFeature::FsGsBase => "CPU doesn't support FSGSBASE"@,
                MissingFeature::NoExecute => "CPU doesn't support NX/XD"@,
            },
    {
        match self {
            MissingFeature::LongMode => "CPU doesn't support x86_64",
            MissingFeature::Sse => "CPU doesn't support SSE",
            MissingFeature::Sse2 => "CPU doesn't support SSE2",
            MissingFeature::Pge => "CPU doesn't support PGE",
            MissingFeature::FsGsBase => "CPU doesn't support FSGSBASE",
            MissingFeature::NoExecute => "CPU doesn't support NX/XD",
        }
    }
}

/// The first required feature that `f` lacks, if any.
pub fn missing_cpu_feature(f: CpuFeatures) -> (r: Option<MissingFeature>)
    ensures
        r == (if !f.has_64bit_mode {
            Some(MissingFeature::LongMode)
        } else if !f.has_sse {
            Some(MissingFeature::Sse)
        } else if !f.has_sse2 {
            Some(MissingFeature::Sse2)
        } else if !f.has_pge {
            Some(MissingFeature::Pge)
        } else if !f.has_fsgsbase {
            Some(MissingFeature::FsGsBase)
        } else if !f.has_execute_disable {
            Some(MissingFeature::NoExecute)
        } else {
            None::<MissingFeature>
        }),
{
    if !f.has_64bit_mode {
        Some(MissingFeature::LongMode)
    } else if !f.has_sse {
        Some(MissingFeature::Sse)
    } else if !f.has_sse2 {
        Some(MissingFeature::Sse2)
    } else if !f.has_pge {
        Some(MissingFeature::Pge)
    } else if !f.has_fsgsbase {
        Some(MissingFeature::FsGsBase)
    } else if !f.has_execute_disable {
        Some(MissingFeature::NoExecute)
    } else {
        None
    }
}

/// EFER: no-execute enable.
pub const EFER_NO_EXECUTE_ENABLE: u64 = 0x800;
/// CR0: monitor coprocessor.
pub const CR0_MONITOR_COPROCESSOR: u64 = 0x2;
/// CR0: emulate coprocessor.
pub const CR0_EMULATE_COPROCESSOR: u64 = 0x4;
/// CR0: numeric error.
pub const CR0_NUMERIC_ERROR: u64 = 0x20;
/// CR4: global pages.
pub const CR4_PAGE_GLOBAL: u64 = 0x80;
/// CR4: FXSAVE/FXRSTOR support.
pub const CR4_OSFXSR: u64 = 0x200;
/// CR4: unmasked SIMD floating-point exceptions.
pub const CR4_OSXMMEXCPT_ENABLE: u64 = 0x400;
/// CR4: FSGSBASE instructions.
pub const CR4_FSGSBASE: u64 = 0x10000;

/// EFER with no-execute pages enabled.
pub fn efer_value(efer: u64) -> (r: u64)
    ensures
        r == efer | EFER_NO_EXECUTE_ENABLE,
{
    efer | EFER_NO_EXECUTE_ENABLE
}

/// CR0 with the FPU used natively: coprocessor emulation off, numeric errors
/// and coprocessor monitoring on.
pub fn cr0_value(cr0: u64) -> (r: u64)
    ensures
        r == (cr0 & !CR0_EMULATE_COPROCESSOR) | CR0_NUMERIC_ERROR | CR0_MONITOR_COPROCESSOR,
{
    (cr0 & !CR0_EMULATE_COPROCESSOR) | CR0_NUMERIC_ERROR | CR0_MONITOR_COPROCESSOR
}

/// CR4 with FSGSBASE, global pages, FXSAVE and SIMD exceptions enabled.
pub fn cr4_value(cr4: u64) -> (r: u64)
    ensures
        r == cr4 | CR4_FSGSBASE | CR4_PAGE_GLOBAL | CR4_OSFXSR | CR4_OSXMMEXCPT_ENABLE,
{
    cr4 | CR4_FSGSBASE | CR4_PAGE_GLOBAL | CR4_OSFXSR | CR4_OSXMMEXCPT_ENABLE
}

} // verus!
