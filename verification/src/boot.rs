//! What the Limine boot loader hands the kernel, and the checks that turn its
//! responses into a boot context or say which one is missing.
use vstd::prelude::*;

verus! {

/// One region of the physical memory map.
#[derive(Clone, Copy, PartialEq, Eq, Structural, Debug)]
pub struct MemoryMapEntry {
    pub base: u64,
    pub length: u64,
    pub entry_type: u64,
}

/// A framebuffer that the boot loader set up.
#[derive(Clone, Copy, PartialEq, Eq, Structural, Debug)]
pub struct FramebufferInfo {
    pub address: u64,
    pub width: u64,
    pub height: u64,
    pub pitch: u64,
    pub bpp: u16,
    pub red_mask_shift: u8,
    pub green_mask_shift: u8,
    pub blue_mask_shift: u8,
}

/// The boot loader's answers to the kernel's requests; `None` where a
/// request got no response.
pub struct LimineResponses {
    pub base_revision_supported: bool,
    pub stack_size: Option<u64>,
    pub paging_mode: Option<u64>,
    pub memory_map: Option<Vec<MemoryMapEntry>>,
    pub hhdm_offset: Option<u64>,
    pub executable_virtual_base: Option<u64>,
    pub rsdp_address: Option<u64>,
    pub framebuffers: Option<Vec<FramebufferInfo>>,
}

/// Why the boot context could not be gathered.
#[derive(Clone, Copy, PartialEq, Eq, Structural, Debug)]
pub enum LimineError {
    UnsupportedRevision,
    StackAllocationFailed,
    UnsupportedPagingMode,
    MemoryMapUnavailable,
    HhdmNotProvided,
    RsdpNotFound,
    NoFramebufferAvailable,
}

impl LimineError {
    /// The error's message.
    pub fn message(&self) -> (r: &'static str)
        ensures
            r@ == match *self {
                LimineError::UnsupportedRevision => "unsupported revision"@,
                LimineError::StackAllocationFailed => "stack allocation failed"@,
                LimineError::UnsupportedPagingMode => "unsupported paging mode"@,
                LimineError::MemoryMapUnavailable => "memory map is unavailable"@,
                LimineError::HhdmNotProvided => "HHDM was not provided"@,
                LimineError::RsdpNotFound => "RSDP was not found"@,
                LimineError::NoFramebufferAvailable => "no framebuffer was available"@,
            },
    {
        match self {
            LimineError::UnsupportedRevision => "unsupported revision",
            LimineError::StackAllocationFailed => "stack allocation failed",
            LimineError::UnsupportedPagingMode => "unsupported paging mode",
            LimineError::MemoryMapUnavailable => "memory map is unavailable",
            LimineError::HhdmNotProvided => "HHDM was not provided",
            LimineError::RsdpNotFound => "RSDP was not found",
            LimineError::NoFramebufferAvailable => "no framebuffer was available",
        }
    }
}

/// What the kernel keeps of the boot loader's answers.
pub struct LimineBootContext {
    pub memory_map_entries: Vec<MemoryMapEntry>,
    pub physical_memory_offset: u64,
    pub kernel_virtual_base_address: u64,
    pub rsdp: u64,
    pub framebuffer: FramebufferInfo,
}

/// The first missing response, in the order the kernel checks them; the
/// stack size response is asked for but not required.
pub open spec fn gather_error(r: LimineResponses) -> Option<LimineError> {
    if !r.base_revision_supported {
        Some(LimineError::UnsupportedRevision)
    } else if r.paging_mode is None {
        Some(LimineError::UnsupportedPagingMode)
    } else if r.memory_map is None {
        Some(LimineError::MemoryMapUnavailable)
    } else if r.hhdm_offset is None {
        Some(LimineError::HhdmNotProvided)
    } else if r.rsdp_address is None {
        Some(LimineError::RsdpNotFound)
    } else if r.framebuffers is None || r.framebuffers->0@.len() == 0 {
        Some(LimineError::NoFramebufferAvailable)
    } else {
        None
    }
}

impl LimineBootContext {
    /// Builds the boot context from the boot loader's responses: the memory
    /// map, the offset of the direct map of physical memory, the kernel's
    /// virtual base, the RSDP and the first framebuffer. The executable
    /// address response is always given by the boot loader.
    pub fn gather(responses: LimineResponses) -> (r: Result<Self, LimineError>)
        requires
            responses.base_revision_supported && responses.paging_mode is Some
                && responses.memory_map is Some && responses.hhdm_offset is Some
                ==> responses.executable_virtual_base is Some,
        ensures
            match r {
                Err(e) => gather_error(responses) == Some(e),
                Ok(ctx) => {
                    &&& gather_error(responses) is None
                    &&& ctx.memory_map_entries@ == responses.memory_map->0@
                    &&& ctx.physical_memory_offset == responses.hhdm_offset->0
                    &&& ctx.kernel_virtual_base_address == responses.executable_virtual_base->0
                    &&& ctx.rsdp == responses.rsdp_address->0
                    &&& ctx.framebuffer == responses.framebuffers->0@[0]
                },
            },
    {
        if !responses.base_revision_supported {
            return Err(LimineError::UnsupportedRevision);
        }
        if responses.paging_mode.is_none() {
            return Err(LimineError::UnsupportedPagingMode);
        }
        let memory_map = match responses.memory_map {
            None => return Err(LimineError::MemoryMapUnavailable),
            Some(m) => m,
        };
        let physical_memory_offset = match responses.hhdm_offset {
            None => return Err(LimineError::HhdmNotProvided),
            Some(o) => o,
        };
        let kernel_virtual_base_address = responses.executable_virtual_base.unwrap();
        let rsdp = match responses.rsdp_address {
            None => return Err(LimineError::RsdpNotFound),
            Some(a) => a,
        };
        let framebuffers = match responses.framebuffers {
            None => return Err(LimineError::NoFramebufferAvailable),
            Some(f) => f,
        };
        if framebuffers.len() == 0 {
            return Err(LimineError::NoFramebufferAvailable);
        }
        let framebuffer = framebuffers[0];
        Ok(
            LimineBootContext {
                memory_map_entries: memory_map,
                physical_memory_offset,
                kernel_virtual_base_address,
                rsdp,
                framebuffer,
            },
        )
    }
}

} // verus!
