//! Calibration of the time stamp counter at boot: each source measures how many
//! TSC ticks pass in a 10 ms window of its own timebase, and the count is
//! scaled to ticks per second.
//!
//! The sources here hold what the calibration computes; reading the hardware
//! (ports, MSRs, memory-mapped registers, the TSC) is the caller's part.
use vstd::prelude::*;

verus! {

/// Windows of 10 ms in a second.
pub const WINDOWS_PER_SECOND: u64 = 100;

/// TSC ticks per second from the TSC readings at the start and at the end of a
/// 10 ms window.
pub open spec fn spec_tsc_frequency(tsc_start: u64, tsc_end: u64) -> int {
    (tsc_end - tsc_start) * WINDOWS_PER_SECOND
}

/// TSC ticks per second from the TSC readings at the start and at the end of a
/// 10 ms window.
pub fn tsc_frequency(tsc_start: u64, tsc_end: u64) -> (r: u64)
    requires
        tsc_start <= tsc_end,
        spec_tsc_frequency(tsc_start, tsc_end) <= u64::MAX,
    ensures
        r == spec_tsc_frequency(tsc_start, tsc_end),
{
    frequency_from_window_ticks(tsc_end - tsc_start)
}

/// TSC ticks per second from the ticks counted in one 10 ms window.
pub fn frequency_from_window_ticks(ticks: u64) -> (r: u64)
    requires
        ticks * WINDOWS_PER_SECOND <= u64::MAX,
    ensures
        r == ticks * WINDOWS_PER_SECOND,
{
    ticks * WINDOWS_PER_SECOND
}

/// Legacy PIT, channel 2, as a ~1.193182 MHz reference.
#[derive(Clone, Copy, Debug)]
pub struct PitTimer {}

/// PIT channel 2 counts this many ticks in about 10 ms.
pub const PIT_TARGET_COUNT: u16 = 11932;
/// PIT channel 0 data port.
pub const PIT_CHANNEL_0_DATA: u16 = 0x40;
/// PIT channel 1 data port.
pub const PIT_CHANNEL_1_DATA: u16 = 0x41;
/// PIT channel 2 data port.
pub const PIT_CHANNEL_2_DATA: u16 = 0x42;
/// PIT mode command register.
pub const PIT_COMMAND_REGISTER: u16 = 0x43;
/// System control port B.
pub const SYSTEM_CONTROL_PORT_B: u16 = 0x61;
/// PIT command: channel 2, low then high byte, mode 0.
pub const PIT_CHANNEL_2_ONE_SHOT: u8 = 0xB0;

impl PitTimer {
    /// The PIT is legacy hardware that every PC-compatible machine has.
    pub fn present(&self) -> (r: bool)
        ensures
            r,
    {
        true
    }

    /// Port B value that opens the speaker gate of channel 2 (bit 0) and keeps
    /// the speaker itself off (bit 1 clear), from its current value.
    pub fn gate_enabled(port_b: u8) -> (r: u8)
        ensures
            r == (port_b & 0xFD) | 1,
            r & 1 == 1,
            r & 2 == 0,
    {
        assert(((port_b & 0xFDu8) | 1u8) & 1u8 == 1u8 && ((port_b & 0xFDu8) | 1u8) & 2u8 == 0u8)
            by (bit_vector);
        (port_b & 0xFD) | 1
    }

    /// Port B value that closes the speaker enable of channel 2 and the speaker
    /// again.
    pub fn gate_disabled(port_b: u8) -> (r: u8)
        ensures
            r == port_b & 0xFC,
    {
        port_b & 0xFC
    }

    /// Whether channel 2 has counted down, from port B (bit 5).
    pub fn countdown_finished(port_b: u8) -> (r: bool)
        ensures
            r == (port_b & 0x20 != 0),
    {
        port_b & 0x20 != 0
    }

    /// The low and the high byte of the countdown value, in the order the
    /// data port takes them.
    pub fn countdown_bytes() -> (r: (u8, u8))
        ensures
            r.0 as int + r.1 as int * 256 == PIT_TARGET_COUNT,
    {
        let low = (PIT_TARGET_COUNT & 0xFF) as u8;
        let high = (PIT_TARGET_COUNT >> 8u16) as u8;
        assert(PIT_TARGET_COUNT & 0xFFu16 == 156u16 && PIT_TARGET_COUNT >> 8u16 == 46u16)
            by (bit_vector);
        (low, high)
    }
}

/// Hyper-V reference counter: an MSR that ticks at 10 MHz.
#[derive(Clone, Copy, Debug)]
pub struct HyperVReferenceCounter {}

/// The Hyper-V reference counter MSR.
pub const HV_X64_MSR_TIME_REF_COUNT: u32 = 0x40000020;
/// Frequency of the Hyper-V reference counter.
pub const HV_REF_CLOCK_FREQUENCY_HZ: u64 = 10_000_000;
/// Reference ticks in 10 ms.
pub const HV_TARGET_TICKS: u64 = 100_000;

impl HyperVReferenceCounter {
    /// Whether the window that started at the reference count `start_ref` has
    /// passed at the count `current_ref`.
    pub fn window_elapsed(start_ref: u64, current_ref: u64) -> (r: bool)
        requires
            start_ref <= current_ref,
        ensures
            r == (current_ref - start_ref >= HV_TARGET_TICKS),
    {
        current_ref - start_ref >= HV_TARGET_TICKS
    }
}

/// HPET main counter as the reference.
#[derive(Clone, Copy, Debug)]
pub struct HpetTimer {}

/// Offset of the general capabilities and ID register.
pub const HPET_CAPABILITIES: u64 = 0x00;
/// Offset of the general configuration register.
pub const HPET_CONFIGURATION: u64 = 0x10;
/// Offset of the main counter value register.
pub const HPET_MAIN_COUNTER: u64 = 0xF0;
/// 10 ms in femtoseconds.
pub const HPET_TARGET_FS: u64 = 10_000_000_000_000;

impl HpetTimer {
    /// The counter period in femtoseconds, from the capabilities register.
    pub fn period_fs(capabilities: u64) -> (r: u64)
        ensures
            r == capabilities / 0x1_0000_0000,
    {
        proof {
            crate::bits::lemma_u64_fields(capabilities);
        }
        capabilities >> 32u64
    }

    /// Counter ticks in 10 ms; `None` for a period of zero, which broken
    /// hardware reports (the calibration then gives 0).
    pub fn ticks_to_wait(period_fs: u64) -> (r: Option<u64>)
        ensures
            period_fs == 0 ==> r is None,
            period_fs != 0 ==> r == Some((HPET_TARGET_FS / period_fs) as u64),
    {
        if period_fs == 0 {
            None
        } else {
            Some(HPET_TARGET_FS / period_fs)
        }
    }

    /// The configuration register value with the main counter enabled.
    pub fn counter_enabled(config: u64) -> (r: u64)
        ensures
            r == config | 1,
    {
        config | 1
    }

    /// The configuration register value with the main counter stopped.
    pub fn counter_disabled(config: u64) -> (r: u64)
        ensures
            r == config & !1u64,
    {
        config & !1u64
    }

    /// Whether the window that started at the counter value `start` has passed
    /// at `current`.
    pub fn window_elapsed(start: u64, current: u64, ticks_to_wait: u64) -> (r: bool)
        requires
            start <= current,
        ensures
            r == (current - start >= ticks_to_wait),
    {
        current - start >= ticks_to_wait
    }
}

/// KVM paravirtual clock: the hypervisor publishes how TSC ticks convert to
/// nanoseconds (`ns = (tsc * mul) >> 32`, then a shift).
#[derive(Clone, Copy, Debug)]
pub struct KvmClockTimer {}

/// The MSR that registers the KVM system-time page.
pub const MSR_KVM_SYSTEM_TIME_NEW: u32 = 0x4b564d01;
/// 10 ms in nanoseconds.
pub const KVM_TARGET_NS: u64 = 10_000_000;

/// TSC ticks in 10 ms by the page's multiplier `mul`, before the shift is
/// applied: `(10 ms in ns << 32) / mul`.
pub open spec fn kvm_unshifted_ticks(mul: u32) -> u64 {
    ((KVM_TARGET_NS * 0x1_0000_0000) / (mul as int)) as u64
}

impl KvmClockTimer {
    /// Whether the two version numbers read around the multiplier and shift
    /// show a consistent snapshot: even (no update running), not zero, and
    /// unchanged.
    pub fn snapshot_consistent(version_before: u32, version_after: u32) -> (r: bool)
        ensures
            r == (version_before != 0 && version_before % 2 == 0 && version_before
                == version_after),
    {
        version_before != 0 && version_before % 2 == 0 && version_before == version_after
    }

    /// TSC ticks in a 10 ms window from the page's multiplier and shift: the
    /// unshifted count shifted right by a non-negative shift, left by a
    /// negative one (bits shifted out are lost).
    pub fn window_ticks(mul: u32, shift: i8) -> (r: u64)
        requires
            mul != 0,
            -64 < shift < 64,
        ensures
            shift >= 0 ==> r == kvm_unshifted_ticks(mul) >> (shift as u64),
            shift >= 0 ==> r == kvm_unshifted_ticks(mul) as nat / vstd::arithmetic::power2::pow2(
                shift as nat,
            ),
            shift < 0 ==> r == kvm_unshifted_ticks(mul) << ((-shift) as u64),
    {
        proof {
            vstd::arithmetic::power2::lemma2_to64();
            vstd::bits::lemma_u64_shl_is_mul(KVM_TARGET_NS, 32);
        }
        let ticks: u64 = (KVM_TARGET_NS << 32u64) / (mul as u64);
        if shift >= 0 {
            let s = shift as u64;
            proof {
                vstd::bits::lemma_u64_shr_is_div(ticks, s);
            }
            ticks >> s
        } else {
            let s = (-shift) as u64;
            ticks << s
        }
    }
}

} // verus!
