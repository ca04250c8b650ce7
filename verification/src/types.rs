//! The sample format shared by every producer, and per-sample amplitude
//! scaling.
//!
//! Samples are signed 16-bit mono PCM at a single fixed rate. Amplitudes are
//! carried as integer thousandths of full scale (`1000` plays a clip
//! unchanged, `1200` boosts it), so cue amplitudes above full scale are
//! representable; a scaled sample that leaves the representable range
//! saturates rather than wrapping.

use vstd::prelude::*;

verus! {

/// One mono audio sample.
pub type Samp = i16;

/// The fixed sample rate every clip and every synthesis chunk must use.
pub const SAMPLE_RATE: u32 = 22050;

/// Amplitude denominator: an amplitude of `AMP_UNIT` thousandths is 1.0,
/// i.e. samples pass through unscaled (up to saturation at the rails).
pub const AMP_UNIT: u32 = 1000;

/// Magnitude scaling: `m * amp / 1000`, on non-negative magnitudes, with
/// the division rounding down.
pub open spec fn scale_mag(amp: u32, m: int) -> int {
    m * (amp as int) / (AMP_UNIT as int)
}

/// What scaling a sample by an amplitude of `amp` thousandths yields: the
/// magnitude is multiplied by `amp / 1000` (rounded down) and the result
/// saturates at the 16-bit rails instead of wrapping.
pub open spec fn scale_samp(amp: u32, s: Samp) -> Samp {
    if s >= 0 {
        if scale_mag(amp, s as int) > (i16::MAX as int) {
            i16::MAX
        } else {
            scale_mag(amp, s as int) as i16
        }
    } else {
        if scale_mag(amp, -(s as int)) > 32768 {
            i16::MIN
        } else {
            (-scale_mag(amp, -(s as int))) as i16
        }
    }
}

/// Scale one sample by an amplitude in thousandths, saturating at the rails.
pub fn scale_sample(amp: u32, s: Samp) -> (r: Samp)
    ensures
        r == scale_samp(amp, s),
{
    if s >= 0 {
        assert((s as u64) * (amp as u64) <= 0x8000u64 * 0xffff_ffffu64) by (nonlinear_arith)
            requires
                s as u64 <= 0x8000,
                amp as u64 <= 0xffff_ffffu64,
        ;
        let m: u64 = (s as u64) * (amp as u64) / (AMP_UNIT as u64);
        if m > (i16::MAX as u64) {
            i16::MAX
        } else {
            m as i16
        }
    } else {
        let neg: u64 = (-(s as i32)) as u64;
        assert(neg * (amp as u64) <= 0x8000u64 * 0xffff_ffffu64) by (nonlinear_arith)
            requires
                neg <= 0x8000,
                amp as u64 <= 0xffff_ffffu64,
        ;
        let m: u64 = neg * (amp as u64) / (AMP_UNIT as u64);
        if m > 32768 {
            i16::MIN
        } else {
            (-(m as i32)) as i16
        }
    }
}

} // verus!
