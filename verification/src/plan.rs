use vstd::prelude::*;

verus! {

use crate::error::WaveformError;

/// Number of raw interleaved samples folded into one bucket when the
/// container does not declare a total frame count up front. For such
/// streaming sources the output length is determined organically by
/// the stream length, not by the requested point count.
pub const DEFAULT_SAMPLES_PER_BUCKET: u64 = 100;

/// The bucket size chosen when the total sample count is known ahead
/// of time: one point per `total_samples / points` samples, floored,
/// but never fewer than one sample per bucket, and clipped to what a
/// 64-bit counter can hold.
pub open spec fn planned_bucket_size(total_samples: nat, points: nat) -> nat
    recommends
        points > 0,
{
    let q = total_samples / points;
    if q == 0 {
        1
    } else if q > u64::MAX {
        u64::MAX as nat
    } else {
        q
    }
}

/// Decide how many raw interleaved samples map to one output bucket.
///
/// A request for zero points is rejected: the known-length branch
/// would otherwise divide by zero. With a known total frame count the
/// bucket size honors the requested point count; without one it falls
/// back to a fixed default width.
pub fn plan_samples_per_bucket(n_frames: Option<u64>, channel_count: u64, points: u32) -> (r:
    Result<u64, WaveformError>)
    ensures
        points == 0 <==> r == Err::<u64, WaveformError>(WaveformError::InvalidPointCount),
        points > 0 ==> match n_frames {
            Some(n) => r == Ok::<u64, WaveformError>(
                planned_bucket_size((n * channel_count) as nat, points as nat) as u64,
            ),
            None => r == Ok::<u64, WaveformError>(DEFAULT_SAMPLES_PER_BUCKET),
        },
        r is Ok ==> r->Ok_0 >= 1,
{
    if points == 0 {
        return Err(WaveformError::InvalidPointCount);
    }
    match n_frames {
        None => Ok(DEFAULT_SAMPLES_PER_BUCKET),
        Some(n) => {
            proof {
                assert((n as int) * (channel_count as int) <= (u64::MAX as int) * (u64::MAX
                    as int)) by (nonlinear_arith)
                    requires
                        n <= u64::MAX,
                        channel_count <= u64::MAX,
                ;
            }
            let total: u128 = (n as u128) * (channel_count as u128);
            let q: u128 = total / (points as u128);
            if q == 0 {
                Ok(1u64)
            } else if q > (u64::MAX as u128) {
                Ok(u64::MAX)
            } else {
                Ok(q as u64)
            }
        },
    }
}

} // verus!
