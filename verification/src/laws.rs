use vstd::prelude::*;

verus! {

use vstd::arithmetic::div_mod::lemma_fundamental_div_mod;
use vstd::arithmetic::div_mod::lemma_fundamental_div_mod_converse;
use vstd::arithmetic::div_mod::lemma_div_is_ordered;
use vstd::arithmetic::div_mod::lemma_div_multiples_vanish;
use vstd::arithmetic::div_mod::lemma_mod_division_less_than_divisor;
use vstd::arithmetic::mul::lemma_mul_inequality;
use vstd::arithmetic::mul::lemma_mul_nonnegative;
use crate::reduce::bucket_count;
use crate::reduce::bucket_slice;
use crate::reduce::quantize;
use crate::reduce::samples_in_bucket;
use crate::reduce::seq_peak;
use crate::reduce::waveform_of;

/// A run's peak never exceeds a bound that every sample respects.
proof fn lemma_seq_peak_bounded(s: Seq<u32>, bound: nat)
    requires
        forall|i: int| 0 <= i < s.len() ==> s[i] as nat <= bound,
    ensures
        seq_peak(s) <= bound,
    decreases s.len(),
{
    if s.len() > 0 {
        lemma_seq_peak_bounded(s.drop_last(), bound);
    }
}

/// Quantizing a peak that does not exceed full scale never exceeds
/// the ceiling.
proof fn lemma_quantize_bounded(peak: nat, ceiling: nat)
    requires
        peak <= 65536,
    ensures
        quantize(peak, ceiling) <= ceiling,
{
    lemma_mul_inequality(peak as int, 65536, ceiling as int);
    lemma_div_is_ordered((peak * ceiling) as int, 65536 * (ceiling as int), 65536);
    lemma_div_multiples_vanish(ceiling as int, 65536);
}

/// Every emitted amplitude lies within `[0, ceiling]`, provided each
/// incoming sample magnitude is normalized to full scale or below.
pub proof fn lemma_amplitudes_within_ceiling(samples: Seq<u32>, spb: nat, ceiling: nat)
    requires
        spb > 0,
        forall|i: int|
            0 <= i < samples.len() ==> samples[i] <= crate::reduce::AMPLITUDE_SCALE,
    ensures
        forall|k: int|
            0 <= k < waveform_of(samples, spb, ceiling).len() ==> waveform_of(
                samples,
                spb,
                ceiling,
            )[k] as nat <= ceiling,
{
    let wf = waveform_of(samples, spb, ceiling);
    assert forall|k: int| 0 <= k < wf.len() implies #[trigger] wf[k] as nat <= ceiling by {
        lemma_bucket_starts_inside(samples.len(), spb, k);
        lemma_mul_nonnegative(k, spb as int);
        lemma_mul_inequality(k, k + 1, spb as int);
        let slice = bucket_slice(samples, spb, k);
        assert forall|i: int| 0 <= i < slice.len() implies #[trigger] slice[i] as nat
            <= 65536 by {
            assert(slice[i] == samples[k * spb + i]);
        }
        lemma_seq_peak_bounded(slice, 65536);
        lemma_quantize_bounded(seq_peak(slice), ceiling);
    }
}

/// The number of emitted buckets is the total sample count divided by
/// the bucket width, rounded up.
pub proof fn lemma_bucket_count_is_ceil(samples: Seq<u32>, spb: nat, ceiling: nat)
    requires
        spb > 0,
    ensures
        waveform_of(samples, spb, ceiling).len() == (samples.len() + spb - 1) / (spb as int),
{
    let n = samples.len() as int;
    let d = spb as int;
    let q = n / d;
    let r = n % d;
    lemma_fundamental_div_mod(n, d);
    if r == 0 {
        lemma_fundamental_div_mod_converse(n + d - 1, d, q, d - 1);
    } else {
        assert(d * (q + 1) == d * q + d) by (nonlinear_arith);
        lemma_fundamental_div_mod_converse(n + d - 1, d, q + 1, r - 1);
    }
}

/// The sample count folded into all buckets up to `upto`, in stream
/// order.
pub open spec fn folded_sample_total(samples: Seq<u32>, spb: nat, upto: nat) -> nat
    decreases upto,
{
    if upto == 0 {
        0
    } else {
        folded_sample_total(samples, spb, (upto - 1) as nat) + samples_in_bucket(
            samples,
            spb,
            upto - 1,
        )
    }
}

/// A bucket that exists starts strictly before the end of the stream.
proof fn lemma_bucket_starts_inside(total: nat, spb: nat, k: int)
    requires
        spb > 0,
        0 <= k < bucket_count(total, spb),
    ensures
        k * spb < total,
        k * spb + spb <= total + spb,
{
    let n = total as int;
    let d = spb as int;
    let q = n / d;
    let r = n % d;
    lemma_fundamental_div_mod(n, d);
    if r == 0 {
        lemma_mul_inequality(k, q - 1, d);
        assert((q - 1) * d == d * q - d) by (nonlinear_arith);
    } else {
        lemma_mul_inequality(k, q, d);
        assert(q * d == d * q) by (nonlinear_arith);
    }
}

/// The buckets up to `upto` fold exactly the samples before the
/// boundary of bucket `upto`, or the whole stream once the boundary
/// passes its end.
proof fn lemma_folded_prefix(samples: Seq<u32>, spb: nat, upto: nat)
    requires
        spb > 0,
        upto <= bucket_count(samples.len(), spb),
    ensures
        folded_sample_total(samples, spb, upto) == if upto * spb <= samples.len() {
            upto * spb
        } else {
            samples.len()
        },
    decreases upto,
{
    let n = samples.len() as int;
    let d = spb as int;
    if upto > 0 {
        let u = (upto - 1) as nat;
        lemma_folded_prefix(samples, spb, u);
        lemma_bucket_starts_inside(samples.len(), spb, u as int);
        lemma_mul_nonnegative(u as int, d);
        lemma_mul_inequality(u as int, u as int + 1, d);
        assert(upto * spb == u * spb + spb) by (nonlinear_arith)
            requires
                upto == u + 1,
        ;
        let start = u as int * d;
        let end = if (u as int + 1) * d <= n { (u as int + 1) * d } else { n };
        assert(bucket_slice(samples, spb, u as int) =~= samples.subrange(start, end));
        assert(samples_in_bucket(samples, spb, u as int) == end - start);
    } else {
        assert(upto * spb == 0) by (nonlinear_arith)
            requires
                upto == 0,
        ;
    }
}

/// The buckets reach to the end of the stream: their combined width
/// is at least the sample count.
proof fn lemma_buckets_cover(total: nat, spb: nat)
    requires
        spb > 0,
    ensures
        bucket_count(total, spb) * spb >= total,
{
    let n = total as int;
    let d = spb as int;
    lemma_fundamental_div_mod(n, d);
    let q = n / d;
    if n % d == 0 {
        assert(q * d == d * q) by (nonlinear_arith);
    } else {
        assert((q + 1) * d == d * q + d) by (nonlinear_arith);
    }
}

/// No sample is dropped: across all buckets, the counts of folded
/// samples add up to the full count of samples handed to the reducer.
pub proof fn lemma_no_samples_dropped(samples: Seq<u32>, spb: nat)
    requires
        spb > 0,
    ensures
        folded_sample_total(samples, spb, bucket_count(samples.len(), spb)) == samples.len(),
{
    lemma_folded_prefix(samples, spb, bucket_count(samples.len(), spb));
    lemma_buckets_cover(samples.len(), spb);
}

/// Buckets do not overlap and leave no sample behind: sample `i`
/// sits at offset `i % spb` of the bucket at index `i / spb`, and a
/// bucket `k` spans `i` precisely when `k` is that index.
pub proof fn lemma_sample_in_exactly_one_bucket(samples: Seq<u32>, spb: nat, i: int, k: int)
    requires
        spb > 0,
        0 <= i < samples.len(),
        0 <= k < bucket_count(samples.len(), spb),
    ensures
        (k * spb <= i < k * spb + spb) <==> k == i / (spb as int),
        0 <= i / (spb as int) < bucket_count(samples.len(), spb),
        bucket_slice(samples, spb, i / (spb as int))[i % (spb as int)] == samples[i],
{
    let n = samples.len() as int;
    let d = spb as int;
    let k0 = i / d;
    let r = i % d;
    lemma_fundamental_div_mod(i, d);
    lemma_mod_division_less_than_divisor(i, d);
    assert(d * k0 == k0 * d) by (nonlinear_arith);
    if k * d <= i && i < k * d + d {
        lemma_fundamental_div_mod_converse(i, d, k, i - k * d);
    }
    lemma_buckets_cover(samples.len(), spb);
    if k0 >= bucket_count(samples.len(), spb) {
        lemma_mul_inequality(bucket_count(samples.len(), spb) as int, k0, d);
        assert(false);
    }
    lemma_mul_nonnegative(k0, d);
    assert((k0 + 1) * d == k0 * d + d) by (nonlinear_arith);
    assert(bucket_slice(samples, spb, k0)[r] == samples[i]);
}

/// The reduction is a pure function of the sample stream and the two
/// parameters: identical inputs yield identical waveforms.
pub proof fn lemma_waveform_deterministic(
    s1: Seq<u32>,
    s2: Seq<u32>,
    spb1: nat,
    spb2: nat,
    c1: nat,
    c2: nat,
)
    requires
        s1 == s2,
        spb1 == spb2,
        c1 == c2,
    ensures
        waveform_of(s1, spb1, c1) == waveform_of(s2, spb2, c2),
{
}

/// A trailing run too short to fill a bucket is still emitted: the
/// waveform ends with one extra bucket holding exactly the leftover
/// samples.
pub proof fn lemma_trailing_partial_emitted(samples: Seq<u32>, spb: nat, ceiling: nat)
    requires
        spb > 0,
        samples.len() % spb != 0,
    ensures
        waveform_of(samples, spb, ceiling).len() == samples.len() / spb + 1,
        samples_in_bucket(samples, spb, (samples.len() / spb) as int) == samples.len() % spb,
        waveform_of(samples, spb, ceiling).last() == quantize(
            seq_peak(bucket_slice(samples, spb, (samples.len() / spb) as int)),
            ceiling,
        ) as u8,
{
    let n = samples.len() as int;
    let d = spb as int;
    let q = n / d;
    lemma_fundamental_div_mod(n, d);
    lemma_mul_nonnegative(q, d);
    assert(q * d == d * q && (q + 1) * d == d * q + d) by (nonlinear_arith);
}

/// A ceiling of zero flattens every bucket: the waveform is all-zero
/// bytes whatever the audio held.
pub proof fn lemma_zero_ceiling_all_zero(samples: Seq<u32>, spb: nat)
    requires
        spb > 0,
    ensures
        forall|k: int|
            0 <= k < waveform_of(samples, spb, 0).len() ==> waveform_of(samples, spb, 0)[k]
                == 0,
{
    let wf = waveform_of(samples, spb, 0);
    assert forall|k: int| 0 <= k < wf.len() implies #[trigger] wf[k] == 0 by {
        vstd::arithmetic::mul::lemma_mul_by_zero_is_zero(
            seq_peak(bucket_slice(samples, spb, k)) as int,
        );
    }
}

} // verus!
