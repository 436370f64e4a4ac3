use vstd::prelude::*;

verus! {

use vstd::arithmetic::div_mod::lemma_fundamental_div_mod_converse;
use vstd::arithmetic::mul::lemma_mul_inequality;
use vstd::arithmetic::mul::lemma_mul_nonnegative;

/// The boundaries of a full bucket `k` lie in order inside the run of
/// `filled` full buckets.
proof fn lemma_bucket_bounds(filled: int, spb: int, k: int)
    requires
        0 <= k < filled,
        spb >= 0,
    ensures
        0 <= k * spb,
        k * spb <= (k + 1) * spb,
        (k + 1) * spb <= filled * spb,
{
    lemma_mul_nonnegative(k, spb);
    lemma_mul_inequality(k, k + 1, spb);
    lemma_mul_inequality(k + 1, filled, spb);
}

/// One amplitude unit: sample magnitudes are carried as fixed-point
/// fractions of this scale, so a full-scale sample is exactly
/// `AMPLITUDE_SCALE` and a silent one is `0`.
pub const AMPLITUDE_SCALE: u32 = 65536;

/// A bucket's peak, scaled to the caller's ceiling and truncated:
/// `floor(peak * ceiling / 65536)`, saturated at the widest value an
/// output byte can hold. For a normalized peak (at most `65536`) the
/// result never exceeds `ceiling`; saturation matters only when an
/// upstream decoder hands out magnitudes above full scale.
pub open spec fn quantize(peak: nat, ceiling: nat) -> nat {
    let q = (peak * ceiling) / 65536;
    if q > 255 {
        255
    } else {
        q
    }
}

/// The largest value in a run of samples; zero for an empty run.
pub open spec fn seq_peak(s: Seq<u32>) -> nat
    decreases s.len(),
{
    if s.len() == 0 {
        0
    } else {
        let rest = seq_peak(s.drop_last());
        if s.last() as nat > rest {
            s.last() as nat
        } else {
            rest
        }
    }
}

/// How many buckets a stream of `total` samples fills at `spb`
/// samples per bucket: every full bucket, plus one more for a
/// trailing partial bucket, so that no sample goes unreported.
pub open spec fn bucket_count(total: nat, spb: nat) -> nat
    recommends
        spb > 0,
{
    if spb == 0 {
        0
    } else if total % spb == 0 {
        total / spb
    } else {
        total / spb + 1
    }
}

/// The contiguous run of samples that bucket `k` folds: buckets
/// partition the stream into runs of `spb` samples, the last of which
/// may stop short at the end of the stream.
pub open spec fn bucket_slice(samples: Seq<u32>, spb: nat, k: int) -> Seq<u32> {
    samples.subrange(
        k * spb,
        if (k + 1) * spb <= samples.len() {
            (k + 1) * spb
        } else {
            samples.len() as int
        },
    )
}

/// The number of samples bucket `k` folds.
pub open spec fn samples_in_bucket(samples: Seq<u32>, spb: nat, k: int) -> nat {
    bucket_slice(samples, spb, k).len()
}

/// The finished waveform: one quantized peak per bucket, in stream
/// order.
pub open spec fn waveform_of(samples: Seq<u32>, spb: nat, ceiling: nat) -> Seq<u8> {
    Seq::new(
        bucket_count(samples.len(), spb),
        |k: int| quantize(seq_peak(bucket_slice(samples, spb, k)), ceiling) as u8,
    )
}

/// Scale a bucket peak to the caller's ceiling: the executable form
/// of `quantize`.
fn quantize_peak(peak: u32, ceiling: u8) -> (r: u8)
    ensures
        r as nat == quantize(peak as nat, ceiling as nat),
{
    proof {
        assert((peak as int) * (ceiling as int) <= (u32::MAX as int) * 255) by (nonlinear_arith)
            requires
                peak <= u32::MAX,
                ceiling <= 255,
        ;
    }
    let q: u64 = (peak as u64) * (ceiling as u64) / 65536;
    if q > 255 {
        255u8
    } else {
        q as u8
    }
}

/// The streaming core: folds an interleaved sample stream, arriving
/// in arbitrarily sized runs, into quantized peak-amplitude buckets.
/// Samples are fixed-point magnitudes (`AMPLITUDE_SCALE` is full
/// scale); every `samples_per_bucket`-th sample closes the open
/// bucket and appends its quantized peak to the waveform.
pub struct WaveformReducer {
    samples_per_bucket: u64,
    max_amplitude: u8,
    bucket_peak: u32,
    bucket_fill: u64,
    out: Vec<u8>,
    consumed: Ghost<Seq<u32>>,
}

impl WaveformReducer {
    /// Every sample folded so far, in arrival order.
    pub closed spec fn consumed(self) -> Seq<u32> {
        self.consumed@
    }

    /// The bucket width this reducer was planned with.
    pub closed spec fn spb(self) -> nat {
        self.samples_per_bucket as nat
    }

    /// The caller's amplitude ceiling.
    pub closed spec fn ceiling(self) -> nat {
        self.max_amplitude as nat
    }

    /// The reducer's state always describes a prefix of the waveform:
    /// the emitted bytes are the quantized peaks of the full buckets
    /// consumed so far, and the open bucket's peak and fill track the
    /// samples after the last full bucket boundary.
    pub closed spec fn wf(self) -> bool {
        &&& self.samples_per_bucket >= 1
        &&& (self.bucket_fill as nat) < self.spb()
        &&& self.consumed@.len() == self.out@.len() * self.spb() + self.bucket_fill as nat
        &&& forall|k: int|
            0 <= k < self.out@.len() ==> self.out@[k] == quantize(
                seq_peak(self.consumed@.subrange(k * self.spb(), (k + 1) * self.spb())),
                self.ceiling(),
            ) as u8
        &&& self.bucket_peak as nat == seq_peak(
            self.consumed@.subrange(
                self.out@.len() * self.spb() as int,
                self.consumed@.len() as int,
            ),
        )
    }

    /// Begin a reduction with the planned bucket width and amplitude
    /// ceiling.
    pub fn new(samples_per_bucket: u64, max_amplitude: u8) -> (r: WaveformReducer)
        requires
            samples_per_bucket >= 1,
        ensures
            r.wf(),
            r.consumed() == Seq::<u32>::empty(),
            r.spb() == samples_per_bucket as nat,
            r.ceiling() == max_amplitude as nat,
    {
        let r = WaveformReducer {
            samples_per_bucket,
            max_amplitude,
            bucket_peak: 0,
            bucket_fill: 0,
            out: Vec::new(),
            consumed: Ghost(Seq::empty()),
        };
        proof {
            assert(r.consumed@.subrange(0, 0) =~= Seq::<u32>::empty());
        }
        r
    }

    /// Fold one sample into the open bucket, emitting the bucket's
    /// quantized peak when it fills.
    pub fn push(&mut self, sample: u32)
        requires
            old(self).wf(),
        ensures
            final(self).wf(),
            final(self).consumed() == old(self).consumed().push(sample),
            final(self).spb() == old(self).spb(),
            final(self).ceiling() == old(self).ceiling(),
    {
        let ghost prev = self.consumed@;
        let ghost spb = self.spb();
        let ghost filled = self.out@.len() as int;
        self.bucket_peak = if sample > self.bucket_peak {
            sample
        } else {
            self.bucket_peak
        };
        self.bucket_fill = self.bucket_fill + 1;
        self.consumed = Ghost(prev.push(sample));
        proof {
            let cur = self.consumed@;
            let tail = prev.subrange(filled * spb as int, prev.len() as int);
            let tail2 = cur.subrange(filled * spb as int, cur.len() as int);
            assert(tail2 =~= tail.push(sample));
            assert(tail2.drop_last() =~= tail);
            assert forall|k: int| 0 <= k < filled implies #[trigger] self.out@[k] == quantize(
                seq_peak(cur.subrange(k * spb as int, (k + 1) * spb as int)),
                self.ceiling(),
            ) as u8 by {
                lemma_bucket_bounds(filled, spb as int, k);
                lemma_mul_nonnegative(filled, spb as int);
                assert(cur.subrange(k * spb as int, (k + 1) * spb as int) =~= prev.subrange(
                    k * spb as int,
                    (k + 1) * spb as int,
                ));
            }
        }
        if self.bucket_fill == self.samples_per_bucket {
            let v = quantize_peak(self.bucket_peak, self.max_amplitude);
            let ghost pre = *self;
            self.out.push(v);
            self.bucket_peak = 0;
            self.bucket_fill = 0;
            proof {
                let cur = self.consumed@;
                assert(cur.len() == (filled + 1) * spb) by (nonlinear_arith)
                    requires
                        cur.len() == filled * spb + spb,
                ;
                assert(cur.subrange(filled * spb as int, cur.len() as int) =~= cur.subrange(
                    filled * spb as int,
                    (filled + 1) * spb as int,
                ));
                assert forall|k: int| 0 <= k < filled + 1 implies #[trigger] self.out@[k]
                    == quantize(
                    seq_peak(cur.subrange(k * spb as int, (k + 1) * spb as int)),
                    self.ceiling(),
                ) as u8 by {
                    if k < filled {
                        assert(self.out@[k] == pre.out@[k]);
                    } else {
                        assert(self.out@[k] == v);
                    }
                }
                assert(cur.subrange(self.out@.len() * spb as int, cur.len() as int)
                    =~= Seq::<u32>::empty());
            }
        }
    }

    /// Fold a whole run of samples, such as one decoded packet's
    /// interleaved output, in order.
    pub fn push_run(&mut self, samples: &[u32])
        requires
            old(self).wf(),
        ensures
            final(self).wf(),
            final(self).consumed() == old(self).consumed() + samples@,
            final(self).spb() == old(self).spb(),
            final(self).ceiling() == old(self).ceiling(),
    {
        let ghost start = self.consumed@;
        let n = samples.len();
        let mut i: usize = 0;
        while i < n
            invariant
                i <= n,
                n == samples@.len(),
                self.wf(),
                self.consumed@ == start + samples@.take(i as int),
                self.spb() == old(self).spb(),
                self.ceiling() == old(self).ceiling(),
            decreases n - i,
        {
            let s = samples[i];
            self.push(s);
            proof {
                assert((start + samples@.take(i as int)).push(samples@[i as int]) =~= start
                    + samples@.take(i as int + 1));
            }
            i = i + 1;
        }
        proof {
            assert(start + samples@.take(n as int) =~= start + samples@);
        }
    }

    /// Close the reduction: a trailing partial bucket, if any sample
    /// is waiting in it, is emitted with the same quantization rule,
    /// so the result is exactly the waveform of everything consumed.
    pub fn finish(self) -> (r: Vec<u8>)
        requires
            self.wf(),
        ensures
            r@ == waveform_of(self.consumed(), self.spb(), self.ceiling()),
    {
        let ghost spb = self.spb();
        let ghost n = self.consumed@.len();
        let ghost filled = self.out@.len() as int;
        let ghost pre = self.out@;
        let mut out = self.out;
        proof {
            lemma_fundamental_div_mod_converse(
                n as int,
                spb as int,
                filled,
                self.bucket_fill as int,
            );
            assert((filled + 1) * spb == filled * spb + spb) by (nonlinear_arith);
        }
        if self.bucket_fill > 0 {
            let v = quantize_peak(self.bucket_peak, self.max_amplitude);
            out.push(v);
        }
        proof {
            let goal = waveform_of(self.consumed@, spb, self.ceiling());
            assert(out@.len() == goal.len());
            assert forall|k: int| 0 <= k < out@.len() implies #[trigger] out@[k] == goal[k] by {
                if k < filled {
                    lemma_bucket_bounds(filled, spb as int, k);
                    lemma_mul_nonnegative(filled, spb as int);
                    assert(out@[k] == pre[k]);
                    assert(bucket_slice(self.consumed@, spb, k) =~= self.consumed@.subrange(
                        k * spb as int,
                        (k + 1) * spb as int,
                    ));
                } else {
                    lemma_mul_nonnegative(filled, spb as int);
                    assert(bucket_slice(self.consumed@, spb, k) =~= self.consumed@.subrange(
                        filled * spb as int,
                        n as int,
                    ));
                }
            }
            assert(out@ =~= goal);
        }
        out
    }
}

/// Reduce a fully decoded sample stream in one call.
pub fn render_waveform(samples: &[u32], samples_per_bucket: u64, max_amplitude: u8) -> (r: Vec<u8>)
    requires
        samples_per_bucket >= 1,
    ensures
        r@ == waveform_of(samples@, samples_per_bucket as nat, max_amplitude as nat),
{
    let mut reducer = WaveformReducer::new(samples_per_bucket, max_amplitude);
    reducer.push_run(samples);
    proof {
        assert(reducer.consumed() =~= samples@);
    }
    reducer.finish()
}

} // verus!
