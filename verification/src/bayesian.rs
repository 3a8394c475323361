//! The significance model around the negative-binomial scoring stage.
//!
//! The prior is fitted here exactly: the method-of-moments estimate from
//! the non-zero bin counts is a pair of rationals over the integers, and
//! [`GenomicPrior::from_bin_counts`] computes and clamps it without any
//! rounding.  Evaluating the negative-binomial densities themselves is
//! floating-point work and lives outside this crate; scored bins come back
//! as posteriors in parts per million, and [`BayesianModel`] decides,
//! exactly, which bins qualify for scoring and which scored bins are
//! significant.

use vstd::prelude::*;

use crate::bam::{GenomicRange, GenomicRangeView, PPM_SCALE};

verus! {

/// The hypothesis weighed for one bin: its read count, in the context of
/// the sample's total mapped reads.
#[derive(Clone, Debug, PartialEq, Eq, Hash)]
pub struct GenomicEvent {
    pub bin_count: usize,
    pub total_reads: usize,
}

/// The observed datum a likelihood is evaluated on: one bin's read count.
#[derive(Clone, Debug, PartialEq, Eq, Hash)]
pub struct ReadCountData {
    pub observed_count: usize,
}

/// Number of positive values in `cs`.
pub open spec fn nz_count(cs: Seq<int>) -> int
    decreases cs.len(),
{
    if cs.len() == 0 {
        0
    } else {
        nz_count(cs.drop_last()) + if cs.last() > 0 {
            1int
        } else {
            0int
        }
    }
}

/// Sum of the positive values in `cs`.
pub open spec fn nz_sum(cs: Seq<int>) -> int
    decreases cs.len(),
{
    if cs.len() == 0 {
        0
    } else {
        nz_sum(cs.drop_last()) + if cs.last() > 0 {
            cs.last()
        } else {
            0int
        }
    }
}

/// Sum of the squares of the positive values in `cs`.
pub open spec fn nz_sum_sq(cs: Seq<int>) -> int
    decreases cs.len(),
{
    if cs.len() == 0 {
        0
    } else {
        nz_sum_sq(cs.drop_last()) + if cs.last() > 0 {
            cs.last() * cs.last()
        } else {
            0int
        }
    }
}

/// Negative-binomial shape parameters, exact rationals:
/// `r = r_num / r_den` and `p = p_num / p_den`.
#[derive(Clone, Debug)]
pub struct GenomicPrior {
    pub r_num: u128,
    pub r_den: u128,
    pub p_num: u128,
    pub p_den: u128,
}

/// Mathematical image of a [`GenomicPrior`].
pub ghost struct GenomicPriorView {
    pub r_num: int,
    pub r_den: int,
    pub p_num: int,
    pub p_den: int,
}

impl View for GenomicPrior {
    type V = GenomicPriorView;

    open spec fn view(&self) -> GenomicPriorView {
        GenomicPriorView {
            r_num: self.r_num as int,
            r_den: self.r_den as int,
            p_num: self.p_num as int,
            p_den: self.p_den as int,
        }
    }
}

/// The conservative fallback for under-dispersed or degenerate data:
/// `r = 2`, `p = 3/10`.
pub open spec fn fallback_prior() -> GenomicPriorView {
    GenomicPriorView { r_num: 2, r_den: 1, p_num: 3, p_den: 10 }
}

/// The method-of-moments fit from the non-zero counts `cs`.
///
/// With `n` non-zero counts of sum `s` and sum of squares `q`, the sample
/// mean is `s / n` and the sample variance `(n*q - s*s) / (n*(n - 1))`;
/// the dispersion margin `vd = n*q - s*s - s*(n - 1)` is positive exactly
/// when the variance exceeds the mean.  Then `r = mean^2 / (variance -
/// mean) = s*s*(n - 1) / (n*vd)`, clamped to `[1/10, 100]`, and `p = mean
/// / variance = s*(n - 1) / (n*q - s*s)`, clamped to `[1/20, 19/20]`.
/// Fewer than two non-zero counts, or a variance at most the mean, falls
/// back to the fixed conservative prior.
pub open spec fn fitted_prior(cs: Seq<int>) -> GenomicPriorView {
    let n = nz_count(cs);
    let s = nz_sum(cs);
    let q = nz_sum_sq(cs);
    let vd = n * q - s * s - s * (n - 1);
    if n < 2 || vd <= 0 {
        fallback_prior()
    } else {
        let pn = s * (n - 1);
        let pd = n * q - s * s;
        let rn = s * s * (n - 1);
        let rd = n * vd;
        GenomicPriorView {
            r_num: if 10 * rn < rd {
                1
            } else if rn > 100 * rd {
                100
            } else {
                rn
            },
            r_den: if 10 * rn < rd {
                10
            } else if rn > 100 * rd {
                1
            } else {
                rd
            },
            p_num: if 20 * pn < pd {
                1
            } else if 20 * pn > 19 * pd {
                19
            } else {
                pn
            },
            p_den: if 20 * pn < pd {
                20
            } else if 20 * pn > 19 * pd {
                20
            } else {
                pd
            },
        }
    }
}

/// The counts carried by a (bin, count) list.
pub open spec fn counts_of(bin_counts: Seq<(GenomicRange, u64)>) -> Seq<int> {
    bin_counts.map_values(|pr: (GenomicRange, u64)| pr.1 as int)
}

impl GenomicPrior {
    /// Fit the prior from the observed bin counts, exactly.
    ///
    /// The bounds on the counts and on their number let every moment be
    /// computed without overflow in 128-bit integers; they are far above
    /// anything a per-chromosome binning produces.
    pub fn from_bin_counts(bin_counts: &Vec<(GenomicRange, u64)>) -> (r: GenomicPrior)
        requires
            bin_counts@.len() < 0x100_0000,
            forall|i: int|
                0 <= i < bin_counts@.len() ==> (#[trigger] bin_counts@[i]).1 < 0x100_0000u64,
        ensures
            r@ == fitted_prior(counts_of(bin_counts@)),
            r@.r_den > 0,
            r@.p_den > 0,
    {
        let ghost cs = counts_of(bin_counts@);
        let len = bin_counts.len();
        let mut n: u128 = 0;
        let mut s: u128 = 0;
        let mut q: u128 = 0;
        let mut i: usize = 0;
        while i < len
            invariant
                0 <= i <= len,
                len == bin_counts@.len(),
                len < 0x100_0000,
                cs == counts_of(bin_counts@),
                forall|k: int|
                    0 <= k < bin_counts@.len() ==> (#[trigger] bin_counts@[k]).1 < 0x100_0000u64,
                n as int == nz_count(cs.take(i as int)),
                s as int == nz_sum(cs.take(i as int)),
                q as int == nz_sum_sq(cs.take(i as int)),
                n <= i,
                s as int <= i as int * 0x100_0000,
                q as int <= i as int * 0x1_0000_0000_0000,
            decreases len - i,
        {
            proof {
                assert(cs.take(i as int + 1).drop_last() =~= cs.take(i as int));
                assert(cs.take(i as int + 1).last() == cs[i as int]);
                assert(cs[i as int] == bin_counts@[i as int].1 as int);
            }
            let c = bin_counts[i].1;
            if c > 0 {
                n = n + 1;
                proof {
                    assert(s as int + c as int <= (i as int + 1) * 0x100_0000) by (nonlinear_arith)
                        requires
                            s as int <= i as int * 0x100_0000,
                            (c as int) < 0x100_0000,
                            i as int >= 0,
                    ;
                    assert(q as int + (c as int) * (c as int) <= (i as int + 1)
                        * 0x1_0000_0000_0000) by (nonlinear_arith)
                        requires
                            q as int <= i as int * 0x1_0000_0000_0000,
                            0 <= c as int && (c as int) < 0x100_0000,
                            i as int >= 0,
                    ;
                }
                s = s + (c as u128);
                q = q + (c as u128) * (c as u128);
            }
            i = i + 1;
        }
        proof {
            assert(cs.take(len as int) =~= cs);
            // s < 2^48 and q < 2^72
            assert((s as int) < 0x1_0000_0000_0000 && (q as int) < 0x100_0000_0000_0000_0000)
                by (nonlinear_arith)
                requires
                    s as int <= len as int * 0x100_0000,
                    q as int <= len as int * 0x1_0000_0000_0000,
                    0 <= len as int && (len as int) < 0x100_0000,
            ;
        }
        if n < 2 {
            return GenomicPrior { r_num: 2, r_den: 1, p_num: 3, p_den: 10 };
        }
        proof {
            // n*q < 2^96, s*s < 2^96, s*(n-1) < 2^72
            assert(n as int * (q as int) < 0x1_0000_0000_0000_0000_0000_0000 && (s as int) * (
            s as int) < 0x1_0000_0000_0000_0000_0000_0000 && (s as int) * (n as int - 1)
                < 0x100_0000_0000_0000_0000) by (nonlinear_arith)
                requires
                    0 <= n as int && (n as int) < 0x100_0000,
                    0 <= s as int && (s as int) < 0x1_0000_0000_0000,
                    0 <= q as int && (q as int) < 0x100_0000_0000_0000_0000,
            ;
        }
        let nq = n * q;
        let s2 = s * s;
        let sn1 = s * (n - 1);
        if nq <= s2 + sn1 {
            return GenomicPrior { r_num: 2, r_den: 1, p_num: 3, p_den: 10 };
        }
        let vd = nq - s2 - sn1;
        let pn = sn1;
        let pd = nq - s2;
        proof {
            // s2*(n-1) < 2^120 and n*vd < 2^120
            assert((s2 as int) * (n as int - 1) < 0x100_0000_0000_0000_0000_0000_0000_0000 && (
            n as int) * (vd as int) < 0x100_0000_0000_0000_0000_0000_0000_0000)
                by (nonlinear_arith)
                requires
                    0 <= s2 as int && (s2 as int) < 0x1_0000_0000_0000_0000_0000_0000,
                    0 <= n as int && (n as int) < 0x100_0000,
                    0 <= vd as int && (vd as int) < 0x1_0000_0000_0000_0000_0000_0000,
            ;
        }
        let rn = s2 * (n - 1);
        let rd = n * vd;
        proof {
            assert((n as int) * (vd as int) > 0) by (nonlinear_arith)
                requires
                    n as int >= 2,
                    vd as int >= 1,
            ;
        }
        let r_num: u128;
        let r_den: u128;
        if 10 * rn < rd {
            r_num = 1;
            r_den = 10;
        } else if rn > 100 * rd {
            r_num = 100;
            r_den = 1;
        } else {
            r_num = rn;
            r_den = rd;
        }
        let p_num: u128;
        let p_den: u128;
        if 20 * pn < pd {
            p_num = 1;
            p_den = 20;
        } else if 20 * pn > 19 * pd {
            p_num = 19;
            p_den = 20;
        } else {
            p_num = pn;
            p_den = pd;
        }
        GenomicPrior { r_num, r_den, p_num, p_den }
    }
}

/// The (bin, count) pairs as mathematical values.
pub open spec fn pair_views(bin_counts: Seq<(GenomicRange, u64)>) -> Seq<(GenomicRangeView, int)> {
    bin_counts.map_values(|pr: (GenomicRange, u64)| (pr.0@, pr.1 as int))
}

/// The bins that qualify for scoring: raw count at least `min_reads`.
/// Bins below the floor are excluded from scoring entirely.
pub open spec fn qualifying(bin_counts: Seq<(GenomicRangeView, int)>, min_reads: int) -> Seq<
    (GenomicRangeView, int),
> {
    bin_counts.filter(|pr: (GenomicRangeView, int)| pr.1 >= min_reads)
}

/// `b` annotated with a posterior score.
pub open spec fn annotate(b: GenomicRangeView, ppm: int) -> GenomicRangeView {
    GenomicRangeView { chrom: b.chrom, start: b.start, end: b.end, posterior_ppm: ppm }
}

/// The significant bins among the qualifying ones: those whose posterior
/// reaches the threshold, in order, each annotated with its posterior.
pub open spec fn significant(quals: Seq<GenomicRangeView>, posts: Seq<int>, threshold: int) -> Seq<
    GenomicRangeView,
>
    decreases quals.len(),
{
    if quals.len() == 0 {
        Seq::empty()
    } else {
        let rest = significant(quals.drop_last(), posts.drop_last(), threshold);
        if posts.last() >= threshold {
            rest.push(annotate(quals.last(), posts.last()))
        } else {
            rest
        }
    }
}

/// The significance decision stage: a posterior threshold (in parts per
/// million) and the minimum raw read count a bin needs to be scored at
/// all.
pub struct BayesianModel {
    significance_ppm: u32,
    min_reads: u32,
}

impl BayesianModel {
    pub closed spec fn threshold_ppm(&self) -> int {
        self.significance_ppm as int
    }

    pub closed spec fn min_reads_spec(&self) -> int {
        self.min_reads as int
    }

    /// The threshold is a probability: at most one, in parts per million.
    pub closed spec fn wf(&self) -> bool {
        self.significance_ppm <= PPM_SCALE
    }

    pub fn new(significance_ppm: u32, min_reads: u32) -> (r: BayesianModel)
        requires
            significance_ppm <= PPM_SCALE,
        ensures
            r.wf(),
            r.threshold_ppm() == significance_ppm as int,
            r.min_reads_spec() == min_reads as int,
    {
        BayesianModel { significance_ppm, min_reads }
    }

    pub fn significance_threshold(&self) -> (r: u32)
        ensures
            r as int == self.threshold_ppm(),
    {
        self.significance_ppm
    }

    pub fn min_reads(&self) -> (r: u32)
        ensures
            r as int == self.min_reads_spec(),
    {
        self.min_reads
    }

    /// The bins whose raw count reaches the scoring floor, in input order
    /// with their counts.  These are exactly the bins the scoring stage
    /// evaluates, one posterior each.
    pub fn qualifying_bins(&self, bin_counts: &Vec<(GenomicRange, u64)>) -> (r: Vec<
        (GenomicRange, u64),
    >)
        ensures
            pair_views(r@) == qualifying(pair_views(bin_counts@), self.min_reads_spec()),
    {
        let mut out: Vec<(GenomicRange, u64)> = Vec::new();
        let n = bin_counts.len();
        let mut i: usize = 0;
        proof {
            assert(pair_views(bin_counts@).take(0) =~= Seq::<(GenomicRangeView, int)>::empty());
            reveal(Seq::filter);
        }
        while i < n
            invariant
                0 <= i <= n,
                n == bin_counts@.len(),
                pair_views(out@) == qualifying(
                    pair_views(bin_counts@).take(i as int),
                    self.min_reads_spec(),
                ),
            decreases n - i,
        {
            let ghost pviews = pair_views(bin_counts@);
            proof {
                assert(pviews.take(i as int + 1).drop_last() =~= pviews.take(i as int));
                assert(pviews.take(i as int + 1).last() == pviews[i as int]);
                reveal(Seq::filter);
            }
            let ghost old_out = out@;
            let c = bin_counts[i].1;
            if c >= self.min_reads as u64 {
                out.push((bin_counts[i].0.duplicate(), c));
            }
            proof {
                assert(pair_views(out@) =~= qualifying(
                    pviews.take(i as int + 1),
                    self.min_reads_spec(),
                ));
            }
            i = i + 1;
        }
        proof {
            assert(pair_views(bin_counts@).take(n as int) =~= pair_views(bin_counts@));
        }
        out
    }

    /// Apply the posterior threshold: the `i`-th entry of `posterior_ppm`
    /// scores the `i`-th qualifying bin, and every qualifying bin whose
    /// posterior reaches the threshold is returned, in order, annotated
    /// with its posterior.  Bins below the read floor are never returned.
    pub fn identify_significant_bins(
        &self,
        bin_counts: &Vec<(GenomicRange, u64)>,
        posterior_ppm: &Vec<u32>,
    ) -> (r: Vec<GenomicRange>)
        requires
            posterior_ppm@.len() == qualifying(
                pair_views(bin_counts@),
                self.min_reads_spec(),
            ).len(),
            forall|i: int| 0 <= i < posterior_ppm@.len() ==> posterior_ppm@[i] <= PPM_SCALE,
        ensures
            r@.map_values(|b: GenomicRange| b@) == significant(
                qualifying(pair_views(bin_counts@), self.min_reads_spec()).map_values(
                    |pr: (GenomicRangeView, int)| pr.0,
                ),
                posterior_ppm@.map_values(|x: u32| x as int),
                self.threshold_ppm(),
            ),
    {
        let quals = self.qualifying_bins(bin_counts);
        let ghost qviews = qualifying(pair_views(bin_counts@), self.min_reads_spec()).map_values(
            |pr: (GenomicRangeView, int)| pr.0,
        );
        let ghost posts = posterior_ppm@.map_values(|x: u32| x as int);
        let n = quals.len();
        proof {
            assert(qviews.len() == n) by {
                assert(pair_views(quals@).len() == quals@.len());
            }
        }
        let mut out: Vec<GenomicRange> = Vec::new();
        let mut i: usize = 0;
        proof {
            assert(qviews.take(0) =~= Seq::<GenomicRangeView>::empty());
            assert(posts.take(0) =~= Seq::<int>::empty());
        }
        while i < n
            invariant
                0 <= i <= n,
                n == quals@.len(),
                n == qviews.len(),
                n == posts.len(),
                n == posterior_ppm@.len(),
                qviews == qualifying(pair_views(bin_counts@), self.min_reads_spec()).map_values(
                    |pr: (GenomicRangeView, int)| pr.0,
                ),
                posts == posterior_ppm@.map_values(|x: u32| x as int),
                pair_views(quals@) == qualifying(pair_views(bin_counts@), self.min_reads_spec()),
                out@.map_values(|b: GenomicRange| b@) == significant(
                    qviews.take(i as int),
                    posts.take(i as int),
                    self.threshold_ppm(),
                ),
            decreases n - i,
        {
            proof {
                assert(qviews.take(i as int + 1).drop_last() =~= qviews.take(i as int));
                assert(posts.take(i as int + 1).drop_last() =~= posts.take(i as int));
                assert(qviews.take(i as int + 1).last() == qviews[i as int]);
                assert(posts.take(i as int + 1).last() == posts[i as int]);
                assert(qviews[i as int] == pair_views(quals@)[i as int].0);
            }
            let ghost old_out = out@;
            let ppm = posterior_ppm[i];
            if ppm >= self.significance_ppm {
                let mut annotated = quals[i].0.duplicate();
                annotated.posterior_ppm = ppm;
                out.push(annotated);
            }
            proof {
                assert(out@.map_values(|b: GenomicRange| b@) =~= significant(
                    qviews.take(i as int + 1),
                    posts.take(i as int + 1),
                    self.threshold_ppm(),
                ));
            }
            i = i + 1;
        }
        proof {
            assert(qviews.take(n as int) =~= qviews);
            assert(posts.take(n as int) =~= posts);
        }
        out
    }
}

} // verus!
