//! Read counting over genomic bins.
//!
//! [`BamProcessor`] holds the alignment records of a treatment sample and,
//! optionally, of a background control sample, as plain values: chromosome
//! name, leftmost position and mapped/unmapped status.  It counts mapped
//! reads per bin with the arithmetic bin-assignment scheme (one division
//! per record instead of a per-bin range search) and applies control
//! normalization when a control sample is configured.

use vstd::prelude::*;

use crate::text::str_eq;

verus! {

/// Scale for posterior probabilities: a score is stored in parts per
/// million, so `PPM_SCALE` stands for probability one.
pub const PPM_SCALE: u32 = 1_000_000;

/// A genomic half-open interval `[start, end)` with an attached score.
///
/// The score is a posterior probability in parts per million; it is zero
/// until the scoring stage annotates the interval.
#[derive(Clone, Debug)]
pub struct GenomicRange {
    pub chrom: String,
    pub start: u32,
    pub end: u32,
    pub posterior_ppm: u32,
}

/// Mathematical image of a [`GenomicRange`].
pub ghost struct GenomicRangeView {
    pub chrom: Seq<char>,
    pub start: int,
    pub end: int,
    pub posterior_ppm: int,
}

impl View for GenomicRange {
    type V = GenomicRangeView;

    open spec fn view(&self) -> GenomicRangeView {
        GenomicRangeView {
            chrom: self.chrom@,
            start: self.start as int,
            end: self.end as int,
            posterior_ppm: self.posterior_ppm as int,
        }
    }
}

impl GenomicRangeView {
    /// A well-formed interval is non-empty.
    pub open spec fn wf(self) -> bool {
        self.start < self.end
    }

    pub open spec fn width(self) -> int {
        self.end - self.start
    }
}

impl GenomicRange {
    /// An explicit, verified copy of the interval.
    pub fn duplicate(&self) -> (r: GenomicRange)
        ensures
            r@ == self@,
    {
        GenomicRange {
            chrom: self.chrom.clone(),
            start: self.start,
            end: self.end,
            posterior_ppm: self.posterior_ppm,
        }
    }
}

/// One alignment record, reduced to what counting reads: the name of the
/// reference sequence it aligned to, its leftmost aligned position, and
/// whether it is flagged unmapped.
#[derive(Clone, Debug)]
pub struct BamRecord {
    pub chrom: String,
    pub pos: u32,
    pub unmapped: bool,
}

/// Mathematical image of a [`BamRecord`].
pub ghost struct BamRecordView {
    pub chrom: Seq<char>,
    pub pos: int,
    pub unmapped: bool,
}

impl View for BamRecord {
    type V = BamRecordView;

    open spec fn view(&self) -> BamRecordView {
        BamRecordView { chrom: self.chrom@, pos: self.pos as int, unmapped: self.unmapped }
    }
}

/// A mapped record lies in a bin when its chromosome matches and its
/// position falls inside the half-open interval.
pub open spec fn record_in_bin(r: BamRecordView, b: GenomicRangeView) -> bool {
    !r.unmapped && r.chrom == b.chrom && b.start <= r.pos < b.end
}

/// Number of records not flagged unmapped.
pub open spec fn mapped_count(recs: Seq<BamRecordView>) -> int
    decreases recs.len(),
{
    if recs.len() == 0 {
        0
    } else {
        mapped_count(recs.drop_last()) + if !recs.last().unmapped {
            1int
        } else {
            0int
        }
    }
}

/// Number of mapped records of `recs` lying in bin `b`.
pub open spec fn count_in_bin(recs: Seq<BamRecordView>, b: GenomicRangeView) -> int
    decreases recs.len(),
{
    if recs.len() == 0 {
        0
    } else {
        count_in_bin(recs.drop_last(), b) + if record_in_bin(recs.last(), b) {
            1int
        } else {
            0int
        }
    }
}

pub proof fn lemma_mapped_count_bounds(recs: Seq<BamRecordView>)
    ensures
        0 <= mapped_count(recs) <= recs.len(),
    decreases recs.len(),
{
    if recs.len() > 0 {
        lemma_mapped_count_bounds(recs.drop_last());
    }
}

pub proof fn lemma_count_in_bin_bounds(recs: Seq<BamRecordView>, b: GenomicRangeView)
    ensures
        0 <= count_in_bin(recs, b) <= recs.len(),
    decreases recs.len(),
{
    if recs.len() > 0 {
        lemma_count_in_bin_bounds(recs.drop_last(), b);
    }
}

/// Integer division rounding halves up: `round(a / b)` for `a >= 0, b >= 1`.
pub open spec fn rounded_div(a: int, b: int) -> int {
    (2 * a + b) / (2 * b)
}

/// The control-normalized count `max(0, round(t - c * tt / ct))`, written
/// exactly over the integers: `tt / ct` is the scale factor, the ratio of
/// the samples' total mapped reads.  A control without mapped reads
/// normalizes everything to zero.
pub open spec fn normalized_count(t: int, c: int, tt: int, ct: int) -> int {
    if ct == 0 {
        0
    } else {
        let num = t * ct - c * tt;
        if num <= 0 {
            0
        } else {
            rounded_div(num, ct)
        }
    }
}

/// The count owed for bin `b`: the treatment's mapped reads in `b`,
/// control-normalized when a control sample is configured.
pub open spec fn expected_count(
    b: GenomicRangeView,
    treatment: Seq<BamRecordView>,
    control: Option<Seq<BamRecordView>>,
) -> int {
    match control {
        None => count_in_bin(treatment, b),
        Some(ctrl) => normalized_count(
            count_in_bin(treatment, b),
            count_in_bin(ctrl, b),
            mapped_count(treatment),
            mapped_count(ctrl),
        ),
    }
}

/// Bins as the catalog produces them: non-empty, and, for bins of the same
/// chromosome, equal-width and contiguous in ascending order.  This is what
/// lets a record's bin be found by one division.
pub open spec fn uniform_bins(bins: Seq<GenomicRangeView>) -> bool {
    &&& (forall|i: int| 0 <= i < bins.len() ==> (#[trigger] bins[i]).wf())
    &&& (forall|i: int, j: int|
        0 <= i < j < bins.len() && (#[trigger] bins[i]).chrom == (#[trigger] bins[j]).chrom
            ==> bins[j].width() == bins[i].width() && bins[j].start == bins[i].start + (j - i)
            * bins[i].width())
}

/// Position `pos >= min` lies in the `k`-th width-`w` bin from `min`
/// exactly when the quotient `(pos - min) / w` is `k`.
proof fn lemma_quotient_picks_bin(pos: int, min: int, w: int, k: int)
    requires
        w >= 1,
        pos >= min,
        k >= 0,
    ensures
        (min + k * w <= pos < min + k * w + w) <==> ((pos - min) / w == k),
{
    let x = pos - min;
    if x / w == k {
        vstd::arithmetic::div_mod::lemma_fundamental_div_mod(x, w);
        vstd::arithmetic::div_mod::lemma_mod_bound(x, w);
        assert(w * k == k * w) by (nonlinear_arith);
    }
    if min + k * w <= pos < min + k * w + w {
        vstd::arithmetic::div_mod::lemma_fundamental_div_mod_converse(x, w, k, x - k * w);
    }
}

/// Count the mapped records of `records`.
fn count_mapped(records: &Vec<BamRecord>) -> (r: u64)
    ensures
        r as int == mapped_count(records@.map_values(|x: BamRecord| x@)),
{
    let ghost views = records@.map_values(|x: BamRecord| x@);
    let n = records.len();
    let mut count: u64 = 0;
    let mut m: usize = 0;
    while m < n
        invariant
            0 <= m <= n,
            n == records@.len(),
            views == records@.map_values(|x: BamRecord| x@),
            count as int == mapped_count(views.take(m as int)),
            count <= m,
        decreases n - m,
    {
        proof {
            assert(views.take(m as int + 1).drop_last() =~= views.take(m as int));
            assert(views.take(m as int + 1).last() == views[m as int]);
            lemma_mapped_count_bounds(views.take(m as int));
        }
        if !records[m].unmapped {
            count = count + 1;
        }
        m = m + 1;
    }
    proof {
        assert(views.take(n as int) =~= views);
    }
    count
}

/// Count the mapped records of `records` lying in `bin`, by membership
/// test.  This is how the control sample is counted: its bins need not
/// line up with any index-friendly layout.
fn count_in_bin_exec(records: &Vec<BamRecord>, bin: &GenomicRange) -> (r: u64)
    ensures
        r as int == count_in_bin(records@.map_values(|x: BamRecord| x@), bin@),
{
    let ghost views = records@.map_values(|x: BamRecord| x@);
    let n = records.len();
    let mut count: u64 = 0;
    let mut m: usize = 0;
    while m < n
        invariant
            0 <= m <= n,
            n == records@.len(),
            views == records@.map_values(|x: BamRecord| x@),
            count as int == count_in_bin(views.take(m as int), bin@),
            count <= m,
        decreases n - m,
    {
        proof {
            assert(views.take(m as int + 1).drop_last() =~= views.take(m as int));
            assert(views.take(m as int + 1).last() == views[m as int]);
            lemma_count_in_bin_bounds(views.take(m as int), bin@);
        }
        let rec = &records[m];
        if !rec.unmapped && rec.pos >= bin.start && rec.pos < bin.end && str_eq(
            rec.chrom.as_str(),
            bin.chrom.as_str(),
        ) {
            count = count + 1;
        }
        m = m + 1;
    }
    proof {
        assert(views.take(n as int) =~= views);
    }
    count
}

/// `rounded_div` agrees with quotient-plus-half-test arithmetic.
proof fn lemma_rounded_div(a: int, b: int)
    requires
        a >= 0,
        b >= 1,
    ensures
        rounded_div(a, b) == a / b + if 2 * (a % b) >= b {
            1int
        } else {
            0int
        },
        rounded_div(a, b) >= 0,
{
    let q = a / b;
    let r = a % b;
    vstd::arithmetic::div_mod::lemma_fundamental_div_mod(a, b);
    vstd::arithmetic::div_mod::lemma_mod_bound(a, b);
    vstd::arithmetic::div_mod::lemma_div_pos_is_pos(a, b);
    if 2 * r < b {
        assert(2 * a + b == q * (2 * b) + (2 * r + b)) by (nonlinear_arith)
            requires
                a == b * q + r,
        ;
        vstd::arithmetic::div_mod::lemma_fundamental_div_mod_converse(
            2 * a + b,
            2 * b,
            q,
            2 * r + b,
        );
    } else {
        assert(2 * a + b == (q + 1) * (2 * b) + (2 * r - b)) by (nonlinear_arith)
            requires
                a == b * q + r,
        ;
        vstd::arithmetic::div_mod::lemma_fundamental_div_mod_converse(
            2 * a + b,
            2 * b,
            q + 1,
            2 * r - b,
        );
    }
}

/// A count is never negative: the raw count of a bin is a count of
/// records, and control normalization clamps at zero.
pub proof fn lemma_counts_nonnegative(
    b: GenomicRangeView,
    treatment: Seq<BamRecordView>,
    control: Option<Seq<BamRecordView>>,
)
    ensures
        count_in_bin(treatment, b) >= 0,
        expected_count(b, treatment, control) >= 0,
{
    lemma_count_in_bin_bounds(treatment, b);
    match control {
        None => {},
        Some(ctrl) => {
            lemma_count_in_bin_bounds(ctrl, b);
            lemma_mapped_count_bounds(treatment);
            lemma_mapped_count_bounds(ctrl);
            let t = count_in_bin(treatment, b);
            let c = count_in_bin(ctrl, b);
            let tt = mapped_count(treatment);
            let ct = mapped_count(ctrl);
            if ct != 0 {
                let num = t * ct - c * tt;
                if num > 0 {
                    lemma_rounded_div(num, ct);
                }
            }
        },
    }
}

/// The control-normalized count of one bin: the treatment count `t` less
/// the control count `c` scaled by `treatment_total / control_total`,
/// rounded, and clamped at zero.  Never negative.
pub fn normalize_count(t: u64, c: u64, treatment_total: u64, control_total: u64) -> (r: u64)
    ensures
        r as int == normalized_count(
            t as int,
            c as int,
            treatment_total as int,
            control_total as int,
        ),
        r <= t,
{
    if control_total == 0 {
        return 0;
    }
    proof {
        assert((t as int) * (control_total as int) <= (u64::MAX as int) * (u64::MAX as int)
            && (c as int) * (treatment_total as int) <= (u64::MAX as int) * (u64::MAX as int))
            by (nonlinear_arith)
            requires
                t as int <= u64::MAX as int,
                c as int <= u64::MAX as int,
                treatment_total as int <= u64::MAX as int,
                control_total as int <= u64::MAX as int,
                t as int >= 0,
                c as int >= 0,
                treatment_total as int >= 0,
                control_total as int >= 0,
        ;
    }
    let num_t = (t as u128) * (control_total as u128);
    let num_c = (c as u128) * (treatment_total as u128);
    if num_t <= num_c {
        return 0;
    }
    let diff = num_t - num_c;
    let ct = control_total as u128;
    let q = diff / ct;
    let rem = diff % ct;
    proof {
        lemma_rounded_div(diff as int, ct as int);
        vstd::arithmetic::div_mod::lemma_fundamental_div_mod(diff as int, ct as int);
        vstd::arithmetic::div_mod::lemma_mod_bound(diff as int, ct as int);
        assert(q as int <= t as int) by (nonlinear_arith)
            requires
                diff as int == ct as int * (q as int) + (rem as int),
                rem as int >= 0,
                diff as int <= (t as int) * (ct as int),
                ct as int >= 1,
                q as int >= 0,
        ;
        if q as int == t as int {
            assert(rem as int == 0) by (nonlinear_arith)
                requires
                    diff as int == ct as int * (q as int) + (rem as int),
                    diff as int <= (t as int) * (ct as int),
                    q as int == t as int,
                    rem as int >= 0,
            ;
        }
    }
    let out = if 2 * rem >= ct {
        q + 1
    } else {
        q
    };
    out as u64
}

/// Alignment records of a treatment sample and an optional background
/// control, with their total mapped-read counts computed once at
/// construction.
pub struct BamProcessor {
    records: Vec<BamRecord>,
    control_records: Option<Vec<BamRecord>>,
    total_reads: u64,
    control_reads: Option<u64>,
}

impl BamProcessor {
    /// The treatment sample's records.
    pub closed spec fn treatment(&self) -> Seq<BamRecordView> {
        self.records@.map_values(|x: BamRecord| x@)
    }

    /// The control sample's records, when one is configured.
    pub closed spec fn control(&self) -> Option<Seq<BamRecordView>> {
        match self.control_records {
            Some(v) => Some(v@.map_values(|x: BamRecord| x@)),
            None => None,
        }
    }

    /// The cached totals agree with the held records.
    pub closed spec fn wf(&self) -> bool {
        &&& self.total_reads as int == mapped_count(self.treatment())
        &&& (self.control_records is Some <==> self.control_reads is Some)
        &&& (self.control() matches Some(ctrl) ==> self.control_reads matches Some(cr) && cr as int
            == mapped_count(ctrl))
    }

    /// Take over the samples' records and count each sample's total mapped
    /// reads by one full scan.
    pub fn new(records: Vec<BamRecord>, control_records: Option<Vec<BamRecord>>) -> (r:
        BamProcessor)
        ensures
            r.wf(),
            r.treatment() == records@.map_values(|x: BamRecord| x@),
            match control_records {
                Some(c) => r.control() == Some(c@.map_values(|x: BamRecord| x@)),
                None => r.control() is None,
            },
    {
        let total_reads = count_mapped(&records);
        let control_reads = match &control_records {
            Some(c) => Some(count_mapped(c)),
            None => None,
        };
        BamProcessor { records, control_records, total_reads, control_reads }
    }

    /// The treatment sample's total: the number of its records not flagged
    /// unmapped, independent of any binning scheme.
    pub fn total_reads(&self) -> (r: u64)
        requires
            self.wf(),
        ensures
            r as int == mapped_count(self.treatment()),
    {
        self.total_reads
    }

    /// Count mapped treatment reads per bin; when a control sample is
    /// configured, normalize each count against it.  Result order matches
    /// input bin order, and every count is exact per [`expected_count`].
    ///
    /// Within one chromosome's run of bins the bin of a record is found
    /// arithmetically: `(pos - run_start) / bin_width`.
    pub fn count_reads_in_bins(&self, bins: &Vec<GenomicRange>) -> (r: Vec<(GenomicRange, u64)>)
        requires
            self.wf(),
            uniform_bins(bins@.map_values(|b: GenomicRange| b@)),
        ensures
            r@.len() == bins@.len(),
            forall|p: int|
                0 <= p < bins@.len() ==> (#[trigger] r@[p]).0@ == bins@[p]@ && r@[p].1 as int
                    == expected_count(bins@[p]@, self.treatment(), self.control()),
    {
        let ghost bviews = bins@.map_values(|b: GenomicRange| b@);
        let ghost trt = self.treatment();
        let n = bins.len();
        let mut counts: Vec<u64> = Vec::new();
        while counts.len() < n
            invariant
                counts@.len() <= n,
                forall|p: int| 0 <= p < counts@.len() ==> counts@[p] == 0u64,
            decreases n - counts@.len(),
        {
            counts.push(0);
        }

        let mut i: usize = 0;
        while i < n
            invariant
                0 <= i <= n,
                self.wf(),
                n == bins@.len(),
                counts@.len() == n,
                bviews == bins@.map_values(|b: GenomicRange| b@),
                trt == self.treatment(),
                uniform_bins(bviews),
                forall|p: int| 0 <= p < i ==> #[trigger] counts@[p] as int == count_in_bin(
                    trt,
                    bviews[p],
                ),
                forall|p: int| i <= p < n ==> counts@[p] == 0u64,
            decreases n - i,
        {
            let j = run_end(bins, i);
            proof {
                assert(bviews[i as int].wf());
                assert(bins@[i as int]@ == bviews[i as int]);
            }
            let min_start = bins[i].start;
            let width = bins[i].end - bins[i].start;
            let num = j - i;
            let nrec = self.records.len();
            let mut m: usize = 0;
            while m < nrec
                invariant
                    0 <= m <= nrec,
                    0 <= i < j <= n,
                    num == j - i,
                    self.wf(),
                    n == bins@.len(),
                    counts@.len() == n,
                    nrec == self.records@.len(),
                    bviews == bins@.map_values(|b: GenomicRange| b@),
                    trt == self.treatment(),
                    uniform_bins(bviews),
                    min_start as int == bviews[i as int].start,
                    width as int == bviews[i as int].width(),
                    forall|k: int|
                        i <= k < j ==> (#[trigger] bviews[k]).chrom == bviews[i as int].chrom,
                    forall|k: int|
                        0 <= k < num ==> #[trigger] counts@[i + k] as int == count_in_bin(
                            trt.take(m as int),
                            bviews[i + k],
                        ),
                    forall|p: int| 0 <= p < i ==> #[trigger] counts@[p] as int == count_in_bin(
                        trt,
                        bviews[p],
                    ),
                    forall|p: int| j <= p < n ==> counts@[p] == 0u64,
                decreases nrec - m,
            {
                let rec = &self.records[m];
                let ghost rv = trt[m as int];
                proof {
                    assert(rv == self.records@[m as int]@);
                }
                let mapped = !rec.unmapped;
                let same_chrom = str_eq(rec.chrom.as_str(), bins[i].chrom.as_str());
                let ghost prev_counts = counts@;
                let mut hit: bool = false;
                let mut hidx: usize = 0;
                if mapped && same_chrom && rec.pos >= min_start {
                    let idx = (rec.pos - min_start) / width;
                    if (idx as usize) < num {
                        hit = true;
                        hidx = idx as usize;
                        proof {
                            lemma_count_in_bin_bounds(trt.take(m as int), bviews[i + hidx]);
                        }
                        let cur = counts[i + hidx];
                        counts[i + hidx] = cur + 1;
                    }
                }
                proof {
                    assert(trt.take(m as int + 1).drop_last() =~= trt.take(m as int));
                    assert(trt.take(m as int + 1).last() == rv);
                    let q = if rv.pos >= min_start as int {
                        (rv.pos - min_start as int) / width as int
                    } else {
                        -1
                    };
                    assert forall|k: int|
                        0 <= k < num implies #[trigger] counts@[i + k] as int == count_in_bin(
                        trt.take(m as int + 1),
                        bviews[i + k],
                    ) by {
                        let b = bviews[i + k];
                        assert(count_in_bin(trt.take(m as int + 1), b) == count_in_bin(
                            trt.take(m as int),
                            b,
                        ) + if record_in_bin(rv, b) {
                            1int
                        } else {
                            0int
                        });
                        assert(b.chrom == bviews[i as int].chrom);
                        if k > 0 {
                            assert(b.width() == width as int && b.start == min_start as int + k
                                * (width as int));
                        } else {
                            assert(b.start == min_start as int + k * (width as int))
                                by (nonlinear_arith)
                                requires
                                    k == 0,
                                    b.start == min_start as int,
                            ;
                        }
                        assert(b.end == b.start + width as int);
                        if mapped && same_chrom && rv.pos >= min_start as int {
                            lemma_quotient_picks_bin(
                                rv.pos,
                                min_start as int,
                                width as int,
                                k,
                            );
                            assert(record_in_bin(rv, b) <==> q == k);
                            if hit {
                                assert(q == hidx as int);
                            } else {
                                assert(q >= num);
                            }
                        } else {
                            assert(!record_in_bin(rv, b)) by {
                                if mapped && same_chrom {
                                    assert(rv.pos < min_start as int);
                                    assert(k * (width as int) >= 0) by (nonlinear_arith)
                                        requires
                                            k >= 0,
                                            width as int >= 1,
                                    ;
                                }
                            }
                        }
                        if hit && k == hidx as int {
                            assert(counts@[i + k] == prev_counts[i + k] + 1);
                        } else {
                            assert(counts@[i + k] == prev_counts[i + k]);
                        }
                    }
                }
                m = m + 1;
            }
            proof {
                assert(trt.take(nrec as int) =~= trt);
                assert forall|p: int| 0 <= p < j implies #[trigger] counts@[p] as int
                    == count_in_bin(trt, bviews[p]) by {
                    if p >= i {
                        assert(counts@[i + (p - i)] as int == count_in_bin(
                            trt.take(nrec as int),
                            bviews[i + (p - i)],
                        ));
                    }
                }
            }
            i = j;
        }

        let treatment_total = self.total_reads;
        match &self.control_records {
            Some(ctrl) => {
                let ghost cviews = ctrl@.map_values(|x: BamRecord| x@);
                let control_total = match &self.control_reads {
                    Some(x) => *x,
                    None => 0,
                };
                proof {
                    assert(self.control_reads is Some);
                    assert(control_total as int == mapped_count(cviews));
                }
                let mut p: usize = 0;
                while p < n
                    invariant
                        0 <= p <= n,
                        self.wf(),
                        n == bins@.len(),
                        counts@.len() == n,
                        bviews == bins@.map_values(|b: GenomicRange| b@),
                        trt == self.treatment(),
                        self.control() == Some(cviews),
                        cviews == ctrl@.map_values(|x: BamRecord| x@),
                        treatment_total as int == mapped_count(trt),
                        control_total as int == mapped_count(cviews),
                        forall|x: int| 0 <= x < p ==> #[trigger] counts@[x] as int
                            == normalized_count(
                            count_in_bin(trt, bviews[x]),
                            count_in_bin(cviews, bviews[x]),
                            mapped_count(trt),
                            mapped_count(cviews),
                        ),
                        forall|x: int| p <= x < n ==> #[trigger] counts@[x] as int == count_in_bin(
                            trt,
                            bviews[x],
                        ),
                    decreases n - p,
                {
                    proof {
                        assert(bins@[p as int]@ == bviews[p as int]);
                    }
                    let c = count_in_bin_exec(ctrl, &bins[p]);
                    let t = counts[p];
                    counts[p] = normalize_count(t, c, treatment_total, control_total);
                    proof {
                        assert(counts@[p as int] as int == normalized_count(
                            count_in_bin(trt, bviews[p as int]),
                            count_in_bin(cviews, bviews[p as int]),
                            mapped_count(trt),
                            mapped_count(cviews),
                        ));
                    }
                    p = p + 1;
                }
            },
            None => {},
        }

        let mut out: Vec<(GenomicRange, u64)> = Vec::new();
        let mut p: usize = 0;
        while p < n
            invariant
                0 <= p <= n,
                n == bins@.len(),
                counts@.len() == n,
                out@.len() == p,
                bviews == bins@.map_values(|b: GenomicRange| b@),
                forall|x: int|
                    0 <= x < p ==> (#[trigger] out@[x]).0@ == bviews[x] && out@[x].1
                        == counts@[x],
            decreases n - p,
        {
            out.push((bins[p].duplicate(), counts[p]));
            p = p + 1;
        }
        out
    }
}

/// The end of the run of bins sharing `bins[i]`'s chromosome.
fn run_end(bins: &Vec<GenomicRange>, i: usize) -> (j: usize)
    requires
        i < bins@.len(),
    ensures
        i < j <= bins@.len(),
        forall|k: int|
            i <= k < j ==> (#[trigger] bins@[k]@).chrom == bins@[i as int]@.chrom,
{
    let n = bins.len();
    let mut j: usize = i + 1;
    while j < n
        invariant
            i < j <= n,
            n == bins@.len(),
            forall|k: int| i <= k < j ==> (#[trigger] bins@[k]@).chrom == bins@[i as int]@.chrom,
        decreases n - j,
    {
        if !str_eq(bins[j].chrom.as_str(), bins[i].chrom.as_str()) {
            return j;
        }
        j = j + 1;
    }
    j
}

} // verus!
