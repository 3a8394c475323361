//! Assembling significant bins into peaks, and the per-chromosome
//! pipeline that drives binning, counting, significance and merging.
//!
//! Merging groups its input by chromosome in first-appearance order,
//! sorts each group by ascending start, and sweeps it left to right:
//! a bin within `max_distance` of the open peak extends it (furthest
//! end wins, highest score wins), a farther bin closes it.  Peaks
//! narrower than the configured minimum are dropped afterwards.

use vstd::prelude::*;

use crate::bam::{
    expected_count, uniform_bins, BamProcessor, BamRecordView, GenomicRange, GenomicRangeView,
    PPM_SCALE,
};
use crate::bayesian::{pair_views, qualifying, significant, BayesianModel, GenomicPrior};
use crate::cli::Cli;
use crate::genome::{chrom_bins, first_index, Genome};
use crate::text::str_eq;
use vstd::math::max;

verus! {

/// Insert `x` into `s` before the first element whose start exceeds
/// `x.start`: the stable insertion step of the sort.
pub open spec fn insert_by_start(x: GenomicRangeView, s: Seq<GenomicRangeView>) -> Seq<
    GenomicRangeView,
>
    decreases s.len(),
{
    if s.len() == 0 {
        seq![x]
    } else if x.start < s[0].start {
        seq![x] + s
    } else {
        seq![s[0]] + insert_by_start(x, s.drop_first())
    }
}

/// Stable insertion sort by ascending start.
pub open spec fn sort_by_start(s: Seq<GenomicRangeView>) -> Seq<GenomicRangeView>
    decreases s.len(),
{
    if s.len() == 0 {
        Seq::empty()
    } else {
        insert_by_start(s.last(), sort_by_start(s.drop_last()))
    }
}

/// The open peak `open` extended by bin `b`: the union of their spans and
/// the better of their scores.
pub open spec fn extend_peak(open: GenomicRangeView, b: GenomicRangeView) -> GenomicRangeView {
    GenomicRangeView {
        chrom: open.chrom,
        start: open.start,
        end: max(open.end, b.end),
        posterior_ppm: max(open.posterior_ppm, b.posterior_ppm),
    }
}

/// One left-to-right sweep over start-sorted bins, with `open` as the
/// currently open peak: a bin starting within `gap` of the open peak's
/// end extends it; a farther bin closes it and opens a new one.
pub open spec fn sweep(open: GenomicRangeView, rest: Seq<GenomicRangeView>, gap: int) -> Seq<
    GenomicRangeView,
>
    decreases rest.len(),
{
    if rest.len() == 0 {
        seq![open]
    } else if rest[0].start <= open.end + gap {
        sweep(extend_peak(open, rest[0]), rest.drop_first(), gap)
    } else {
        seq![open] + sweep(rest[0], rest.drop_first(), gap)
    }
}

/// The sweep of a start-sorted bin list.
pub open spec fn merge_sorted(s: Seq<GenomicRangeView>, gap: int) -> Seq<GenomicRangeView> {
    if s.len() == 0 {
        Seq::empty()
    } else {
        sweep(s[0], s.drop_first(), gap)
    }
}

/// Merging one chromosome's bins: sort by start, then sweep.
pub open spec fn merge_group(s: Seq<GenomicRangeView>, gap: int) -> Seq<GenomicRangeView> {
    merge_sorted(sort_by_start(s), gap)
}

/// The distinct chromosome names of `s`, in first-appearance order.
pub open spec fn chrom_order(s: Seq<GenomicRangeView>) -> Seq<Seq<char>>
    decreases s.len(),
{
    if s.len() == 0 {
        Seq::empty()
    } else {
        let rest = chrom_order(s.drop_last());
        if rest.contains(s.last().chrom) {
            rest
        } else {
            rest.push(s.last().chrom)
        }
    }
}

/// The bins of `s` on chromosome `c`, in order.
pub open spec fn of_chrom(s: Seq<GenomicRangeView>, c: Seq<char>) -> Seq<GenomicRangeView> {
    s.filter(|b: GenomicRangeView| b.chrom == c)
}

/// The merged peaks of the chromosomes `cs`, concatenated in that order.
pub open spec fn merge_chroms(cs: Seq<Seq<char>>, s: Seq<GenomicRangeView>, gap: int) -> Seq<
    GenomicRangeView,
>
    decreases cs.len(),
{
    if cs.len() == 0 {
        Seq::empty()
    } else {
        merge_chroms(cs.drop_last(), s, gap) + merge_group(of_chrom(s, cs.last()), gap)
    }
}

/// The full merge: every chromosome's bins grouped, sorted, swept, and
/// the chromosomes' peak lists concatenated in first-appearance order.
pub open spec fn merged(s: Seq<GenomicRangeView>, gap: int) -> Seq<GenomicRangeView> {
    merge_chroms(chrom_order(s), s, gap)
}

/// The peaks of `s` that are at least `min_width` wide.
pub open spec fn width_filtered(s: Seq<GenomicRangeView>, min_width: int) -> Seq<
    GenomicRangeView,
> {
    s.filter(|b: GenomicRangeView| b.width() >= min_width)
}

/// Whether `order` holds the view of `name`.
fn order_contains(order: &Vec<String>, name: &String) -> (r: bool)
    ensures
        r == order@.map_values(|s: String| s@).contains(name@),
{
    let n = order.len();
    let mut i: usize = 0;
    while i < n
        invariant
            0 <= i <= n,
            n == order@.len(),
            forall|k: int| 0 <= k < i ==> (#[trigger] order@[k])@ != name@,
        decreases n - i,
    {
        if str_eq(order[i].as_str(), name.as_str()) {
            proof {
                assert(order@.map_values(|s: String| s@)[i as int] == name@);
            }
            return true;
        }
        i = i + 1;
    }
    proof {
        let names = order@.map_values(|s: String| s@);
        assert forall|k: int| 0 <= k < names.len() implies names[k] != name@ by {
            assert(names[k] == order@[k]@);
        }
    }
    false
}

/// The distinct chromosome names of `bins`, in first-appearance order.
fn chrom_order_exec(bins: &Vec<GenomicRange>) -> (r: Vec<String>)
    ensures
        r@.map_values(|s: String| s@) == chrom_order(bins@.map_values(|b: GenomicRange| b@)),
{
    let ghost views = bins@.map_values(|b: GenomicRange| b@);
    let n = bins.len();
    let mut order: Vec<String> = Vec::new();
    let mut i: usize = 0;
    proof {
        assert(views.take(0) =~= Seq::<GenomicRangeView>::empty());
    }
    while i < n
        invariant
            0 <= i <= n,
            n == bins@.len(),
            views == bins@.map_values(|b: GenomicRange| b@),
            order@.map_values(|s: String| s@) == chrom_order(views.take(i as int)),
        decreases n - i,
    {
        proof {
            assert(views.take(i as int + 1).drop_last() =~= views.take(i as int));
            assert(views.take(i as int + 1).last() == views[i as int]);
        }
        let ghost old_order = order@;
        if !order_contains(&order, &bins[i].chrom) {
            order.push(bins[i].chrom.clone());
            proof {
                assert(order@.map_values(|s: String| s@) =~= old_order.map_values(
                    |s: String| s@,
                ).push(views[i as int].chrom));
            }
        }
        i = i + 1;
    }
    proof {
        assert(views.take(n as int) =~= views);
    }
    order
}

/// The bins of `bins` whose chromosome is `c`, in order.
fn collect_chrom(bins: &Vec<GenomicRange>, c: &String) -> (r: Vec<GenomicRange>)
    ensures
        r@.map_values(|b: GenomicRange| b@) == of_chrom(bins@.map_values(|b: GenomicRange| b@), c@),
{
    let ghost views = bins@.map_values(|b: GenomicRange| b@);
    let n = bins.len();
    let mut out: Vec<GenomicRange> = Vec::new();
    let mut i: usize = 0;
    proof {
        assert(views.take(0) =~= Seq::<GenomicRangeView>::empty());
        reveal(Seq::filter);
    }
    while i < n
        invariant
            0 <= i <= n,
            n == bins@.len(),
            views == bins@.map_values(|b: GenomicRange| b@),
            out@.map_values(|b: GenomicRange| b@) == of_chrom(views.take(i as int), c@),
        decreases n - i,
    {
        proof {
            assert(views.take(i as int + 1).drop_last() =~= views.take(i as int));
            assert(views.take(i as int + 1).last() == views[i as int]);
            reveal(Seq::filter);
        }
        let ghost old_out = out@;
        if str_eq(bins[i].chrom.as_str(), c.as_str()) {
            out.push(bins[i].duplicate());
        }
        proof {
            assert(out@.map_values(|b: GenomicRange| b@) =~= of_chrom(
                views.take(i as int + 1),
                c@,
            ));
        }
        i = i + 1;
    }
    proof {
        assert(views.take(n as int) =~= views);
    }
    out
}

/// The position where `x` belongs in `out`: just before the first
/// element whose start exceeds `x`'s.
fn find_insert_pos(out: &Vec<GenomicRange>, x: &GenomicRange) -> (k: usize)
    ensures
        0 <= k <= out@.len(),
        forall|j: int| 0 <= j < k ==> (#[trigger] out@[j]@).start <= x@.start,
        k < out@.len() ==> out@[k as int]@.start > x@.start,
{
    let olen = out.len();
    let mut k: usize = 0;
    while k < olen
        invariant
            0 <= k <= olen,
            olen == out@.len(),
            forall|j: int| 0 <= j < k ==> (#[trigger] out@[j]@).start <= x@.start,
        decreases olen - k,
    {
        if out[k].start > x.start {
            return k;
        }
        k = k + 1;
    }
    k
}

/// Where `insert_by_start` puts `x`: before the first element with a
/// larger start.
proof fn lemma_insert_at(s: Seq<GenomicRangeView>, x: GenomicRangeView, k: int)
    requires
        0 <= k <= s.len(),
        forall|j: int| 0 <= j < k ==> s[j].start <= x.start,
        k == s.len() || s[k].start > x.start,
    ensures
        insert_by_start(x, s) == s.take(k) + seq![x] + s.skip(k),
    decreases k,
{
    if s.len() == 0 {
        assert(insert_by_start(x, s) =~= s.take(k) + seq![x] + s.skip(k));
    } else if k == 0 {
        assert(insert_by_start(x, s) =~= s.take(0) + seq![x] + s.skip(0));
    } else {
        assert(s[0].start <= x.start);
        lemma_insert_at(s.drop_first(), x, k - 1);
        assert(s.drop_first().take(k - 1) =~= s.take(k).drop_first());
        assert(s.drop_first().skip(k - 1) =~= s.skip(k));
        assert(seq![s[0]] + (s.drop_first().take(k - 1) + seq![x] + s.drop_first().skip(k - 1))
            =~= s.take(k) + seq![x] + s.skip(k));
    }
}

/// Sort `bins` by ascending start, stably.
fn sort_bins(bins: Vec<GenomicRange>) -> (r: Vec<GenomicRange>)
    ensures
        r@.map_values(|b: GenomicRange| b@) == sort_by_start(
            bins@.map_values(|b: GenomicRange| b@),
        ),
{
    let ghost views = bins@.map_values(|b: GenomicRange| b@);
    let n = bins.len();
    let mut out: Vec<GenomicRange> = Vec::new();
    let mut i: usize = 0;
    proof {
        assert(views.take(0) =~= Seq::<GenomicRangeView>::empty());
    }
    while i < n
        invariant
            0 <= i <= n,
            n == bins@.len(),
            views == bins@.map_values(|b: GenomicRange| b@),
            out@.map_values(|b: GenomicRange| b@) == sort_by_start(views.take(i as int)),
        decreases n - i,
    {
        proof {
            assert(views.take(i as int + 1).drop_last() =~= views.take(i as int));
            assert(views.take(i as int + 1).last() == views[i as int]);
        }
        let x = bins[i].duplicate();
        let k = find_insert_pos(&out, &x);
        proof {
            let sorted = out@.map_values(|b: GenomicRange| b@);
            assert forall|j: int| 0 <= j < k implies (#[trigger] sorted[j]).start <= x@.start by {
                assert(sorted[j] == out@[j]@);
            }
            assert(k as int == out@.len() || sorted[k as int].start > x@.start);
            lemma_insert_at(sorted, x@, k as int);
        }
        let ghost old_out = out@;
        out.insert(k, x);
        proof {
            let sorted = old_out.map_values(|b: GenomicRange| b@);
            assert(out@.map_values(|b: GenomicRange| b@) =~= sorted.take(k as int) + seq![
                views[i as int],
            ] + sorted.skip(k as int));
        }
        i = i + 1;
    }
    proof {
        assert(views.take(n as int) =~= views);
    }
    out
}

/// Sweep one start-sorted group into peaks.
fn sweep_bins(sorted: Vec<GenomicRange>, max_distance: u32) -> (r: Vec<GenomicRange>)
    ensures
        r@.map_values(|b: GenomicRange| b@) == merge_sorted(
            sorted@.map_values(|b: GenomicRange| b@),
            max_distance as int,
        ),
{
    let ghost views = sorted@.map_values(|b: GenomicRange| b@);
    let n = sorted.len();
    let mut result: Vec<GenomicRange> = Vec::new();
    if n == 0 {
        proof {
            assert(result@.map_values(|b: GenomicRange| b@) =~= merge_sorted(
                views,
                max_distance as int,
            ));
        }
        return result;
    }
    let mut open = sorted[0].duplicate();
    let mut m: usize = 1;
    proof {
        assert(views.skip(1) =~= views.drop_first());
        assert(result@.map_values(|b: GenomicRange| b@) + sweep(
            open@,
            views.skip(1),
            max_distance as int,
        ) =~= merge_sorted(views, max_distance as int));
    }
    while m < n
        invariant
            1 <= m <= n,
            n == sorted@.len(),
            views == sorted@.map_values(|b: GenomicRange| b@),
            merge_sorted(views, max_distance as int) == result@.map_values(|b: GenomicRange| b@)
                + sweep(open@, views.skip(m as int), max_distance as int),
        decreases n - m,
    {
        proof {
            assert(views.skip(m as int)[0] == views[m as int]);
            assert(views.skip(m as int).drop_first() =~= views.skip(m as int + 1));
        }
        let b = &sorted[m];
        if (b.start as u64) <= (open.end as u64) + (max_distance as u64) {
            let ghost before = open@;
            if b.end > open.end {
                open.end = b.end;
            }
            if b.posterior_ppm > open.posterior_ppm {
                open.posterior_ppm = b.posterior_ppm;
            }
            proof {
                assert(open@ == extend_peak(before, views[m as int]));
            }
        } else {
            let ghost before_result = result@;
            let ghost old_open = open@;
            let next = b.duplicate();
            result.push(open);
            open = next;
            proof {
                assert(sweep(old_open, views.skip(m as int), max_distance as int) == seq![old_open]
                    + sweep(views[m as int], views.skip(m as int + 1), max_distance as int));
                assert(result@.map_values(|b2: GenomicRange| b2@) =~= before_result.map_values(
                    |b2: GenomicRange| b2@,
                ).push(old_open));
                assert(before_result.map_values(|b2: GenomicRange| b2@) + (seq![old_open] + sweep(
                    views[m as int],
                    views.skip(m as int + 1),
                    max_distance as int,
                )) =~= result@.map_values(|b2: GenomicRange| b2@) + sweep(
                    views[m as int],
                    views.skip(m as int + 1),
                    max_distance as int,
                ));
            }
        }
        m = m + 1;
    }
    proof {
        assert(views.skip(n as int) =~= Seq::<GenomicRangeView>::empty());
    }
    result.push(open);
    result
}

/// Every interval of `s` is well-formed.
pub open spec fn all_wf(s: Seq<GenomicRangeView>) -> bool {
    forall|i: int| 0 <= i < s.len() ==> (#[trigger] s[i]).wf()
}

/// Every interval of `s` lies on chromosome `c`.
pub open spec fn same_chrom(s: Seq<GenomicRangeView>, c: Seq<char>) -> bool {
    forall|i: int| 0 <= i < s.len() ==> (#[trigger] s[i]).chrom == c
}

pub open spec fn sorted_by_start(s: Seq<GenomicRangeView>) -> bool {
    forall|i: int, j: int|
        0 <= i < j < s.len() ==> (#[trigger] s[i]).start <= (#[trigger] s[j]).start
}

/// No two intervals of `s` on one chromosome overlap or lie within `gap`
/// of each other; the later one starts beyond the earlier one's end plus
/// the gap.
pub open spec fn chrom_separated(s: Seq<GenomicRangeView>, gap: int) -> bool {
    forall|i: int, j: int|
        0 <= i < j < s.len() && (#[trigger] s[i]).chrom == (#[trigger] s[j]).chrom ==> s[j].start
            > s[i].end + gap
}

/// What one sweep guarantees: at least one peak, anchored at the open
/// peak's start, all well-formed, all on the open peak's chromosome, and
/// pairwise separated by more than the gap.
proof fn lemma_sweep_props(open: GenomicRangeView, rest: Seq<GenomicRangeView>, gap: int)
    requires
        gap >= 0,
        open.wf(),
        all_wf(rest),
        same_chrom(rest, open.chrom),
        forall|k: int| 0 <= k < rest.len() ==> open.start <= (#[trigger] rest[k]).start,
        sorted_by_start(rest),
    ensures
        sweep(open, rest, gap).len() >= 1,
        sweep(open, rest, gap)[0].start == open.start,
        all_wf(sweep(open, rest, gap)),
        same_chrom(sweep(open, rest, gap), open.chrom),
        forall|i: int, j: int|
            0 <= i < j < sweep(open, rest, gap).len() ==> (#[trigger] sweep(open, rest, gap)[j])
                .start > (#[trigger] sweep(open, rest, gap)[i]).end + gap,
    decreases rest.len(),
{
    if rest.len() > 0 {
        let b = rest[0];
        let rest2 = rest.drop_first();
        assert forall|k: int| 0 <= k < rest2.len() implies (#[trigger] rest2[k]) == rest[k + 1] by {}
        if b.start <= open.end + gap {
            let open2 = extend_peak(open, b);
            lemma_sweep_props(open2, rest2, gap);
        } else {
            lemma_sweep_props(b, rest2, gap);
            let tail = sweep(b, rest2, gap);
            let out = sweep(open, rest, gap);
            assert(out == seq![open] + tail);
            assert(out[0] == open);
            assert forall|k: int| 1 <= k < out.len() implies (#[trigger] out[k]) == tail[k - 1] by {}
            assert forall|i: int, j: int| 0 <= i < j < out.len() implies (#[trigger] out[j]).start
                > (#[trigger] out[i]).end + gap by {
                if i == 0 {
                    if j == 1 {
                        assert(tail[0].start == b.start);
                    } else {
                        assert(tail[j - 1].start > tail[0].end + gap);
                        assert(tail[0].wf());
                        assert(tail[0].start == b.start);
                    }
                } else {
                    assert(tail[j - 1].start > tail[i - 1].end + gap);
                }
            }
        }
    }
}

/// Where `insert_by_start` leaves the order and the contents.
proof fn lemma_insert_props(x: GenomicRangeView, s: Seq<GenomicRangeView>)
    requires
        sorted_by_start(s),
    ensures
        insert_by_start(x, s).len() == s.len() + 1,
        sorted_by_start(insert_by_start(x, s)),
        forall|k: int|
            0 <= k < insert_by_start(x, s).len() ==> (#[trigger] insert_by_start(x, s)[k]) == x
                || s.contains(insert_by_start(x, s)[k]),
    decreases s.len(),
{
    let out = insert_by_start(x, s);
    if s.len() == 0 {
    } else if x.start < s[0].start {
        assert(out == seq![x] + s);
        assert forall|i: int, j: int| 0 <= i < j < out.len() implies (#[trigger] out[i]).start <= (
        #[trigger] out[j]).start by {
            if i >= 1 {
                assert(out[i] == s[i - 1] && out[j] == s[j - 1]);
            } else {
                assert(out[j] == s[j - 1]);
                if j - 1 > 0 {
                    assert(s[0].start <= s[j - 1].start);
                }
            }
        }
        assert forall|k: int| 0 <= k < out.len() implies (#[trigger] out[k]) == x || s.contains(
            out[k],
        ) by {
            if k >= 1 {
                assert(out[k] == s[k - 1]);
            }
        }
    } else {
        let s2 = s.drop_first();
        assert forall|k: int| 0 <= k < s2.len() implies (#[trigger] s2[k]) == s[k + 1] by {}
        lemma_insert_props(x, s2);
        let tail = insert_by_start(x, s2);
        assert(out == seq![s[0]] + tail);
        assert forall|k: int| 1 <= k < out.len() implies (#[trigger] out[k]) == tail[k - 1] by {}
        assert forall|i: int, j: int| 0 <= i < j < out.len() implies (#[trigger] out[i]).start <= (
        #[trigger] out[j]).start by {
            if i == 0 {
                assert(out[j] == tail[j - 1]);
                if tail[j - 1] == x {
                } else {
                    assert(s2.contains(tail[j - 1]));
                    let w = choose|w: int| 0 <= w < s2.len() && s2[w] == tail[j - 1];
                    assert(s[0].start <= s[w + 1].start);
                }
            } else {
                assert(tail[i - 1].start <= tail[j - 1].start);
            }
        }
        assert forall|k: int| 0 <= k < out.len() implies (#[trigger] out[k]) == x || s.contains(
            out[k],
        ) by {
            if k == 0 {
                assert(s[0] == s[0]);
                assert(s.contains(s[0]));
            } else {
                assert(out[k] == tail[k - 1]);
                if tail[k - 1] != x {
                    assert(s2.contains(tail[k - 1]));
                    let w = choose|w: int| 0 <= w < s2.len() && s2[w] == tail[k - 1];
                    assert(s[w + 1] == tail[k - 1]);
                }
            }
        }
    }
}

/// The sort's output is sorted and holds only elements of its input.
proof fn lemma_sort_props(s: Seq<GenomicRangeView>)
    ensures
        sort_by_start(s).len() == s.len(),
        sorted_by_start(sort_by_start(s)),
        forall|k: int|
            0 <= k < sort_by_start(s).len() ==> s.contains(#[trigger] sort_by_start(s)[k]),
    decreases s.len(),
{
    if s.len() > 0 {
        let front = s.drop_last();
        lemma_sort_props(front);
        lemma_insert_props(s.last(), sort_by_start(front));
        assert forall|k: int|
            0 <= k < sort_by_start(s).len() implies s.contains(
            #[trigger] sort_by_start(s)[k],
        ) by {
            let e = sort_by_start(s)[k];
            if e == s.last() {
                assert(s[s.len() - 1] == e);
            } else {
                assert(sort_by_start(front).contains(e));
                let w = choose|w: int| 0 <= w < sort_by_start(front).len() && sort_by_start(
                    front,
                )[w] == e;
                assert(front.contains(e));
                let v = choose|v: int| 0 <= v < front.len() && front[v] == e;
                assert(s[v] == e);
            }
        }
    }
}

/// What merging one chromosome's bins guarantees.
proof fn lemma_merge_group_props(s: Seq<GenomicRangeView>, c: Seq<char>, gap: int)
    requires
        gap >= 0,
        all_wf(s),
        same_chrom(s, c),
    ensures
        s.len() > 0 ==> merge_group(s, gap).len() >= 1,
        s.len() == 0 ==> merge_group(s, gap).len() == 0,
        all_wf(merge_group(s, gap)),
        same_chrom(merge_group(s, gap), c),
        forall|i: int, j: int|
            0 <= i < j < merge_group(s, gap).len() ==> (#[trigger] merge_group(s, gap)[j]).start
                > (#[trigger] merge_group(s, gap)[i]).end + gap,
{
    lemma_sort_props(s);
    let sorted = sort_by_start(s);
    if s.len() > 0 {
        assert forall|k: int| 0 <= k < sorted.len() implies (#[trigger] sorted[k]).wf()
            && sorted[k].chrom == c by {
            assert(s.contains(sorted[k]));
            let w = choose|w: int| 0 <= w < s.len() && s[w] == sorted[k];
        }
        let first = sorted[0];
        let rest = sorted.drop_first();
        assert forall|k: int| 0 <= k < rest.len() implies (#[trigger] rest[k]) == sorted[k + 1] by {}
        lemma_sweep_props(first, rest, gap);
        assert(merge_group(s, gap) == sweep(first, rest, gap));
    }
}

/// The bins of one chromosome all lie on it and come from the input.
proof fn lemma_of_chrom_members(s: Seq<GenomicRangeView>, c: Seq<char>)
    ensures
        forall|k: int|
            0 <= k < of_chrom(s, c).len() ==> s.contains(#[trigger] of_chrom(s, c)[k]) && of_chrom(
                s,
                c,
            )[k].chrom == c,
    decreases s.len(),
{
    reveal(Seq::filter);
    if s.len() > 0 {
        lemma_of_chrom_members(s.drop_last(), c);
        let out = of_chrom(s, c);
        let front = of_chrom(s.drop_last(), c);
        assert forall|k: int| 0 <= k < out.len() implies s.contains(#[trigger] out[k]) && out[k]
            .chrom == c by {
            if k < front.len() {
                assert(out[k] == front[k]);
                assert(s.drop_last().contains(front[k]));
                let w = choose|w: int| 0 <= w < s.drop_last().len() && s.drop_last()[w] == front[k];
                assert(s[w] == front[k]);
            } else {
                assert(out[k] == s.last());
                assert(s[s.len() - 1] == s.last());
            }
        }
    }
}

/// The chromosome order holds exactly the chromosomes present, once each.
proof fn lemma_chrom_order_props(s: Seq<GenomicRangeView>)
    ensures
        chrom_order(s).no_duplicates(),
        forall|c: Seq<char>|
            #[trigger] chrom_order(s).contains(c) <==> exists|k: int|
                0 <= k < s.len() && (#[trigger] s[k]).chrom == c,
    decreases s.len(),
{
    if s.len() > 0 {
        let front = s.drop_last();
        lemma_chrom_order_props(front);
        let co = chrom_order(s);
        let cof = chrom_order(front);
        assert forall|c: Seq<char>| #[trigger] co.contains(c) implies exists|k: int|
            0 <= k < s.len() && (#[trigger] s[k]).chrom == c by {
            if cof.contains(c) {
                let w = choose|w: int| 0 <= w < front.len() && (#[trigger] front[w]).chrom == c;
                assert(s[w].chrom == c);
            } else {
                assert(c == s.last().chrom);
                assert(s[s.len() - 1].chrom == c);
            }
        }
        assert forall|c: Seq<char>|
            (exists|k: int| 0 <= k < s.len() && (#[trigger] s[k]).chrom == c) implies #[trigger] co
            .contains(c) by {
            let k = choose|k: int| 0 <= k < s.len() && (#[trigger] s[k]).chrom == c;
            if k < s.len() - 1 {
                assert(front[k].chrom == c);
                assert(cof.contains(c));
                if !cof.contains(s.last().chrom) {
                    let w = choose|w: int| 0 <= w < cof.len() && cof[w] == c;
                    assert(co[w] == c);
                }
            } else {
                if cof.contains(c) {
                    let w = choose|w: int| 0 <= w < cof.len() && cof[w] == c;
                    assert(co[w] == c);
                } else {
                    assert(co == cof.push(c));
                    assert(co[co.len() - 1] == c);
                }
            }
        }
        if !cof.contains(s.last().chrom) {
            assert(co == cof.push(s.last().chrom));
            assert forall|i: int, j: int| 0 <= i < j < co.len() implies co[i] != co[j] by {
                if j < co.len() - 1 {
                    assert(cof[i] != cof[j]);
                } else {
                    assert(co[i] == cof[i]);
                    if co[i] == s.last().chrom {
                        assert(cof.contains(s.last().chrom));
                    }
                }
            }
        }
    }
}

/// What the full merge guarantees: well-formed peaks, each on a
/// chromosome the input had, and, per chromosome, pairwise separation by
/// more than the gap — no two output peaks of one chromosome overlap or
/// lie within `gap` of each other.
pub proof fn lemma_merged_separated(s: Seq<GenomicRangeView>, gap: int)
    requires
        gap >= 0,
        all_wf(s),
    ensures
        all_wf(merged(s, gap)),
        chrom_separated(merged(s, gap), gap),
{
    lemma_chrom_order_props(s);
    lemma_merge_chroms_props(chrom_order(s), s, gap);
}

/// The invariant of the chromosome-by-chromosome merge: each block is one
/// chromosome's separated peaks, and the blocks' chromosomes are the
/// given ones.
proof fn lemma_merge_chroms_props(cs: Seq<Seq<char>>, s: Seq<GenomicRangeView>, gap: int)
    requires
        gap >= 0,
        all_wf(s),
        cs.no_duplicates(),
    ensures
        all_wf(merge_chroms(cs, s, gap)),
        forall|k: int|
            0 <= k < merge_chroms(cs, s, gap).len() ==> cs.contains(
                (#[trigger] merge_chroms(cs, s, gap)[k]).chrom,
            ),
        chrom_separated(merge_chroms(cs, s, gap), gap),
    decreases cs.len(),
{
    if cs.len() > 0 {
        let front = cs.drop_last();
        let c = cs.last();
        assert forall|k: int| 0 <= k < front.len() implies (#[trigger] front[k]) == cs[k] by {}
        assert(front.no_duplicates());
        lemma_merge_chroms_props(front, s, gap);
        let group = of_chrom(s, c);
        lemma_of_chrom_members(s, c);
        assert forall|k: int| 0 <= k < group.len() implies (#[trigger] group[k]).wf()
            && group[k].chrom == c by {
            assert(s.contains(group[k]));
            let w = choose|w: int| 0 <= w < s.len() && s[w] == group[k];
        }
        lemma_merge_group_props(group, c, gap);
        let left = merge_chroms(front, s, gap);
        let block = merge_group(group, gap);
        let out = merge_chroms(cs, s, gap);
        assert(out == left + block);
        assert forall|k: int| 0 <= k < out.len() implies (#[trigger] out[k]).wf() && cs.contains(
            out[k].chrom,
        ) by {
            if k < left.len() {
                assert(out[k] == left[k]);
                assert(front.contains(left[k].chrom));
                let w = choose|w: int| 0 <= w < front.len() && front[w] == left[k].chrom;
                assert(cs[w] == left[k].chrom);
            } else {
                assert(out[k] == block[k - left.len()]);
                assert(block[k - left.len()].chrom == c);
                assert(cs[cs.len() - 1] == c);
            }
        }
        assert forall|i: int, j: int|
            0 <= i < j < out.len() && (#[trigger] out[i]).chrom == (#[trigger] out[j]).chrom
            implies out[j].start > out[i].end + gap by {
            if j < left.len() {
                assert(out[i] == left[i] && out[j] == left[j]);
            } else if i >= left.len() {
                assert(out[i] == block[i - left.len()] && out[j] == block[j - left.len()]);
            } else {
                assert(out[i] == left[i] && out[j] == block[j - left.len()]);
                assert(front.contains(left[i].chrom));
                assert(out[j].chrom == c);
                let w = choose|w: int| 0 <= w < front.len() && front[w] == left[i].chrom;
                assert(cs[w] == cs[cs.len() - 1]);
            }
        }
    }
}

/// Inserting an element that starts no earlier than every element
/// appends it.
proof fn lemma_insert_at_end(x: GenomicRangeView, s: Seq<GenomicRangeView>)
    requires
        forall|k: int| 0 <= k < s.len() ==> (#[trigger] s[k]).start <= x.start,
    ensures
        insert_by_start(x, s) == s.push(x),
{
    lemma_insert_at(s, x, s.len() as int);
    assert(s.take(s.len() as int) =~= s);
    assert(s.skip(s.len() as int) =~= Seq::<GenomicRangeView>::empty());
    assert(s + seq![x] + Seq::<GenomicRangeView>::empty() =~= s.push(x));
}

/// Sorting an already sorted list changes nothing.
proof fn lemma_sort_sorted_id(s: Seq<GenomicRangeView>)
    requires
        sorted_by_start(s),
    ensures
        sort_by_start(s) == s,
    decreases s.len(),
{
    if s.len() > 0 {
        let front = s.drop_last();
        assert forall|k: int| 0 <= k < front.len() implies (#[trigger] front[k]) == s[k] by {}
        lemma_sort_sorted_id(front);
        lemma_insert_at_end(s.last(), front);
        assert(front.push(s.last()) =~= s);
    }
}

/// Sweeping peaks that already keep more than `gap` apart returns them
/// unchanged.
proof fn lemma_sweep_separated_id(open: GenomicRangeView, rest: Seq<GenomicRangeView>, gap: int)
    requires
        forall|k: int| 0 <= k < rest.len() ==> (#[trigger] rest[k]).start > open.end + gap,
        forall|i: int, j: int|
            0 <= i < j < rest.len() ==> (#[trigger] rest[j]).start > (#[trigger] rest[i]).end
                + gap,
    ensures
        sweep(open, rest, gap) == seq![open] + rest,
    decreases rest.len(),
{
    if rest.len() == 0 {
        assert(sweep(open, rest, gap) =~= seq![open] + rest);
    } else {
        let b = rest[0];
        let rest2 = rest.drop_first();
        assert forall|k: int| 0 <= k < rest2.len() implies (#[trigger] rest2[k]) == rest[k + 1] by {}
        lemma_sweep_separated_id(b, rest2, gap);
        assert(seq![open] + (seq![b] + rest2) =~= seq![open] + rest);
    }
}

/// On a single-chromosome list the chromosome filter is the identity.
proof fn lemma_of_chrom_all(s: Seq<GenomicRangeView>, c: Seq<char>)
    requires
        same_chrom(s, c),
    ensures
        of_chrom(s, c) == s,
    decreases s.len(),
{
    reveal(Seq::filter);
    if s.len() > 0 {
        let front = s.drop_last();
        assert forall|k: int| 0 <= k < front.len() implies (#[trigger] front[k]) == s[k] by {}
        lemma_of_chrom_all(front, c);
        assert(of_chrom(front, c).push(s.last()) =~= s);
    }
}

/// A single-chromosome list has nothing on any other chromosome.
proof fn lemma_of_chrom_other(s: Seq<GenomicRangeView>, c: Seq<char>, d: Seq<char>)
    requires
        same_chrom(s, c),
        d != c,
    ensures
        of_chrom(s, d) == Seq::<GenomicRangeView>::empty(),
    decreases s.len(),
{
    reveal(Seq::filter);
    if s.len() > 0 {
        let front = s.drop_last();
        assert forall|k: int| 0 <= k < front.len() implies (#[trigger] front[k]) == s[k] by {}
        lemma_of_chrom_other(front, c, d);
    }
}

/// Appending one chromosome's nonempty block extends the chromosome
/// order by that chromosome, once.
proof fn lemma_chrom_order_block(x: Seq<GenomicRangeView>, block: Seq<GenomicRangeView>, c: Seq<
    char,
>)
    requires
        block.len() >= 1,
        same_chrom(block, c),
    ensures
        chrom_order(x + block) == if chrom_order(x).contains(c) {
            chrom_order(x)
        } else {
            chrom_order(x).push(c)
        },
    decreases block.len(),
{
    if block.len() == 1 {
        assert((x + block).drop_last() =~= x);
        assert((x + block).last() == block[0]);
    } else {
        let bf = block.drop_last();
        assert forall|k: int| 0 <= k < bf.len() implies (#[trigger] bf[k]) == block[k] by {}
        lemma_chrom_order_block(x, bf, c);
        assert((x + block).drop_last() =~= x + bf);
        assert((x + block).last() == block.last());
        let rest = chrom_order(x + bf);
        assert(rest.contains(c)) by {
            if !chrom_order(x).contains(c) {
                assert(rest[rest.len() - 1] == c);
            }
        }
    }
}

/// The shape of the merged output: its chromosome order is the given one,
/// and per chromosome it holds exactly that chromosome's merged group.
proof fn lemma_merge_chroms_shape(cs: Seq<Seq<char>>, s: Seq<GenomicRangeView>, gap: int)
    requires
        gap >= 0,
        all_wf(s),
        cs.no_duplicates(),
        forall|k: int| 0 <= k < cs.len() ==> of_chrom(s, #[trigger] cs[k]).len() > 0,
    ensures
        chrom_order(merge_chroms(cs, s, gap)) == cs,
        forall|c: Seq<char>|
            cs.contains(c) ==> #[trigger] of_chrom(merge_chroms(cs, s, gap), c) == merge_group(
                of_chrom(s, c),
                gap,
            ),
        forall|c: Seq<char>|
            !cs.contains(c) ==> #[trigger] of_chrom(merge_chroms(cs, s, gap), c) == Seq::<
                GenomicRangeView,
            >::empty(),
    decreases cs.len(),
{
    let m = merge_chroms(cs, s, gap);
    if cs.len() == 0 {
        assert(chrom_order(m) =~= cs);
        assert forall|c: Seq<char>| !cs.contains(c) implies #[trigger] of_chrom(m, c) == Seq::<
            GenomicRangeView,
        >::empty() by {
            reveal(Seq::filter);
            assert(of_chrom(m, c) =~= Seq::<GenomicRangeView>::empty());
        }
    } else {
        let front = cs.drop_last();
        let c_last = cs.last();
        assert forall|k: int| 0 <= k < front.len() implies (#[trigger] front[k]) == cs[k] by {}
        assert(front.no_duplicates());
        assert forall|k: int| 0 <= k < front.len() implies of_chrom(
            s,
            #[trigger] front[k],
        ).len() > 0 by {
            assert(front[k] == cs[k]);
        }
        lemma_merge_chroms_shape(front, s, gap);
        let left = merge_chroms(front, s, gap);
        let group = of_chrom(s, c_last);
        lemma_of_chrom_members(s, c_last);
        assert forall|k: int| 0 <= k < group.len() implies (#[trigger] group[k]).wf() && group[k]
            .chrom == c_last by {
            assert(s.contains(group[k]));
            let w = choose|w: int| 0 <= w < s.len() && s[w] == group[k];
        }
        lemma_merge_group_props(group, c_last, gap);
        let block = merge_group(group, gap);
        assert(group.len() > 0) by {
            assert(cs[cs.len() - 1] == c_last);
        }
        assert(block.len() >= 1);
        assert(m == left + block);
        assert(!front.contains(c_last)) by {
            if front.contains(c_last) {
                let w = choose|w: int| 0 <= w < front.len() && front[w] == c_last;
                assert(cs[w] == cs[cs.len() - 1]);
            }
        }
        lemma_chrom_order_block(left, block, c_last);
        assert(chrom_order(m) == chrom_order(left).push(c_last));
        assert(front.push(c_last) =~= cs);
        assert forall|c: Seq<char>| cs.contains(c) implies #[trigger] of_chrom(m, c)
            == merge_group(of_chrom(s, c), gap) by {
            Seq::filter_distributes_over_add(left, block, |b: GenomicRangeView| b.chrom == c);
            assert(of_chrom(m, c) == of_chrom(left, c) + of_chrom(block, c));
            if c == c_last {
                lemma_of_chrom_all(block, c_last);
                assert(of_chrom(left, c) == Seq::<GenomicRangeView>::empty());
                assert(Seq::<GenomicRangeView>::empty() + block =~= block);
            } else {
                assert(front.contains(c)) by {
                    let w = choose|w: int| 0 <= w < cs.len() && cs[w] == c;
                    assert(front[w] == c);
                }
                lemma_of_chrom_other(block, c_last, c);
                assert(of_chrom(left, c) + Seq::<GenomicRangeView>::empty() =~= of_chrom(left, c));
            }
        }
        assert forall|c: Seq<char>| !cs.contains(c) implies #[trigger] of_chrom(m, c) == Seq::<
            GenomicRangeView,
        >::empty() by {
            Seq::filter_distributes_over_add(left, block, |b: GenomicRangeView| b.chrom == c);
            assert(of_chrom(m, c) == of_chrom(left, c) + of_chrom(block, c));
            assert(!front.contains(c)) by {
                if front.contains(c) {
                    let w = choose|w: int| 0 <= w < front.len() && front[w] == c;
                    assert(cs[w] == c);
                    assert(cs.contains(c));
                }
            }
            assert(c != c_last) by {
                if c == c_last {
                    assert(cs[cs.len() - 1] == c);
                    assert(cs.contains(c));
                }
            }
            lemma_of_chrom_other(block, c_last, c);
            assert(of_chrom(left, c) + of_chrom(block, c) =~= Seq::<GenomicRangeView>::empty());
        }
    }
}

/// Re-merging the merged output, chromosome by chromosome, rebuilds it
/// unchanged.
proof fn lemma_rebuild(
    cs_sub: Seq<Seq<char>>,
    cs: Seq<Seq<char>>,
    s: Seq<GenomicRangeView>,
    gap: int,
)
    requires
        gap >= 0,
        all_wf(s),
        cs.no_duplicates(),
        forall|k: int| 0 <= k < cs.len() ==> of_chrom(s, #[trigger] cs[k]).len() > 0,
        forall|k: int| 0 <= k < cs_sub.len() ==> cs.contains(#[trigger] cs_sub[k]),
    ensures
        merge_chroms(cs_sub, merge_chroms(cs, s, gap), gap) == merge_chroms(cs_sub, s, gap),
    decreases cs_sub.len(),
{
    let m = merge_chroms(cs, s, gap);
    if cs_sub.len() > 0 {
        let front = cs_sub.drop_last();
        let c = cs_sub.last();
        assert forall|k: int| 0 <= k < front.len() implies cs.contains(#[trigger] front[k]) by {
            assert(front[k] == cs_sub[k]);
        }
        lemma_rebuild(front, cs, s, gap);
        assert(cs.contains(c)) by {
            assert(cs_sub[cs_sub.len() - 1] == c);
        }
        lemma_merge_chroms_shape(cs, s, gap);
        let sg = of_chrom(s, c);
        lemma_of_chrom_members(s, c);
        assert forall|k: int| 0 <= k < sg.len() implies (#[trigger] sg[k]).wf() && sg[k].chrom
            == c by {
            assert(s.contains(sg[k]));
            let w = choose|w: int| 0 <= w < s.len() && s[w] == sg[k];
        }
        lemma_merge_group_props(sg, c, gap);
        let g = merge_group(sg, gap);
        assert(of_chrom(m, c) == g);
        // g is sorted and separated, so its own merge is the identity
        assert(sorted_by_start(g)) by {
            assert forall|i: int, j: int| 0 <= i < j < g.len() implies (#[trigger] g[i]).start <= (
            #[trigger] g[j]).start by {
                assert(g[j].start > g[i].end + gap);
                assert(g[i].wf());
            }
        }
        lemma_sort_sorted_id(g);
        if g.len() == 0 {
            assert(merge_group(g, gap) =~= g);
        } else {
            let grest = g.drop_first();
            assert forall|k: int| 0 <= k < grest.len() implies (#[trigger] grest[k]) == g[k
                + 1] by {}
            lemma_sweep_separated_id(g[0], grest, gap);
            assert(seq![g[0]] + grest =~= g);
            assert(merge_group(g, gap) == g);
        }
    } else {
    }
}

/// Merging is idempotent: merging an already merged peak list with the
/// same maximum gap returns it unchanged.
pub proof fn lemma_merged_idempotent(s: Seq<GenomicRangeView>, gap: int)
    requires
        gap >= 0,
        all_wf(s),
    ensures
        merged(merged(s, gap), gap) == merged(s, gap),
{
    let cs = chrom_order(s);
    lemma_chrom_order_props(s);
    assert forall|k: int| 0 <= k < cs.len() implies of_chrom(s, #[trigger] cs[k]).len() > 0 by {
        assert(cs.contains(cs[k]));
        let w = choose|w: int| 0 <= w < s.len() && (#[trigger] s[w]).chrom == cs[k];
        s.lemma_filter_contains(|b: GenomicRangeView| b.chrom == cs[k], w);
        assert(of_chrom(s, cs[k]).contains(s[w]));
        let v = choose|v: int|
            0 <= v < of_chrom(s, cs[k]).len() && of_chrom(s, cs[k])[v] == s[w];
    }
    lemma_merge_chroms_shape(cs, s, gap);
    let m = merged(s, gap);
    assert(chrom_order(m) == cs);
    lemma_rebuild(cs, cs, s, gap);
}

/// The bins of one chromosome are uniform: non-empty, equal-width,
/// contiguous and ascending.
pub proof fn lemma_chrom_bins_uniform(name: Seq<char>, length: u32, step: u32)
    requires
        step >= 1,
    ensures
        uniform_bins(chrom_bins(name, length, step)),
{
    let bins = chrom_bins(name, length, step);
    assert forall|i: int| 0 <= i < bins.len() implies (#[trigger] bins[i]).wf() by {
        assert((i + 1) * step as int == i * step as int + step as int) by (nonlinear_arith);
    }
    assert forall|i: int, j: int|
        0 <= i < j < bins.len() && (#[trigger] bins[i]).chrom == (#[trigger] bins[j]).chrom implies
        bins[j].width() == bins[i].width() && bins[j].start == bins[i].start + (j - i)
            * bins[i].width() by {
        assert((i + 1) * step as int == i * step as int + step as int) by (nonlinear_arith);
        assert((j + 1) * step as int == j * step as int + step as int) by (nonlinear_arith);
        assert(j * step as int == i * step as int + (j - i) * (step as int)) by (nonlinear_arith);
    }
}

/// Qualifying keeps only pairs of the input, so their bins stay
/// well-formed.
proof fn lemma_qualifying_wf(pairs: Seq<(GenomicRangeView, int)>, min_reads: int)
    requires
        forall|i: int| 0 <= i < pairs.len() ==> (#[trigger] pairs[i]).0.wf(),
    ensures
        forall|k: int|
            0 <= k < qualifying(pairs, min_reads).len() ==> (#[trigger] qualifying(
                pairs,
                min_reads,
            )[k]).0.wf(),
    decreases pairs.len(),
{
    reveal(Seq::filter);
    if pairs.len() > 0 {
        let front = pairs.drop_last();
        assert forall|k: int| 0 <= k < front.len() implies (#[trigger] front[k]) == pairs[k] by {}
        lemma_qualifying_wf(front, min_reads);
        let out = qualifying(pairs, min_reads);
        let fout = qualifying(front, min_reads);
        assert forall|k: int| 0 <= k < out.len() implies (#[trigger] out[k]).0.wf() by {
            if k < fout.len() {
                assert(out[k] == fout[k]);
            } else {
                assert(out[k] == pairs.last());
            }
        }
    }
}

/// Annotating qualifying bins with scores keeps them well-formed.
proof fn lemma_significant_wf(quals: Seq<GenomicRangeView>, posts: Seq<int>, threshold: int)
    requires
        forall|k: int| 0 <= k < quals.len() ==> (#[trigger] quals[k]).wf(),
        posts.len() == quals.len(),
    ensures
        all_wf(significant(quals, posts, threshold)),
    decreases quals.len(),
{
    if quals.len() > 0 {
        let qf = quals.drop_last();
        let pf = posts.drop_last();
        assert forall|k: int| 0 <= k < qf.len() implies (#[trigger] qf[k]) == quals[k] by {}
        lemma_significant_wf(qf, pf, threshold);
        let out = significant(quals, posts, threshold);
        let fout = significant(qf, pf, threshold);
        assert forall|k: int| 0 <= k < out.len() implies (#[trigger] out[k]).wf() by {
            if k < fout.len() {
                assert(out[k] == fout[k]);
            }
        }
    }
}

/// The configured per-chromosome pipeline: catalog, alignment samples and
/// significance model, driven one chromosome at a time.
pub struct PeakCaller {
    cli: Cli,
    genome: Genome,
    bam_processor: BamProcessor,
    bayesian_model: BayesianModel,
}

/// The final list of called peaks.
pub struct Peaks {
    pub ranges: Vec<GenomicRange>,
}

impl PeakCaller {
    /// The run's configuration, after the broad-mode adjustment.
    pub closed spec fn cfg(&self) -> Cli {
        self.cli
    }

    /// The chromosome catalog.
    pub closed spec fn catalog(&self) -> Genome {
        self.genome
    }

    /// The alignment samples.
    pub closed spec fn processor(&self) -> BamProcessor {
        self.bam_processor
    }

    pub closed spec fn wf(&self) -> bool {
        &&& self.cli.valid()
        &&& self.genome.wf()
        &&& self.bam_processor.wf()
        &&& self.bayesian_model.threshold_ppm() == self.cli.posterior_threshold_ppm as int
        &&& self.bayesian_model.min_reads_spec() == self.cli.minreads as int
    }

    /// Configure a run: copy the configuration, apply the broad-mode bin
    /// width, and set up the significance model with the run's thresholds.
    pub fn new(cli: &Cli, genome: Genome, bam_processor: BamProcessor) -> (r: PeakCaller)
        requires
            cli.valid(),
            genome.wf(),
            bam_processor.wf(),
        ensures
            r.wf(),
            r.cfg().step == if cli.broad {
                5000u32
            } else {
                cli.step
            },
            r.cfg().mdist == cli.mdist,
            r.cfg().minwidth == cli.minwidth,
            r.cfg().minreads == cli.minreads,
            r.cfg().posterior_threshold_ppm == cli.posterior_threshold_ppm,
            r.catalog() == genome,
            r.processor() == bam_processor,
    {
        let mut cli_copy = cli.duplicate();
        cli_copy.adjust_for_broad_peaks();
        let bayesian_model = BayesianModel::new(cli.posterior_threshold_ppm, cli.minreads);
        PeakCaller { cli: cli_copy, genome, bam_processor, bayesian_model }
    }

    /// The significance model this run scores with.
    pub fn bayesian_model(&self) -> (r: &BayesianModel)
        requires
            self.wf(),
        ensures
            r.threshold_ppm() == self.cfg().posterior_threshold_ppm as int,
            r.min_reads_spec() == self.cfg().minreads as int,
    {
        &self.bayesian_model
    }

    /// The bins tiling chromosome `c` at the configured width.
    pub open spec fn chromosome_bins(&self, c: Seq<char>) -> Seq<GenomicRangeView> {
        let names = self.catalog().names();
        let fi = first_index(names, c);
        if fi == -1 {
            Seq::empty()
        } else {
            chrom_bins(names[fi], self.catalog().lengths@[fi], self.cfg().step)
        }
    }

    /// Bin one chromosome and count reads in its bins, normalized against
    /// the control sample when one is configured.
    pub fn count_chromosome(&self, chrom: &str) -> (r: Vec<(GenomicRange, u64)>)
        requires
            self.wf(),
        ensures
            r@.len() == self.chromosome_bins(chrom@).len(),
            forall|i: int|
                0 <= i < r@.len() ==> (#[trigger] r@[i]).0@ == self.chromosome_bins(chrom@)[i]
                    && r@[i].1 as int == expected_count(
                    self.chromosome_bins(chrom@)[i],
                    self.processor().treatment(),
                    self.processor().control(),
                ),
    {
        let bins = self.genome.create_bins(self.cli.step, Some(chrom));
        proof {
            let bviews = bins@.map_values(|b: GenomicRange| b@);
            assert(bviews == self.chromosome_bins(chrom@)) by {
                if first_index(self.genome.names(), chrom@) == -1 {
                    assert(bviews =~= self.chromosome_bins(chrom@));
                }
            }
            if first_index(self.genome.names(), chrom@) == -1 {
                assert(uniform_bins(bviews)) by {
                    assert(bviews.len() == 0);
                }
            } else {
                lemma_chrom_bins_uniform(
                    self.genome.names()[first_index(self.genome.names(), chrom@)],
                    self.genome.lengths@[first_index(self.genome.names(), chrom@)],
                    self.cli.step,
                );
            }
        }
        self.bam_processor.count_reads_in_bins(&bins)
    }

    /// Merge bins into peaks under the maximum-gap rule, chromosome by
    /// chromosome, per [`merged`].
    pub fn merge_bins_into_peaks(&self, bins: Vec<GenomicRange>, max_distance: u32) -> (r: Vec<
        GenomicRange,
    >)
        ensures
            r@.map_values(|b: GenomicRange| b@) == merged(
                bins@.map_values(|b: GenomicRange| b@),
                max_distance as int,
            ),
    {
        let ghost views = bins@.map_values(|b: GenomicRange| b@);
        let order = chrom_order_exec(&bins);
        let ghost names = order@.map_values(|s: String| s@);
        let cn = order.len();
        let mut result: Vec<GenomicRange> = Vec::new();
        let mut ci: usize = 0;
        proof {
            assert(names.take(0) =~= Seq::<Seq<char>>::empty());
            assert(result@.map_values(|b: GenomicRange| b@) =~= merge_chroms(
                names.take(0),
                views,
                max_distance as int,
            ));
        }
        while ci < cn
            invariant
                0 <= ci <= cn,
                cn == order@.len(),
                views == bins@.map_values(|b: GenomicRange| b@),
                names == order@.map_values(|s: String| s@),
                names == chrom_order(views),
                result@.map_values(|b: GenomicRange| b@) == merge_chroms(
                    names.take(ci as int),
                    views,
                    max_distance as int,
                ),
            decreases cn - ci,
        {
            proof {
                assert(names.take(ci as int + 1).drop_last() =~= names.take(ci as int));
                assert(names.take(ci as int + 1).last() == names[ci as int]);
                assert(names[ci as int] == order@[ci as int]@);
            }
            let group = collect_chrom(&bins, &order[ci]);
            let sorted = sort_bins(group);
            let mut peaks = sweep_bins(sorted, max_distance);
            let ghost old_result = result@;
            let ghost peak_views = peaks@.map_values(|b: GenomicRange| b@);
            result.append(&mut peaks);
            proof {
                assert(result@.map_values(|b: GenomicRange| b@) =~= old_result.map_values(
                    |b: GenomicRange| b@,
                ) + peak_views);
                assert(result@.map_values(|b: GenomicRange| b@) =~= merge_chroms(
                    names.take(ci as int + 1),
                    views,
                    max_distance as int,
                ));
            }
            ci = ci + 1;
        }
        proof {
            assert(names.take(cn as int) =~= names);
        }
        result
    }

    /// One chromosome's scored input: its bins, each with the count the
    /// counting stage owes it.
    pub open spec fn chromosome_scored(&self, k: int) -> Seq<(GenomicRangeView, int)> {
        let bins = self.chromosome_bins(self.catalog().names()[k]);
        Seq::new(
            bins.len(),
            |i: int|
                (
                    bins[i],
                    expected_count(
                        bins[i],
                        self.processor().treatment(),
                        self.processor().control(),
                    ),
                ),
        )
    }

    /// One chromosome's final peaks, given the posteriors of its
    /// qualifying bins: threshold, merge, width-filter.
    pub open spec fn chromosome_peaks(&self, k: int, posts: Seq<int>) -> Seq<GenomicRangeView> {
        width_filtered(
            merged(
                significant(
                    qualifying(self.chromosome_scored(k), self.cfg().minreads as int).map_values(
                        |pr: (GenomicRangeView, int)| pr.0,
                    ),
                    posts,
                    self.cfg().posterior_threshold_ppm as int,
                ),
                self.cfg().mdist as int,
            ),
            self.cfg().minwidth as int,
        )
    }

    /// The concatenated peaks of the first `k` chromosomes.
    pub open spec fn peaks_upto(&self, posteriors: Seq<Seq<int>>, k: int) -> Seq<GenomicRangeView>
        decreases k,
    {
        if k <= 0 {
            Seq::empty()
        } else {
            self.peaks_upto(posteriors, k - 1) + self.chromosome_peaks(k - 1, posteriors[k - 1])
        }
    }

    /// Threshold one chromosome's scored bins, merge the significant ones
    /// into peaks under the configured gap, and drop the narrow ones.
    pub fn assemble_chromosome(
        &self,
        bin_counts: &Vec<(GenomicRange, u64)>,
        posterior_ppm: &Vec<u32>,
    ) -> (r: Vec<GenomicRange>)
        requires
            self.wf(),
            forall|i: int| 0 <= i < bin_counts@.len() ==> (#[trigger] bin_counts@[i]).0@.wf(),
            posterior_ppm@.len() == qualifying(
                pair_views(bin_counts@),
                self.cfg().minreads as int,
            ).len(),
            forall|i: int| 0 <= i < posterior_ppm@.len() ==> posterior_ppm@[i] <= PPM_SCALE,
        ensures
            r@.map_values(|b: GenomicRange| b@) == width_filtered(
                merged(
                    significant(
                        qualifying(pair_views(bin_counts@), self.cfg().minreads as int).map_values(
                            |pr: (GenomicRangeView, int)| pr.0,
                        ),
                        posterior_ppm@.map_values(|x: u32| x as int),
                        self.cfg().posterior_threshold_ppm as int,
                    ),
                    self.cfg().mdist as int,
                ),
                self.cfg().minwidth as int,
            ),
    {
        let sig = self.bayesian_model.identify_significant_bins(bin_counts, posterior_ppm);
        proof {
            let pviews = pair_views(bin_counts@);
            assert forall|i: int| 0 <= i < pviews.len() implies (#[trigger] pviews[i]).0.wf() by {
                assert(pviews[i].0 == bin_counts@[i].0@);
            }
            lemma_qualifying_wf(pviews, self.cfg().minreads as int);
            let quals = qualifying(pviews, self.cfg().minreads as int).map_values(
                |pr: (GenomicRangeView, int)| pr.0,
            );
            assert forall|k: int| 0 <= k < quals.len() implies (#[trigger] quals[k]).wf() by {
                assert(quals[k] == qualifying(pviews, self.cfg().minreads as int)[k].0);
            }
            lemma_significant_wf(
                quals,
                posterior_ppm@.map_values(|x: u32| x as int),
                self.cfg().posterior_threshold_ppm as int,
            );
            let sviews = sig@.map_values(|b: GenomicRange| b@);
            assert forall|i: int| 0 <= i < sig@.len() implies (#[trigger] sig@[i])@.wf() by {
                assert(sviews[i] == sig@[i]@);
            }
            lemma_merged_separated(sviews, self.cfg().mdist as int);
        }
        let merged_peaks = self.merge_bins_into_peaks(sig, self.cli.mdist);
        proof {
            let mviews = merged_peaks@.map_values(|b: GenomicRange| b@);
            assert forall|i: int| 0 <= i < merged_peaks@.len() implies (
            #[trigger] merged_peaks@[i])@.wf() by {
                assert(mviews[i] == merged_peaks@[i]@);
            }
        }
        self.filter_peaks_by_width(merged_peaks, self.cli.minwidth)
    }

    /// Run the whole pipeline, one chromosome after the other: bin,
    /// count, threshold on the supplied posteriors, merge and filter,
    /// concatenating every chromosome's peaks in catalog order.
    ///
    /// `posterior_ppm[k]` carries the posteriors (parts per million) of
    /// chromosome `k`'s qualifying bins, in order, as the scoring stage
    /// produced them.
    pub fn call_peaks(&self, posterior_ppm: &Vec<Vec<u32>>) -> (r: Peaks)
        requires
            self.wf(),
            posterior_ppm@.len() == self.catalog().seqnames@.len(),
            forall|k: int|
                0 <= k < posterior_ppm@.len() ==> (#[trigger] posterior_ppm@[k])@.len()
                    == qualifying(self.chromosome_scored(k), self.cfg().minreads as int).len(),
            forall|k: int, i: int|
                0 <= k < posterior_ppm@.len() && 0 <= i < posterior_ppm@[k]@.len() ==> (
                #[trigger] posterior_ppm@[k]@[i]) <= PPM_SCALE,
        ensures
            r.ranges@.map_values(|b: GenomicRange| b@) == self.peaks_upto(
                posterior_ppm@.map_values(|v: Vec<u32>| v@.map_values(|x: u32| x as int)),
                self.catalog().seqnames@.len() as int,
            ),
    {
        let ghost posts = posterior_ppm@.map_values(|v: Vec<u32>| v@.map_values(|x: u32| x as int));
        let n = self.genome.seqnames.len();
        let mut ranges: Vec<GenomicRange> = Vec::new();
        let mut k: usize = 0;
        while k < n
            invariant
                0 <= k <= n,
                self.wf(),
                n == self.catalog().seqnames@.len(),
                n == posterior_ppm@.len(),
                posts == posterior_ppm@.map_values(|v: Vec<u32>| v@.map_values(|x: u32| x as int)),
                forall|j: int|
                    0 <= j < posterior_ppm@.len() ==> (#[trigger] posterior_ppm@[j])@.len()
                        == qualifying(self.chromosome_scored(j), self.cfg().minreads as int).len(),
                forall|j: int, i: int|
                    0 <= j < posterior_ppm@.len() && 0 <= i < posterior_ppm@[j]@.len() ==> (
                    #[trigger] posterior_ppm@[j]@[i]) <= PPM_SCALE,
                ranges@.map_values(|b: GenomicRange| b@) == self.peaks_upto(posts, k as int),
            decreases n - k,
        {
            let chrom = &self.genome.seqnames[k];
            let counts = self.count_chromosome(chrom.as_str());
            proof {
                assert(self.catalog().names()[k as int] == chrom@);
                assert(pair_views(counts@) =~= self.chromosome_scored(k as int));
                assert forall|i: int| 0 <= i < counts@.len() implies (
                #[trigger] counts@[i]).0@.wf() by {
                    let bins = self.chromosome_bins(chrom@);
                    if first_index(self.catalog().names(), chrom@) != -1 {
                        lemma_chrom_bins_uniform(
                            self.catalog().names()[first_index(self.catalog().names(), chrom@)],
                            self.catalog().lengths@[first_index(self.catalog().names(), chrom@)],
                            self.cfg().step,
                        );
                        assert(bins[i].wf());
                    }
                }
            }
            let chrom_peaks = self.assemble_chromosome(&counts, &posterior_ppm[k]);
            let ghost old_ranges = ranges@;
            let mut tail = chrom_peaks;
            let ghost tail_views = tail@.map_values(|b: GenomicRange| b@);
            ranges.append(&mut tail);
            proof {
                assert(posts[k as int] == posterior_ppm@[k as int]@.map_values(
                    |x: u32| x as int,
                ));
                assert(tail_views == self.chromosome_peaks(k as int, posts[k as int]));
                assert(ranges@.map_values(|b: GenomicRange| b@) =~= old_ranges.map_values(
                    |b: GenomicRange| b@,
                ) + tail_views);
                assert(ranges@.map_values(|b: GenomicRange| b@) =~= self.peaks_upto(
                    posts,
                    k as int + 1,
                ));
            }
            k = k + 1;
        }
        Peaks { ranges }
    }

    /// Drop every peak narrower than `min_width`.
    pub fn filter_peaks_by_width(&self, peaks: Vec<GenomicRange>, min_width: u32) -> (r: Vec<
        GenomicRange,
    >)
        requires
            forall|i: int| 0 <= i < peaks@.len() ==> (#[trigger] peaks@[i])@.wf(),
        ensures
            r@.map_values(|b: GenomicRange| b@) == width_filtered(
                peaks@.map_values(|b: GenomicRange| b@),
                min_width as int,
            ),
            forall|i: int| 0 <= i < r@.len() ==> (#[trigger] r@[i])@.width() >= min_width as int,
    {
        let ghost views = peaks@.map_values(|b: GenomicRange| b@);
        let n = peaks.len();
        let mut out: Vec<GenomicRange> = Vec::new();
        let mut i: usize = 0;
        proof {
            assert(views.take(0) =~= Seq::<GenomicRangeView>::empty());
            reveal(Seq::filter);
        }
        while i < n
            invariant
                0 <= i <= n,
                n == peaks@.len(),
                forall|k: int| 0 <= k < peaks@.len() ==> (#[trigger] peaks@[k])@.wf(),
                views == peaks@.map_values(|b: GenomicRange| b@),
                out@.map_values(|b: GenomicRange| b@) == width_filtered(
                    views.take(i as int),
                    min_width as int,
                ),
                forall|k: int|
                    0 <= k < out@.len() ==> (#[trigger] out@[k])@.width() >= min_width as int,
            decreases n - i,
        {
            proof {
                assert(views.take(i as int + 1).drop_last() =~= views.take(i as int));
                assert(views.take(i as int + 1).last() == views[i as int]);
                reveal(Seq::filter);
            }
            let ghost old_out = out@;
            let p = &peaks[i];
            proof {
                assert(peaks@[i as int]@.wf());
            }
            if p.end - p.start >= min_width {
                out.push(p.duplicate());
            }
            proof {
                assert(out@.map_values(|b: GenomicRange| b@) =~= width_filtered(
                    views.take(i as int + 1),
                    min_width as int,
                ));
            }
            i = i + 1;
        }
        proof {
            assert(views.take(n as int) =~= views);
        }
        out
    }
}

} // verus!
