//! The genome catalog: an ordered table of chromosome names and lengths,
//! the source of the fixed-width bins that every later stage works on.

use vstd::prelude::*;

use crate::bam::{GenomicRange, GenomicRangeView};
use crate::error::PipelineError;
use crate::text::{
    contains_seq, dec_value, first_two_tokens, is_u32_numeral, parse_u32, split_lines,
    split_lines_exec, str_contains, str_eq, ws_tokens,
};

verus! {

/// The rows of a catalog table: for every line with at least two
/// whitespace-separated tokens, its first two tokens (name, length);
/// narrower lines are skipped.
pub open spec fn rows_of(lines: Seq<Seq<char>>) -> Seq<(Seq<char>, Seq<char>)> {
    lines.filter(|l: Seq<char>| ws_tokens(l).len() >= 2).map_values(
        |l: Seq<char>| (ws_tokens(l)[0], ws_tokens(l)[1]),
    )
}

/// The rows of `text` read as a catalog table.
pub open spec fn table_rows(text: Seq<char>) -> Seq<(Seq<char>, Seq<char>)> {
    rows_of(split_lines(text))
}

/// `text` parses as a catalog: at least one row, and every row's length
/// column is a decimal `u32`.
pub open spec fn table_ok(text: Seq<char>) -> bool {
    table_rows(text).len() > 0 && forall|i: int|
        0 <= i < table_rows(text).len() ==> is_u32_numeral(#[trigger] table_rows(text)[i].1)
}

/// Names matching any of these patterns are dropped from a catalog read
/// from an alignment-file header: unplaced/unlocalized contigs (`Un`, `_`),
/// the Epstein-Barr decoy contig (`EBV`), and the single-letter
/// mitochondrial/ambiguous markers (`M`, `N`).  Matching is by raw
/// substring, as broad as it looks: any name containing the letters is
/// excluded.
pub open spec fn excluded_name(name: Seq<char>) -> bool {
    contains_seq(name, "Un"@) || contains_seq(name, "_"@) || contains_seq(name, "EBV"@)
        || contains_seq(name, "N"@) || contains_seq(name, "M"@)
}

/// The retained (name, length) pairs of a catalog, in order.
pub open spec fn keep_known(pairs: Seq<(Seq<char>, u32)>) -> Seq<(Seq<char>, u32)> {
    pairs.filter(|p: (Seq<char>, u32)| !excluded_name(p.0))
}

/// A chromosome of length `L` tiled at width `W` yields exactly
/// `L / W` bins, the `i`-th covering `[i * W, (i + 1) * W)`.
pub proof fn lemma_chrom_bins_shape(name: Seq<char>, length: u32, step: u32)
    requires
        step >= 1,
    ensures
        chrom_bins(name, length, step).len() == length as int / step as int,
        forall|i: int|
            0 <= i < chrom_bins(name, length, step).len() ==> (#[trigger] chrom_bins(
                name,
                length,
                step,
            )[i]).start == i * step as int && chrom_bins(name, length, step)[i].end == (i + 1)
                * step as int && chrom_bins(name, length, step)[i].chrom == name,
{
    vstd::arithmetic::div_mod::lemma_div_pos_is_pos(length as int, step as int);
}

/// The bins tiling one chromosome: `length / step` of them, the `i`-th
/// covering `[i * step, (i + 1) * step)`; the trailing remainder shorter
/// than `step` is dropped.  Scores start at zero.
pub open spec fn chrom_bins(name: Seq<char>, length: u32, step: u32) -> Seq<GenomicRangeView> {
    Seq::new(
        (length as int / step as int) as nat,
        |i: int|
            GenomicRangeView {
                chrom: name,
                start: i * step as int,
                end: (i + 1) * step as int,
                posterior_ppm: 0,
            },
    )
}

/// The bins of a whole catalog: chromosomes in catalog order, bins in
/// ascending start order within each chromosome.
pub open spec fn catalog_bins(names: Seq<Seq<char>>, lengths: Seq<u32>, step: u32) -> Seq<
    GenomicRangeView,
>
    decreases names.len(),
{
    if names.len() == 0 {
        Seq::empty()
    } else {
        catalog_bins(names.drop_last(), lengths.drop_last(), step) + chrom_bins(
            names.last(),
            lengths[names.len() - 1],
            step,
        )
    }
}

/// Index of the first occurrence of `name` in `names`, or `-1`.
pub open spec fn first_index(names: Seq<Seq<char>>, name: Seq<char>) -> int
    decreases names.len(),
{
    if names.len() == 0 {
        -1
    } else if names[0] == name {
        0
    } else {
        let r = first_index(names.drop_first(), name);
        if r == -1 {
            -1
        } else {
            r + 1
        }
    }
}

pub proof fn lemma_first_index_props(names: Seq<Seq<char>>, name: Seq<char>)
    ensures
        first_index(names, name) == -1 ==> forall|k: int|
            0 <= k < names.len() ==> names[k] != name,
        first_index(names, name) != -1 ==> {
            &&& 0 <= first_index(names, name) < names.len()
            &&& names[first_index(names, name)] == name
            &&& forall|k: int| 0 <= k < first_index(names, name) ==> names[k] != name
        },
    decreases names.len(),
{
    if names.len() > 0 && names[0] != name {
        lemma_first_index_props(names.drop_first(), name);
        if first_index(names.drop_first(), name) == -1 {
            assert forall|k: int| 0 <= k < names.len() implies names[k] != name by {
                if k >= 1 {
                    assert(names.drop_first()[k - 1] == names[k]);
                }
            }
        } else {
            assert forall|k: int| 0 <= k < first_index(names, name) implies names[k] != name by {
                if k >= 1 {
                    assert(names.drop_first()[k - 1] == names[k]);
                }
            }
            assert(names[first_index(names, name)] == names.drop_first()[first_index(
                names.drop_first(),
                name,
            )]);
        }
    }
}

/// An ordered chromosome catalog: `seqnames[i]` has length `lengths[i]`.
#[derive(Debug)]
pub struct Genome {
    pub seqnames: Vec<String>,
    pub lengths: Vec<u32>,
}

impl Genome {
    /// The two columns line up.
    pub open spec fn wf(&self) -> bool {
        self.seqnames@.len() == self.lengths@.len()
    }

    /// The chromosome names as character sequences, in catalog order.
    pub open spec fn names(&self) -> Seq<Seq<char>> {
        self.seqnames@.map_values(|s: String| s@)
    }

    /// The catalog as (name, length) pairs, in order.
    pub open spec fn pairs(&self) -> Seq<(Seq<char>, u32)> {
        Seq::new(self.seqnames@.len(), |i: int| (self.seqnames@[i]@, self.lengths@[i]))
    }

    /// Build a catalog by dropping every entry whose name matches an
    /// exclusion pattern; the surviving entries keep their order.
    pub fn filter_known_chromosomes(seqnames: Vec<String>, lengths: Vec<u32>) -> (r: Genome)
        requires
            seqnames@.len() == lengths@.len(),
        ensures
            r.wf(),
            r.pairs() == keep_known(Seq::new(seqnames@.len(), |i: int| (seqnames@[i]@, lengths@[i]))),
    {
        let ghost all_pairs = Seq::new(seqnames@.len(), |i: int| (seqnames@[i]@, lengths@[i]));
        let mut filtered_seqnames: Vec<String> = Vec::new();
        let mut filtered_lengths: Vec<u32> = Vec::new();
        let n = seqnames.len();
        let mut i: usize = 0;
        while i < n
            invariant
                0 <= i <= n,
                n == seqnames@.len(),
                n == lengths@.len(),
                all_pairs == Seq::new(seqnames@.len(), |k: int| (seqnames@[k]@, lengths@[k])),
                filtered_seqnames@.len() == filtered_lengths@.len(),
                Seq::new(
                    filtered_seqnames@.len(),
                    |k: int| (filtered_seqnames@[k]@, filtered_lengths@[k]),
                ) == keep_known(all_pairs.take(i as int)),
            decreases n - i,
        {
            let name = &seqnames[i];
            let keep = !(str_contains(name.as_str(), "Un") || str_contains(name.as_str(), "_")
                || str_contains(name.as_str(), "EBV") || str_contains(name.as_str(), "N")
                || str_contains(name.as_str(), "M"));
            proof {
                assert(keep == !excluded_name(all_pairs[i as int].0));
                assert(all_pairs.take(i as int + 1).drop_last() =~= all_pairs.take(i as int));
                reveal(Seq::filter);
            }
            let ghost old_names = filtered_seqnames@;
            let ghost old_lens = filtered_lengths@;
            if keep {
                filtered_seqnames.push(name.clone());
                filtered_lengths.push(lengths[i]);
            }
            proof {
                assert(Seq::new(
                    filtered_seqnames@.len(),
                    |k: int| (filtered_seqnames@[k]@, filtered_lengths@[k]),
                ) =~= keep_known(all_pairs.take(i as int + 1)));
            }
            i = i + 1;
        }
        proof {
            assert(all_pairs.take(n as int) =~= all_pairs);
        }
        Genome { seqnames: filtered_seqnames, lengths: filtered_lengths }
    }

    /// Build a catalog from the reference sequences of an alignment-file
    /// header, already decoded to plain (name, length) pairs.  An empty
    /// header is an error; the exclusion filter runs on what remains.
    pub fn from_header(seqnames: Vec<String>, lengths: Vec<u32>) -> (r: Result<
        Genome,
        PipelineError,
    >)
        requires
            seqnames@.len() == lengths@.len(),
        ensures
            match r {
                Ok(g) => seqnames@.len() > 0 && g.wf() && g.pairs() == keep_known(
                    Seq::new(seqnames@.len(), |i: int| (seqnames@[i]@, lengths@[i])),
                ),
                Err(e) => seqnames@.len() == 0 && e is Parse,
            },
    {
        if seqnames.len() == 0 {
            return Err(PipelineError::Parse(String::from_str("no chromosomes found in the header")));
        }
        Ok(Self::filter_known_chromosomes(seqnames, lengths))
    }

    /// Parse a whitespace-delimited two-column table (chromosome name,
    /// integer length) into a catalog.  Lines with fewer than two columns
    /// are skipped; a non-numeric length column, or a table that yields no
    /// entries at all, is a parse error.  No exclusion filter runs here:
    /// an externally supplied table is taken as given.
    pub fn from_text(text: &str) -> (r: Result<Genome, PipelineError>)
        ensures
            match r {
                Ok(g) => {
                    &&& table_ok(text@)
                    &&& g.wf()
                    &&& g.names() == table_rows(text@).map_values(
                        |row: (Seq<char>, Seq<char>)| row.0,
                    )
                    &&& g.lengths@.map_values(|l: u32| l as int) == table_rows(text@).map_values(
                        |row: (Seq<char>, Seq<char>)| dec_value(row.1),
                    )
                },
                Err(e) => !table_ok(text@) && e is Parse,
            },
    {
        let lines = split_lines_exec(text);
        let ghost all_lines = split_lines(text@);
        let n = lines.len();
        let mut seqnames: Vec<String> = Vec::new();
        let mut lengths: Vec<u32> = Vec::new();
        let mut i: usize = 0;
        proof {
            assert(all_lines.take(0) =~= Seq::<Seq<char>>::empty());
            reveal(Seq::filter);
        }
        while i < n
            invariant
                0 <= i <= n,
                n == lines@.len(),
                all_lines == split_lines(text@),
                lines@.map_values(|l: String| l@) == all_lines,
                seqnames@.len() == lengths@.len(),
                seqnames@.len() == rows_of(all_lines.take(i as int)).len(),
                seqnames@.map_values(|s: String| s@) == rows_of(all_lines.take(i as int))
                    .map_values(|row: (Seq<char>, Seq<char>)| row.0),
                lengths@.map_values(|l: u32| l as int) == rows_of(all_lines.take(i as int))
                    .map_values(|row: (Seq<char>, Seq<char>)| dec_value(row.1)),
                forall|j: int|
                    0 <= j < rows_of(all_lines.take(i as int)).len() ==> is_u32_numeral(
                        #[trigger] rows_of(all_lines.take(i as int))[j].1,
                    ),
            decreases n - i,
        {
            let ghost line_view = all_lines[i as int];
            let ghost prefix = all_lines.take(i as int);
            let ghost wide = |l: Seq<char>| ws_tokens(l).len() >= 2;
            proof {
                assert(all_lines.take(i as int + 1).drop_last() =~= prefix);
                assert(all_lines.take(i as int + 1).last() == line_view);
                reveal(Seq::filter);
            }
            match first_two_tokens(lines[i].as_str()) {
                None => {
                    proof {
                        assert(lines@[i as int]@ == line_view);
                        assert(all_lines.take(i as int + 1).filter(wide) == prefix.filter(wide));
                        assert(rows_of(all_lines.take(i as int + 1)) =~= rows_of(prefix));
                    }
                },
                Some(toks) => {
                    let (name, lenstr) = toks;
                    proof {
                        assert(lines@[i as int]@ == line_view);
                        assert(ws_tokens(line_view).len() >= 2);
                        assert(all_lines.take(i as int + 1).filter(wide) == prefix.filter(
                            wide,
                        ).push(line_view));
                        assert(rows_of(all_lines.take(i as int + 1)) =~= rows_of(prefix).push(
                            (ws_tokens(line_view)[0], ws_tokens(line_view)[1]),
                        ));
                    }
                    match parse_u32(lenstr.as_str()) {
                        Some(v) => {
                            let ghost old_names = seqnames@;
                            let ghost old_lens = lengths@;
                            seqnames.push(name);
                            lengths.push(v);
                            proof {
                                assert(seqnames@.map_values(|s: String| s@) =~= old_names
                                    .map_values(|s: String| s@).push(ws_tokens(line_view)[0]));
                                assert(rows_of(all_lines.take(i as int + 1)).map_values(
                                    |row: (Seq<char>, Seq<char>)| row.0,
                                ) =~= rows_of(prefix).map_values(
                                    |row: (Seq<char>, Seq<char>)| row.0,
                                ).push(ws_tokens(line_view)[0]));
                                assert(lengths@.map_values(|l: u32| l as int) =~= old_lens
                                    .map_values(|l: u32| l as int).push(v as int));
                                assert(rows_of(all_lines.take(i as int + 1)).map_values(
                                    |row: (Seq<char>, Seq<char>)| dec_value(row.1),
                                ) =~= rows_of(prefix).map_values(
                                    |row: (Seq<char>, Seq<char>)| dec_value(row.1),
                                ).push(dec_value(ws_tokens(line_view)[1])));
                            }
                        },
                        None => {
                            proof {
                                let bad = rows_of(prefix).len() as int;
                                assert(all_lines =~= all_lines.take(i as int + 1) + all_lines.skip(
                                    i as int + 1,
                                ));
                                Seq::filter_distributes_over_add(
                                    all_lines.take(i as int + 1),
                                    all_lines.skip(i as int + 1),
                                    wide,
                                );
                                assert(all_lines.filter(wide)[bad] == line_view);
                                assert(table_rows(text@)[bad].1 == ws_tokens(line_view)[1]);
                                assert(!is_u32_numeral(table_rows(text@)[bad].1));
                            }
                            let mut msg = String::from_str("failed to parse chromosome length: ");
                            msg.append(lenstr.as_str());
                            return Err(PipelineError::Parse(msg));
                        },
                    }
                },
            }
            i = i + 1;
        }
        proof {
            assert(all_lines.take(n as int) =~= all_lines);
        }
        if seqnames.len() == 0 {
            proof {
                assert(table_rows(text@).len() == 0);
            }
            return Err(
                PipelineError::Parse(String::from_str("no chromosomes found in the table")),
            );
        }
        Ok(Genome { seqnames, lengths })
    }

    /// Tile the selected chromosome, or every chromosome in catalog order,
    /// with contiguous non-overlapping bins of width `step`, dropping the
    /// trailing partial bin.  A chromosome name absent from the catalog
    /// yields no bins.
    pub fn create_bins(&self, step: u32, chrom: Option<&str>) -> (r: Vec<GenomicRange>)
        requires
            self.wf(),
            step >= 1,
        ensures
            match chrom {
                Some(c) => {
                    let fi = first_index(self.names(), c@);
                    if fi == -1 {
                        r@.len() == 0
                    } else {
                        r@.map_values(|b: GenomicRange| b@) == chrom_bins(
                            self.names()[fi],
                            self.lengths@[fi],
                            step,
                        )
                    }
                },
                None => r@.map_values(|b: GenomicRange| b@) == catalog_bins(
                    self.names(),
                    self.lengths@,
                    step,
                ),
            },
    {
        match chrom {
            Some(chromosome) => {
                let n = self.seqnames.len();
                let mut i: usize = 0;
                while i < n
                    invariant
                        0 <= i <= n,
                        self.wf(),
                        step >= 1,
                        chrom == Some(chromosome),
                        n == self.seqnames@.len(),
                        forall|k: int| 0 <= k < i ==> self.names()[k] != chromosome@,
                    decreases n - i,
                {
                    if str_eq(self.seqnames[i].as_str(), chromosome) {
                        proof {
                            assert(self.names()[i as int] == chromosome@);
                            lemma_first_index_props(self.names(), chromosome@);
                            assert(first_index(self.names(), chromosome@) == i as int);
                        }
                        let out = bins_for_chrom(&self.seqnames[i], self.lengths[i], step);
                        proof {
                            let fi = first_index(self.names(), chromosome@);
                            assert(self.names()[fi] == self.seqnames@[i as int]@);
                            assert(out@.map_values(|b: GenomicRange| b@) == chrom_bins(
                                self.names()[fi],
                                self.lengths@[fi],
                                step,
                            ));
                        }
                        return out;
                    }
                    i = i + 1;
                }
                proof {
                    lemma_first_index_props(self.names(), chromosome@);
                }
                Vec::new()
            },
            None => {
                let n = self.seqnames.len();
                let mut bins: Vec<GenomicRange> = Vec::new();
                let mut i: usize = 0;
                while i < n
                    invariant
                        0 <= i <= n,
                        self.wf(),
                        n == self.seqnames@.len(),
                        step >= 1,
                        bins@.map_values(|b: GenomicRange| b@) == catalog_bins(
                            self.names().take(i as int),
                            self.lengths@.take(i as int),
                            step,
                        ),
                    decreases n - i,
                {
                    let mut chrom_part = bins_for_chrom(&self.seqnames[i], self.lengths[i], step);
                    let ghost old_bins = bins@;
                    bins.append(&mut chrom_part);
                    proof {
                        assert(self.names().take(i as int + 1).drop_last() =~= self.names().take(
                            i as int,
                        ));
                        assert(self.lengths@.take(i as int + 1).drop_last() =~= self.lengths@.take(
                            i as int,
                        ));
                        assert(self.names().take(i as int + 1).last() == self.names()[i as int]);
                        assert(bins@.map_values(|b: GenomicRange| b@) =~= catalog_bins(
                            self.names().take(i as int + 1),
                            self.lengths@.take(i as int + 1),
                            step,
                        ));
                    }
                    i = i + 1;
                }
                proof {
                    assert(self.names().take(n as int) =~= self.names());
                    assert(self.lengths@.take(n as int) =~= self.lengths@);
                }
                bins
            },
        }
    }
}

/// `(k + 1) * step <= length` exactly when `k + 1 <= length / step`.
proof fn lemma_bin_count(k: int, step: int, length: int)
    requires
        step >= 1,
        length >= 0,
        k >= 0,
    ensures
        ((k + 1) * step <= length) == (k + 1 <= length / step),
{
    let q = length / step;
    let r = length % step;
    vstd::arithmetic::div_mod::lemma_fundamental_div_mod(length, step);
    assert(0 <= r < step) by {
        vstd::arithmetic::div_mod::lemma_mod_bound(length, step);
    }
    assert(q >= 0) by {
        vstd::arithmetic::div_mod::lemma_div_pos_is_pos(length, step);
    }
    if k + 1 <= q {
        assert((k + 1) * step <= q * step) by (nonlinear_arith)
            requires
                k + 1 <= q,
                step >= 1,
        ;
        assert(q * step <= length) by (nonlinear_arith)
            requires
                length == q * step + r,
                r >= 0,
        ;
    } else {
        assert((k + 1) * step >= (q + 1) * step) by (nonlinear_arith)
            requires
                k + 1 >= q + 1,
                step >= 1,
        ;
        assert((q + 1) * step > length) by (nonlinear_arith)
            requires
                length == q * step + r,
                r < step,
        ;
    }
}

/// The bins tiling one chromosome, ascending from zero.
fn bins_for_chrom(name: &String, length: u32, step: u32) -> (r: Vec<GenomicRange>)
    requires
        step >= 1,
    ensures
        r@.map_values(|b: GenomicRange| b@) == chrom_bins(name@, length, step),
{
    let mut bins: Vec<GenomicRange> = Vec::new();
    let mut start: u32 = 0;
    let mut k: u32 = 0;
    let ghost total = length as int / step as int;
    proof {
        vstd::arithmetic::div_mod::lemma_div_pos_is_pos(length as int, step as int);
        assert(total <= length) by {
            vstd::arithmetic::div_mod::lemma_fundamental_div_mod(length as int, step as int);
            vstd::arithmetic::div_mod::lemma_mod_bound(length as int, step as int);
            assert(total * step as int >= total) by (nonlinear_arith)
                requires
                    step as int >= 1,
                    total >= 0,
            ;
        }
    }
    while (start as u64) + (step as u64) <= length as u64
        invariant
            step >= 1,
            0 <= k,
            k as int <= total,
            total == length as int / step as int,
            total <= length,
            start as int == k as int * step as int,
            start <= length,
            bins@.map_values(|b: GenomicRange| b@) == chrom_bins(name@, length, step).take(k as int),
        decreases length as int - start as int,
    {
        proof {
            assert((k as int + 1) * step as int == k as int * step as int + step as int)
                by (nonlinear_arith);
            lemma_bin_count(k as int, step as int, length as int);
            assert(k as int + 1 <= total);
        }
        let end = start + step;
        let ghost prev = bins@;
        let nb = GenomicRange { chrom: name.clone(), start, end, posterior_ppm: 0 };
        let ghost nbv = nb@;
        bins.push(nb);
        proof {
            assert((k as int + 1) * step as int == k as int * step as int + step as int)
                by (nonlinear_arith);
            assert(nbv == chrom_bins(name@, length, step)[k as int]);
            assert(bins@.map_values(|b: GenomicRange| b@) =~= prev.map_values(
                |b: GenomicRange| b@,
            ).push(nbv));
            assert(chrom_bins(name@, length, step).take(k as int + 1) =~= chrom_bins(
                name@,
                length,
                step,
            ).take(k as int).push(chrom_bins(name@, length, step)[k as int]));
        }
        k = k + 1;
        start = end;
    }
    proof {
        assert((k as int + 1) * step as int == k as int * step as int + step as int)
            by (nonlinear_arith);
        lemma_bin_count(k as int, step as int, length as int);
        assert(k as int == total);
        assert(chrom_bins(name@, length, step).take(k as int) =~= chrom_bins(name@, length, step));
    }
    bins
}

} // verus!
