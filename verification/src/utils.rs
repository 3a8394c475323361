//! Small verified helpers: path-name dissection and number formatting for
//! the run report.

use vstd::prelude::*;

use crate::text::{dec_digits, u64_to_string};

verus! {

/// Index just after the last `/` of `s`, or 0 when there is none: where
/// the file name begins.
pub open spec fn base_start(s: Seq<char>) -> int
    decreases s.len(),
{
    if s.len() == 0 {
        0
    } else if s.last() == '/' {
        s.len() as int
    } else {
        base_start(s.drop_last())
    }
}

pub proof fn lemma_base_start_props(s: Seq<char>)
    ensures
        0 <= base_start(s) <= s.len(),
        base_start(s) > 0 ==> s[base_start(s) - 1] == '/',
        forall|k: int| base_start(s) <= k < s.len() ==> s[k] != '/',
    decreases s.len(),
{
    if s.len() > 0 && s.last() != '/' {
        lemma_base_start_props(s.drop_last());
        assert forall|k: int| base_start(s) <= k < s.len() implies s[k] != '/' by {
            if k < s.len() - 1 {
                assert(s.drop_last()[k] == s[k]);
            }
        }
    }
}

/// The file name of a path: everything after its last `/`.
pub open spec fn base_name(s: Seq<char>) -> Seq<char> {
    s.subrange(base_start(s), s.len() as int)
}

/// Index of the last `.` of `s`, or -1 when there is none.
pub open spec fn last_dot(s: Seq<char>) -> int
    decreases s.len(),
{
    if s.len() == 0 {
        -1
    } else if s.last() == '.' {
        s.len() - 1
    } else {
        last_dot(s.drop_last())
    }
}

pub proof fn lemma_last_dot_props(s: Seq<char>)
    ensures
        -1 <= last_dot(s) < s.len(),
        last_dot(s) >= 0 ==> s[last_dot(s)] == '.',
        forall|k: int| last_dot(s) < k < s.len() ==> s[k] != '.',
    decreases s.len(),
{
    if s.len() > 0 && s.last() != '.' {
        lemma_last_dot_props(s.drop_last());
        assert forall|k: int| last_dot(s) < k < s.len() implies s[k] != '.' by {
            if k < s.len() - 1 {
                assert(s.drop_last()[k] == s[k]);
            }
        }
    }
}

/// The stem of a path's file name: the part before its last dot.  A name
/// without a dot, or with only a leading dot, is its own stem; a path
/// with an empty file name has none.
pub open spec fn stem_of(path: Seq<char>) -> Option<Seq<char>> {
    let base = base_name(path);
    if base.len() == 0 {
        None
    } else {
        let d = last_dot(base);
        if d <= 0 {
            Some(base)
        } else {
            Some(base.subrange(0, d))
        }
    }
}

/// The extension of a path's file name: what follows its last dot, absent
/// when there is no dot or only a leading one.
pub open spec fn extension_of(path: Seq<char>) -> Option<Seq<char>> {
    let base = base_name(path);
    let d = last_dot(base);
    if d <= 0 {
        None
    } else {
        Some(base.subrange(d + 1, base.len() as int))
    }
}

/// Where the file name of `path` begins.
fn find_base_start(path: &str) -> (r: usize)
    ensures
        r as int == base_start(path@),
        r <= path@.len(),
{
    let len = path.unicode_len();
    let mut i: usize = len;
    while i > 0
        invariant
            0 <= i <= len,
            len == path@.len(),
            forall|k: int| i <= k < len ==> path@[k] != '/',
        decreases i,
    {
        if path.get_char(i - 1) == '/' {
            proof {
                lemma_base_start_props(path@);
            }
            return i;
        }
        i = i - 1;
    }
    proof {
        lemma_base_start_props(path@);
    }
    0
}

/// Index of the last dot of `path` at or after `from`, if any.
fn find_last_dot_from(path: &str, from: usize) -> (r: Option<usize>)
    requires
        from <= path@.len(),
    ensures
        match r {
            Some(d) => from <= d < path@.len() && last_dot(
                path@.subrange(from as int, path@.len() as int),
            ) == d - from,
            None => last_dot(path@.subrange(from as int, path@.len() as int)) == -1,
        },
{
    let ghost tail = path@.subrange(from as int, path@.len() as int);
    let len = path.unicode_len();
    let mut i: usize = len;
    while i > from
        invariant
            from <= i <= len,
            len == path@.len(),
            tail == path@.subrange(from as int, path@.len() as int),
            forall|k: int| i <= k < len ==> path@[k] != '.',
        decreases i,
    {
        if path.get_char(i - 1) == '.' {
            proof {
                lemma_last_dot_props(tail);
                assert(tail[i - 1 - from] == path@[i - 1]);
                assert forall|k: int| i - 1 - from < k < tail.len() implies tail[k] != '.' by {
                    assert(tail[k] == path@[from + k]);
                }
            }
            return Some(i - 1);
        }
        i = i - 1;
    }
    proof {
        lemma_last_dot_props(tail);
        assert forall|k: int| 0 <= k < tail.len() implies tail[k] != '.' by {
            assert(tail[k] == path@[from + k]);
        }
    }
    None
}

/// The stem of `path`'s file name, per [`stem_of`].
pub fn file_stem(path: &str) -> (r: Option<String>)
    ensures
        match r {
            Some(s) => stem_of(path@) == Some(s@),
            None => stem_of(path@) is None,
        },
{
    let len = path.unicode_len();
    let b = find_base_start(path);
    if b == len {
        return None;
    }
    let ghost base = base_name(path@);
    proof {
        assert(base.len() == len - b);
    }
    match find_last_dot_from(path, b) {
        Some(d) => {
            if d == b {
                let whole = path.substring_char(b, len).to_owned();
                proof {
                    assert(whole@ =~= base);
                }
                Some(whole)
            } else {
                let stem = path.substring_char(b, d).to_owned();
                proof {
                    assert(stem@ =~= base.subrange(0, d - b));
                }
                Some(stem)
            }
        },
        None => {
            let whole = path.substring_char(b, len).to_owned();
            proof {
                assert(whole@ =~= base);
            }
            Some(whole)
        },
    }
}

/// The extension of `path`'s file name, per [`extension_of`].
pub fn file_extension(path: &str) -> (r: Option<String>)
    ensures
        match r {
            Some(s) => extension_of(path@) == Some(s@),
            None => extension_of(path@) is None,
        },
{
    let len = path.unicode_len();
    let b = find_base_start(path);
    if b == len {
        proof {
            assert(base_name(path@) =~= Seq::<char>::empty());
        }
        return None;
    }
    let ghost base = base_name(path@);
    proof {
        assert(base.len() == len - b);
    }
    match find_last_dot_from(path, b) {
        Some(d) => {
            if d == b {
                None
            } else {
                let ext = path.substring_char(d + 1, len).to_owned();
                proof {
                    assert(ext@ =~= base.subrange(d - b + 1, base.len() as int));
                }
                Some(ext)
            }
        },
        None => None,
    }
}

/// The digits of `ds` from position `i` on, with a comma after every
/// position that has a multiple of three digits after it.
pub open spec fn with_commas(ds: Seq<char>, i: int) -> Seq<char>
    decreases ds.len() - i,
{
    if i < 0 || i >= ds.len() {
        Seq::empty()
    } else {
        let rest = with_commas(ds, i + 1);
        if (ds.len() - i - 1) % 3 == 0 && i < ds.len() - 1 {
            seq![ds[i], ','] + rest
        } else {
            seq![ds[i]] + rest
        }
    }
}

/// Render `num` in decimal with thousands separators.
pub fn format_with_commas(num: usize) -> (r: String)
    ensures
        r@ == with_commas(dec_digits(num as int), 0),
{
    let digits = u64_to_string(num as u64);
    let ghost dv = dec_digits(num as int);
    let dlen = digits.as_str().unicode_len();
    let mut out = String::new();
    let mut i: usize = 0;
    proof {
        assert(out@ + with_commas(dv, 0) =~= with_commas(dv, 0));
    }
    while i < dlen
        invariant
            0 <= i <= dlen,
            dlen == dv.len(),
            digits@ == dv,
            with_commas(dv, 0) == out@ + with_commas(dv, i as int),
        decreases dlen - i,
    {
        let piece = digits.as_str().substring_char(i, i + 1);
        let ghost before = out@;
        out.append(piece);
        if (dlen - i - 1) % 3 == 0 && i < dlen - 1 {
            out.append(",");
            proof {
                reveal_strlit(",");
                assert(piece@ =~= seq![dv[i as int]]);
                assert(out@ =~= before + seq![dv[i as int], ',']);
                assert(out@ + with_commas(dv, i as int + 1) =~= before + with_commas(
                    dv,
                    i as int,
                ));
            }
        } else {
            proof {
                assert(piece@ =~= seq![dv[i as int]]);
                assert(out@ + with_commas(dv, i as int + 1) =~= before + with_commas(
                    dv,
                    i as int,
                ));
            }
        }
        i = i + 1;
    }
    proof {
        assert(with_commas(dv, dlen as int) =~= Seq::<char>::empty());
        assert(out@ =~= with_commas(dv, 0));
    }
    out
}

} // verus!
