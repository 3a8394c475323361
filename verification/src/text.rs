//! Verified text utilities: string equality, substring search, and decimal
//! numerals. These are the character-level building blocks of the catalog
//! parser, the chromosome-name exclusion filter and the report formatter.

use vstd::prelude::*;

verus! {

/// True when `needle` occurs as a contiguous run inside `hay`.
pub open spec fn contains_seq(hay: Seq<char>, needle: Seq<char>) -> bool {
    exists|i: int|
        0 <= i && i + needle.len() <= hay.len() && #[trigger] hay.subrange(i, i + needle.len())
            == needle
}

/// A decimal digit.
pub open spec fn is_digit(c: char) -> bool {
    '0' <= c && c <= '9'
}

/// Numeric value of a decimal digit.
pub open spec fn digit_val(c: char) -> int {
    c as int - '0' as int
}

pub open spec fn all_digits(s: Seq<char>) -> bool {
    forall|i: int| 0 <= i < s.len() ==> is_digit(#[trigger] s[i])
}

/// Value of a string of decimal digits, most significant first.
pub open spec fn dec_value(s: Seq<char>) -> int
    decreases s.len(),
{
    if s.len() == 0 {
        0
    } else {
        dec_value(s.drop_last()) * 10 + digit_val(s.last())
    }
}

/// The strings accepted as `u32` lengths: nonempty, digits only, in range.
pub open spec fn is_u32_numeral(s: Seq<char>) -> bool {
    s.len() > 0 && all_digits(s) && dec_value(s) <= u32::MAX as int
}

/// The digit character of `d`, for `0 <= d <= 9`.
pub open spec fn digit_char(d: int) -> char {
    if d == 0 {
        '0'
    } else if d == 1 {
        '1'
    } else if d == 2 {
        '2'
    } else if d == 3 {
        '3'
    } else if d == 4 {
        '4'
    } else if d == 5 {
        '5'
    } else if d == 6 {
        '6'
    } else if d == 7 {
        '7'
    } else if d == 8 {
        '8'
    } else {
        '9'
    }
}

/// The canonical decimal rendering of `n`, without leading zeros.
pub open spec fn dec_digits(n: int) -> Seq<char>
    decreases n,
{
    if n < 10 {
        seq![digit_char(n)]
    } else {
        dec_digits(n / 10).push(digit_char(n % 10))
    }
}

/// Extending a digit string multiplies its value by ten and adds the digit.
pub proof fn lemma_dec_value_step(s: Seq<char>, k: int)
    requires
        0 <= k < s.len(),
    ensures
        dec_value(s.take(k + 1)) == dec_value(s.take(k)) * 10 + digit_val(s[k]),
{
    assert(s.take(k + 1).drop_last() =~= s.take(k));
    assert(s.take(k + 1).last() == s[k]);
}

/// Character-by-character equality of two string slices.
pub fn str_eq(a: &str, b: &str) -> (r: bool)
    ensures
        r == (a@ == b@),
{
    let alen = a.unicode_len();
    let blen = b.unicode_len();
    if alen != blen {
        return false;
    }
    let mut i: usize = 0;
    while i < alen
        invariant
            0 <= i <= alen,
            alen == a@.len(),
            alen == b@.len(),
            forall|k: int| 0 <= k < i ==> a@[k] == b@[k],
        decreases alen - i,
    {
        if a.get_char(i) != b.get_char(i) {
            return false;
        }
        i = i + 1;
    }
    proof {
        assert(a@ =~= b@);
    }
    true
}

/// Whether `needle` matches `hay` at offset `at`.
fn match_at(hay: &str, needle: &str, at: usize) -> (r: bool)
    requires
        at + needle@.len() <= hay@.len(),
    ensures
        r == (hay@.subrange(at as int, at + needle@.len()) == needle@),
{
    let hlen = hay.unicode_len();
    let nlen = needle.unicode_len();
    let mut j: usize = 0;
    while j < nlen
        invariant
            0 <= j <= nlen,
            nlen == needle@.len(),
            hlen == hay@.len(),
            at + nlen <= hlen,
            forall|k: int| 0 <= k < j ==> hay@[at + k] == needle@[k],
        decreases nlen - j,
    {
        if hay.get_char(at + j) != needle.get_char(j) {
            proof {
                assert(hay@.subrange(at as int, at + needle@.len())[j as int] == hay@[at + j]);
            }
            return false;
        }
        j = j + 1;
    }
    proof {
        assert(hay@.subrange(at as int, at + needle@.len()) =~= needle@);
    }
    true
}

/// Substring search: true exactly when `needle` occurs inside `hay`.
pub fn str_contains(hay: &str, needle: &str) -> (r: bool)
    ensures
        r == contains_seq(hay@, needle@),
{
    let hlen = hay.unicode_len();
    let nlen = needle.unicode_len();
    if nlen > hlen {
        return false;
    }
    if nlen == 0 {
        proof {
            assert(hay@.subrange(0, 0 + needle@.len() as int) =~= needle@);
        }
        return true;
    }
    let mut i: usize = 0;
    while i <= hlen - nlen
        invariant
            0 <= i,
            1 <= nlen <= hlen,
            hlen == hay@.len(),
            nlen == needle@.len(),
            forall|k: int|
                0 <= k < i ==> #[trigger] hay@.subrange(k, k + needle@.len()) != needle@,
        decreases hlen + 1 - nlen - i,
    {
        if match_at(hay, needle, i) {
            return true;
        }
        i = i + 1;
    }
    false
}

/// Parse a string of decimal digits as a `u32`.
///
/// Returns `Some` exactly on nonempty all-digit strings whose value fits;
/// a sign, a space or any other character is rejected.
pub fn parse_u32(s: &str) -> (r: Option<u32>)
    ensures
        match r {
            Some(v) => is_u32_numeral(s@) && v as int == dec_value(s@),
            None => !is_u32_numeral(s@),
        },
{
    let len = s.unicode_len();
    if len == 0 {
        return None;
    }
    let mut acc: u64 = 0;
    let mut i: usize = 0;
    while i < len
        invariant
            0 <= i <= len,
            len == s@.len(),
            forall|k: int| 0 <= k < i ==> is_digit(#[trigger] s@[k]),
            acc as int == dec_value(s@.take(i as int)),
            acc <= u32::MAX,
        decreases len - i,
    {
        let c = s.get_char(i);
        let code = c as u32;
        if code < 48 || code > 57 {
            proof {
                assert(!is_digit(s@[i as int]));
            }
            return None;
        }
        let d = (code - 48) as u64;
        proof {
            assert(is_digit(s@[i as int]));
            assert(d as int == digit_val(s@[i as int]));
            lemma_dec_value_step(s@, i as int);
        }
        let next = acc * 10 + d;
        if next > u32::MAX as u64 {
            proof {
                lemma_dec_value_overflow(s@, i as int + 1);
            }
            return None;
        }
        acc = next;
        i = i + 1;
    }
    proof {
        assert(s@.take(len as int) =~= s@);
    }
    Some(acc as u32)
}

/// Once a digit-string prefix exceeds `u32::MAX`, the whole string does.
proof fn lemma_dec_value_overflow(s: Seq<char>, k: int)
    requires
        0 <= k <= s.len(),
        all_digits(s.take(k)),
        dec_value(s.take(k)) > u32::MAX as int,
    ensures
        !is_u32_numeral(s),
    decreases s.len() - k,
{
    if k == s.len() {
        assert(s.take(k) =~= s);
    } else {
        if is_digit(s[k]) {
            lemma_dec_value_step(s, k);
            assert(all_digits(s.take(k + 1)));
            lemma_dec_value_overflow(s, k + 1);
        } else {
            assert(!all_digits(s)) by {
                assert(!is_digit(s[k]));
            }
        }
    }
}

/// ASCII whitespace: the separators recognized in tabular input.
pub open spec fn is_space(c: char) -> bool {
    c == ' ' || c == '\t' || c == '\r' || c == '\n' || c == '\u{000B}' || c == '\u{000C}'
}

/// Index of the first newline in `s`, or `s.len()` when there is none.
pub open spec fn find_newline(s: Seq<char>) -> int
    decreases s.len(),
{
    if s.len() == 0 {
        0
    } else if s[0] == '\n' {
        0
    } else {
        1 + find_newline(s.drop_first())
    }
}

pub proof fn lemma_find_newline_props(s: Seq<char>)
    ensures
        0 <= find_newline(s) <= s.len(),
        forall|k: int| 0 <= k < find_newline(s) ==> s[k] != '\n',
        find_newline(s) < s.len() ==> s[find_newline(s)] == '\n',
    decreases s.len(),
{
    if s.len() > 0 && s[0] != '\n' {
        lemma_find_newline_props(s.drop_first());
        assert forall|k: int| 0 <= k < find_newline(s) implies s[k] != '\n' by {
            if k >= 1 {
                assert(s.drop_first()[k - 1] == s[k]);
            }
        }
        if find_newline(s) < s.len() {
            assert(s[find_newline(s)] == s.drop_first()[find_newline(s.drop_first())]);
        }
    }
}

/// Count of leading whitespace characters of `s`.
pub open spec fn skip_spaces(s: Seq<char>) -> int
    decreases s.len(),
{
    if s.len() == 0 {
        0
    } else if is_space(s[0]) {
        1 + skip_spaces(s.drop_first())
    } else {
        0
    }
}

pub proof fn lemma_skip_spaces_props(s: Seq<char>)
    ensures
        0 <= skip_spaces(s) <= s.len(),
        forall|k: int| 0 <= k < skip_spaces(s) ==> is_space(s[k]),
        skip_spaces(s) < s.len() ==> !is_space(s[skip_spaces(s)]),
    decreases s.len(),
{
    if s.len() > 0 && is_space(s[0]) {
        lemma_skip_spaces_props(s.drop_first());
        assert forall|k: int| 0 <= k < skip_spaces(s) implies is_space(s[k]) by {
            if k >= 1 {
                assert(s.drop_first()[k - 1] == s[k]);
            }
        }
        if skip_spaces(s) < s.len() {
            assert(s[skip_spaces(s)] == s.drop_first()[skip_spaces(s.drop_first())]);
        }
    }
}

/// Length of the leading run of non-whitespace characters of `s`.
pub open spec fn token_end(s: Seq<char>) -> int
    decreases s.len(),
{
    if s.len() == 0 {
        0
    } else if !is_space(s[0]) {
        1 + token_end(s.drop_first())
    } else {
        0
    }
}

pub proof fn lemma_token_end_props(s: Seq<char>)
    ensures
        0 <= token_end(s) <= s.len(),
        forall|k: int| 0 <= k < token_end(s) ==> !is_space(s[k]),
        token_end(s) < s.len() ==> is_space(s[token_end(s)]),
    decreases s.len(),
{
    if s.len() > 0 && !is_space(s[0]) {
        lemma_token_end_props(s.drop_first());
        assert forall|k: int| 0 <= k < token_end(s) implies !is_space(s[k]) by {
            if k >= 1 {
                assert(s.drop_first()[k - 1] == s[k]);
            }
        }
        if token_end(s) < s.len() {
            assert(s[token_end(s)] == s.drop_first()[token_end(s.drop_first())]);
        }
    }
}

/// `s` with one trailing carriage return removed.
pub open spec fn strip_cr(s: Seq<char>) -> Seq<char> {
    if s.len() > 0 && s.last() == '\r' {
        s.drop_last()
    } else {
        s
    }
}

/// The lines of `s`: pieces between newlines, each stripped of a trailing
/// carriage return; a trailing newline does not open an empty final line.
pub open spec fn split_lines(s: Seq<char>) -> Seq<Seq<char>>
    decreases s.len(),
    via split_lines_dec
{
    if s.len() == 0 {
        Seq::empty()
    } else {
        let j = find_newline(s);
        if j == s.len() {
            seq![strip_cr(s)]
        } else {
            seq![strip_cr(s.subrange(0, j))] + split_lines(s.subrange(j + 1, s.len() as int))
        }
    }
}

#[via_fn]
proof fn split_lines_dec(s: Seq<char>) {
    lemma_find_newline_props(s);
}

/// The whitespace-separated tokens of `s`, in order, without empties.
pub open spec fn ws_tokens(s: Seq<char>) -> Seq<Seq<char>>
    decreases s.len(),
    via ws_tokens_dec
{
    let a = skip_spaces(s);
    if a == s.len() {
        Seq::empty()
    } else {
        let rest = s.subrange(a, s.len() as int);
        let e = token_end(rest);
        seq![rest.subrange(0, e)] + ws_tokens(rest.subrange(e, rest.len() as int))
    }
}

#[via_fn]
proof fn ws_tokens_dec(s: Seq<char>) {
    lemma_skip_spaces_props(s);
    if skip_spaces(s) < s.len() {
        let rest = s.subrange(skip_spaces(s), s.len() as int);
        lemma_token_end_props(rest);
        assert(!is_space(rest[0]));
    }
}

/// Position of the first newline of `s` at or after `from`.
pub fn find_newline_at(s: &str, from: usize) -> (r: usize)
    requires
        from <= s@.len(),
    ensures
        from <= r <= s@.len(),
        r - from == find_newline(s@.subrange(from as int, s@.len() as int)),
{
    let len = s.unicode_len();
    let ghost suffix = s@.subrange(from as int, s@.len() as int);
    let mut i: usize = from;
    while i < len
        invariant
            from <= i <= len,
            len == s@.len(),
            suffix == s@.subrange(from as int, s@.len() as int),
            forall|k: int| from <= k < i ==> s@[k] != '\n',
        decreases len - i,
    {
        if s.get_char(i) == '\n' {
            proof {
                lemma_find_newline_props(suffix);
                assert forall|k: int| 0 <= k < i - from implies suffix[k] != '\n' by {
                    assert(suffix[k] == s@[from + k]);
                }
                assert(suffix[i - from] == s@[i as int]);
            }
            return i;
        }
        i = i + 1;
    }
    proof {
        lemma_find_newline_props(suffix);
        assert forall|k: int| 0 <= k < suffix.len() implies suffix[k] != '\n' by {
            assert(suffix[k] == s@[from + k]);
        }
    }
    len
}

/// Position of the first non-whitespace character of `s` at or after `from`.
pub fn scan_spaces(s: &str, from: usize) -> (r: usize)
    requires
        from <= s@.len(),
    ensures
        from <= r <= s@.len(),
        r - from == skip_spaces(s@.subrange(from as int, s@.len() as int)),
{
    let len = s.unicode_len();
    let ghost suffix = s@.subrange(from as int, s@.len() as int);
    let mut i: usize = from;
    while i < len
        invariant
            from <= i <= len,
            len == s@.len(),
            suffix == s@.subrange(from as int, s@.len() as int),
            forall|k: int| from <= k < i ==> is_space(s@[k]),
        decreases len - i,
    {
        let c = s.get_char(i);
        if !(c == ' ' || c == '\t' || c == '\r' || c == '\n' || c == '\u{000B}' || c
            == '\u{000C}') {
            proof {
                lemma_skip_spaces_props(suffix);
                assert forall|k: int| 0 <= k < i - from implies is_space(suffix[k]) by {
                    assert(suffix[k] == s@[from + k]);
                }
                assert(suffix[i - from] == s@[i as int]);
            }
            return i;
        }
        i = i + 1;
    }
    proof {
        lemma_skip_spaces_props(suffix);
        assert forall|k: int| 0 <= k < suffix.len() implies is_space(suffix[k]) by {
            assert(suffix[k] == s@[from + k]);
        }
    }
    len
}

/// Position of the first whitespace character of `s` at or after `from`.
pub fn scan_token(s: &str, from: usize) -> (r: usize)
    requires
        from <= s@.len(),
    ensures
        from <= r <= s@.len(),
        r - from == token_end(s@.subrange(from as int, s@.len() as int)),
{
    let len = s.unicode_len();
    let ghost suffix = s@.subrange(from as int, s@.len() as int);
    let mut i: usize = from;
    while i < len
        invariant
            from <= i <= len,
            len == s@.len(),
            suffix == s@.subrange(from as int, s@.len() as int),
            forall|k: int| from <= k < i ==> !is_space(s@[k]),
        decreases len - i,
    {
        let c = s.get_char(i);
        if c == ' ' || c == '\t' || c == '\r' || c == '\n' || c == '\u{000B}' || c == '\u{000C}' {
            proof {
                lemma_token_end_props(suffix);
                assert forall|k: int| 0 <= k < i - from implies !is_space(suffix[k]) by {
                    assert(suffix[k] == s@[from + k]);
                }
                assert(suffix[i - from] == s@[i as int]);
            }
            return i;
        }
        i = i + 1;
    }
    proof {
        lemma_token_end_props(suffix);
        assert forall|k: int| 0 <= k < suffix.len() implies !is_space(suffix[k]) by {
            assert(suffix[k] == s@[from + k]);
        }
    }
    len
}

/// The first two whitespace-separated tokens of `s`, if it has two.
pub fn first_two_tokens(s: &str) -> (r: Option<(String, String)>)
    ensures
        match r {
            Some(t) => ws_tokens(s@).len() >= 2 && t.0@ == ws_tokens(s@)[0] && t.1@ == ws_tokens(
                s@,
            )[1],
            None => ws_tokens(s@).len() < 2,
        },
{
    let len = s.unicode_len();
    let a = scan_spaces(s, 0);
    proof {
        assert(s@.subrange(0, s@.len() as int) =~= s@);
    }
    if a == len {
        return None;
    }
    let e = scan_token(s, a);
    let ghost rest = s@.subrange(a as int, s@.len() as int);
    proof {
        assert(rest.subrange(e - a, rest.len() as int) =~= s@.subrange(e as int, s@.len() as int));
        assert(token_end(rest) == e - a) by {
            assert(s@.subrange(a as int, s@.len() as int).subrange(0, s@.len() - a as int) =~= s@
                .subrange(a as int, s@.len() as int));
        }
        lemma_token_end_props(rest);
    }
    let tok0 = s.substring_char(a, e).to_owned();
    proof {
        assert(tok0@ =~= rest.subrange(0, e - a));
        assert(ws_tokens(s@) == seq![rest.subrange(0, e - a)] + ws_tokens(
            s@.subrange(e as int, s@.len() as int),
        ));
    }
    let ghost rest2 = s@.subrange(e as int, s@.len() as int);
    let b = scan_spaces(s, e);
    proof {
        assert(skip_spaces(rest2) == b - e);
    }
    if b == len {
        proof {
            assert(ws_tokens(rest2) =~= Seq::<Seq<char>>::empty());
            assert(ws_tokens(s@).len() == 1);
        }
        return None;
    }
    let e2 = scan_token(s, b);
    let ghost rest3 = rest2.subrange(b - e, rest2.len() as int);
    proof {
        assert(rest3 =~= s@.subrange(b as int, s@.len() as int));
        assert(token_end(rest3) == e2 - b);
        assert(ws_tokens(rest2) == seq![rest3.subrange(0, e2 - b)] + ws_tokens(
            rest3.subrange(e2 - b, rest3.len() as int),
        ));
    }
    let tok1 = s.substring_char(b, e2).to_owned();
    proof {
        assert(tok1@ =~= rest3.subrange(0, e2 - b));
        assert(ws_tokens(s@).len() >= 2);
        assert(ws_tokens(s@)[0] == tok0@);
        assert(ws_tokens(s@)[1] == ws_tokens(rest2)[0]);
        assert(ws_tokens(rest2)[0] == tok1@);
    }
    Some((tok0, tok1))
}

/// The lines of `s`, as owned strings.
pub fn split_lines_exec(s: &str) -> (r: Vec<String>)
    ensures
        r@.map_values(|l: String| l@) == split_lines(s@),
{
    let len = s.unicode_len();
    let mut lines: Vec<String> = Vec::new();
    let mut pos: usize = 0;
    proof {
        assert(s@.subrange(0, s@.len() as int) =~= s@);
        assert(lines@.map_values(|l: String| l@) + split_lines(s@.subrange(0, s@.len() as int))
            =~= split_lines(s@));
    }
    while pos < len
        invariant
            0 <= pos <= len,
            len == s@.len(),
            split_lines(s@) == lines@.map_values(|l: String| l@) + split_lines(
                s@.subrange(pos as int, s@.len() as int),
            ),
        decreases len - pos,
    {
        let ghost suffix = s@.subrange(pos as int, s@.len() as int);
        let j = find_newline_at(s, pos);
        proof {
            lemma_find_newline_props(suffix);
        }
        let raw_end = j;
        let line_end = if raw_end > pos && s.get_char(raw_end - 1) == '\r' {
            raw_end - 1
        } else {
            raw_end
        };
        let line = s.substring_char(pos, line_end).to_owned();
        proof {
            let fj = find_newline(suffix);
            if fj == suffix.len() {
                assert(strip_cr(suffix) =~= if suffix.len() > 0 && suffix.last() == '\r' {
                    suffix.drop_last()
                } else {
                    suffix
                });
                assert(suffix.last() == s@[j - 1]);
                assert(line@ =~= strip_cr(suffix)) by {
                    assert(suffix =~= s@.subrange(pos as int, j as int));
                    if suffix.len() > 0 && suffix.last() == '\r' {
                        assert(suffix.drop_last() =~= s@.subrange(pos as int, j - 1));
                    }
                }
                assert(split_lines(suffix) == seq![strip_cr(suffix)]);
            } else {
                let piece = suffix.subrange(0, fj);
                assert(piece =~= s@.subrange(pos as int, j as int));
                if piece.len() > 0 {
                    assert(piece.last() == s@[j - 1]);
                }
                assert(line@ =~= strip_cr(piece)) by {
                    if piece.len() > 0 && piece.last() == '\r' {
                        assert(piece.drop_last() =~= s@.subrange(pos as int, j - 1));
                    }
                }
                assert(split_lines(suffix) == seq![strip_cr(piece)] + split_lines(
                    suffix.subrange(fj + 1, suffix.len() as int),
                ));
                assert(suffix.subrange(fj + 1, suffix.len() as int) =~= s@.subrange(
                    j + 1,
                    s@.len() as int,
                ));
            }
        }
        let ghost prev_lines = lines@;
        lines.push(line);
        proof {
            assert(lines@.map_values(|l: String| l@) =~= prev_lines.map_values(|l: String| l@)
                + seq![line@]);
        }
        if j == len {
            pos = len;
            proof {
                assert(split_lines(s@.subrange(pos as int, s@.len() as int)) =~= Seq::<
                    Seq<char>,
                >::empty());
                assert(split_lines(s@) =~= lines@.map_values(|l: String| l@) + split_lines(
                    s@.subrange(pos as int, s@.len() as int),
                ));
            }
        } else {
            pos = j + 1;
            proof {
                assert(split_lines(s@) =~= lines@.map_values(|l: String| l@) + split_lines(
                    s@.subrange(pos as int, s@.len() as int),
                ));
            }
        }
    }
    proof {
        assert(split_lines(s@.subrange(pos as int, s@.len() as int)) =~= Seq::<Seq<char>>::empty());
        assert(lines@.map_values(|l: String| l@) =~= split_lines(s@));
    }
    lines
}

/// Render `n` in decimal.
pub fn u64_to_string(n: u64) -> (r: String)
    ensures
        r@ == dec_digits(n as int),
    decreases n,
{
    let digits = "0123456789";
    proof {
        reveal_strlit("0123456789");
        assert(digits@.len() == 10);
    }
    let d = (n % 10) as usize;
    let one = digits.substring_ascii(d, d + 1);
    proof {
        assert(one@ =~= seq![digit_char(n as int % 10)]) by {
            assert(one@[0] == digits@[d as int]);
        };
    }
    if n < 10 {
        one.to_owned()
    } else {
        let mut prefix = u64_to_string(n / 10);
        prefix.append(one);
        proof {
            assert(prefix@ =~= dec_digits(n as int));
        }
        prefix
    }
}

} // verus!
