//! Address-path text handling: splitting a slash-delimited path into
//! segments, and parsing a segment as a non-negative integer.
//!
//! A path's leading slashes are stripped, then the rest is split on `/`;
//! an empty rest yields one empty segment, the way slash-splitting of the
//! protocol's addresses behaves. A segment parses as an integer when it is
//! an optional `+` sign followed by one or more decimal digits whose value
//! fits in `usize`.

use vstd::prelude::*;
use vstd::string::StrSliceExecFns;

verus! {

/// Whether `c` is a decimal digit.
pub open spec fn is_dec_digit(c: char) -> bool {
    48 <= c as u32 && c as u32 <= 57
}

/// The numeric value of a decimal digit.
pub open spec fn digit_val(c: char) -> int {
    c as u32 - 48
}

/// Whether every character of `s` is a decimal digit.
pub open spec fn all_digits(s: Seq<char>) -> bool {
    forall|i: int| 0 <= i < s.len() ==> is_dec_digit(s[i])
}

/// The value of `s` read as a decimal numeral (most significant digit
/// first). Meaningful when `all_digits(s)` holds.
pub open spec fn dec_val(s: Seq<char>) -> int
    decreases s.len(),
{
    if s.len() == 0 {
        0
    } else {
        dec_val(s.drop_last()) * 10 + digit_val(s.last())
    }
}

/// The numeral part of a segment: everything after an optional leading `+`.
pub open spec fn numeral_of(s: Seq<char>) -> Seq<char> {
    if s.len() > 0 && s[0] == '+' {
        s.skip(1)
    } else {
        s
    }
}

/// What parsing a path segment as a non-negative integer yields: the value
/// of an optional `+` sign followed by at least one decimal digit, if that
/// value fits in `usize`; nothing otherwise.
pub open spec fn spec_parse_usize(s: Seq<char>) -> Option<usize> {
    let body = numeral_of(s);
    if body.len() > 0 && all_digits(body) && dec_val(body) <= usize::MAX {
        Some(dec_val(body) as usize)
    } else {
        None
    }
}

proof fn lemma_dec_val_nonneg(s: Seq<char>)
    requires
        all_digits(s),
    ensures
        dec_val(s) >= 0,
    decreases s.len(),
{
    if s.len() > 0 {
        assert(all_digits(s.drop_last()));
        lemma_dec_val_nonneg(s.drop_last());
    }
}

proof fn lemma_dec_val_prefix_le(s: Seq<char>, i: int)
    requires
        all_digits(s),
        0 <= i <= s.len(),
    ensures
        dec_val(s.take(i)) <= dec_val(s),
    decreases s.len() - i,
{
    if i < s.len() {
        assert(s.take(i + 1).drop_last() =~= s.take(i));
        assert(s.take(i + 1).last() == s[i]);
        assert(all_digits(s.take(i)));
        lemma_dec_val_nonneg(s.take(i));
        assert(dec_val(s.take(i + 1)) == dec_val(s.take(i)) * 10 + digit_val(s[i]));
        assert(dec_val(s.take(i)) * 10 >= dec_val(s.take(i))) by (nonlinear_arith)
            requires
                dec_val(s.take(i)) >= 0,
        ;
        lemma_dec_val_prefix_le(s, i + 1);
    } else {
        assert(s.take(i) =~= s);
    }
}

/// Parses `s` as a non-negative integer, as the address router needs it:
/// an optional `+` sign, then decimal digits. Returns nothing on an empty
/// numeral, a stray character, or a value too large for `usize`.
pub fn parse_usize(s: &str) -> (r: Option<usize>)
    ensures
        r == spec_parse_usize(s@),
{
    let n = s.unicode_len();
    let start: usize = if n > 0 && s.get_char(0) == '+' {
        1
    } else {
        0
    };
    let ghost body = numeral_of(s@);
    assert(body =~= s@.skip(start as int));
    if start >= n {
        return None;
    }
    let mut acc: usize = 0;
    let mut i: usize = start;
    while i < n
        invariant
            start <= i <= n,
            n == s@.len(),
            start <= 1,
            body == numeral_of(s@),
            body == s@.skip(start as int),
            all_digits(body.take(i - start)),
            acc == dec_val(body.take(i - start)),
        decreases n - i,
    {
        let c = s.get_char(i);
        let d32 = c as u32;
        if d32 < 48 || d32 > 57 {
            proof {
                assert(body[i - start] == s@[i as int]);
                assert(!is_dec_digit(body[i - start]));
            }
            return None;
        }
        let d = (d32 - 48) as usize;
        proof {
            assert(body.take(i + 1 - start).drop_last() =~= body.take(i - start));
            assert(body.take(i + 1 - start).last() == body[i - start]);
            assert(body[i - start] == s@[i as int]);
            assert(digit_val(s@[i as int]) == d);
            assert(all_digits(body.take(i + 1 - start)));
            assert(dec_val(body.take(i + 1 - start)) == acc * 10 + d);
        }
        let overflowed: bool = match acc.checked_mul(10) {
            Some(t) => match t.checked_add(d) {
                Some(v) => {
                    acc = v;
                    false
                },
                None => true,
            },
            None => true,
        };
        if overflowed {
            // The prefix read so far already exceeds usize::MAX, and
            // appending digits can only grow the value.
            proof {
                assert(dec_val(body.take(i + 1 - start)) > usize::MAX);
                if all_digits(body) {
                    lemma_dec_val_prefix_le(body, i + 1 - start);
                }
            }
            return None;
        }
        proof {
            assert(acc == dec_val(body.take(i + 1 - start)));
        }
        i += 1;
    }
    assert(body.take(n - start) =~= body);
    Some(acc)
}

/// `s` split on `/`: the segments before, between, and after the slashes.
/// A string without a slash is one segment, so the result is never empty.
pub open spec fn spec_split(s: Seq<char>) -> Seq<Seq<char>>
    decreases s.len(),
{
    if s.len() == 0 {
        seq![Seq::<char>::empty()]
    } else if s[0] == '/' {
        seq![Seq::<char>::empty()] + spec_split(s.skip(1))
    } else {
        let rest = spec_split(s.skip(1));
        rest.update(0, seq![s[0]] + rest[0])
    }
}

proof fn lemma_split_nonempty(s: Seq<char>)
    ensures
        spec_split(s).len() >= 1,
    decreases s.len(),
{
    if s.len() > 0 {
        lemma_split_nonempty(s.skip(1));
    }
}

proof fn lemma_split_no_slash(s: Seq<char>)
    requires
        forall|i: int| 0 <= i < s.len() ==> s[i] != '/',
    ensures
        spec_split(s) == seq![s],
    decreases s.len(),
{
    if s.len() == 0 {
        assert(s =~= Seq::<char>::empty());
    } else {
        assert(forall|i: int| 0 <= i < s.skip(1).len() ==> s.skip(1)[i] == s[i + 1] && s.skip(1)[i]
            != '/');
        lemma_split_no_slash(s.skip(1));
        assert(seq![s[0]] + s.skip(1) =~= s);
        assert(spec_split(s) =~= seq![s]);
    }
}

proof fn lemma_split_at_first(s: Seq<char>, k: int)
    requires
        0 <= k < s.len(),
        s[k] == '/',
        forall|i: int| 0 <= i < k ==> s[i] != '/',
    ensures
        spec_split(s) == seq![s.take(k)] + spec_split(s.skip(k + 1)),
    decreases k,
{
    if k == 0 {
        assert(s.take(0) =~= Seq::<char>::empty());
        assert(spec_split(s) =~= seq![s.take(0)] + spec_split(s.skip(1)));
    } else {
        let t = s.skip(1);
        assert(t[k - 1] == s[k]);
        assert(forall|i: int| 0 <= i < k - 1 ==> t[i] == s[i + 1] && t[i] != '/');
        lemma_split_at_first(t, k - 1);
        lemma_split_nonempty(t.skip(k));
        assert(t.skip(k) =~= s.skip(k + 1));
        assert(t.take(k - 1) =~= s.take(k).skip(1));
        assert(seq![s[0]] + s.take(k).skip(1) =~= s.take(k));
        assert(spec_split(s) =~= seq![s.take(k)] + spec_split(s.skip(k + 1)));
    }
}

/// `s` with every leading `/` removed.
pub open spec fn strip_leading(s: Seq<char>) -> Seq<char>
    decreases s.len(),
{
    if s.len() > 0 && s[0] == '/' {
        strip_leading(s.skip(1))
    } else {
        s
    }
}

proof fn lemma_strip_leading(s: Seq<char>, k: int)
    requires
        0 <= k <= s.len(),
        forall|i: int| 0 <= i < k ==> s[i] == '/',
        k < s.len() ==> s[k] != '/',
    ensures
        strip_leading(s) == s.skip(k),
    decreases k,
{
    if k == 0 {
        assert(s.skip(0) =~= s);
    } else {
        let t = s.skip(1);
        assert(forall|i: int| 0 <= i < k - 1 ==> t[i] == s[i + 1]);
        assert(k - 1 < t.len() ==> t[k - 1] == s[k]);
        lemma_strip_leading(t, k - 1);
        assert(t.skip(k - 1) =~= s.skip(k));
    }
}

/// The address path `s` as its segment sequence: leading slashes stripped,
/// then split on `/`.
pub open spec fn spec_split_path(s: Seq<char>) -> Seq<Seq<char>> {
    spec_split(strip_leading(s))
}

/// Splits an address path into its segments: strips the leading slashes,
/// then cuts at each remaining `/`.
pub fn split_path(addr: &str) -> (segs: Vec<String>)
    ensures
        segs@.map_values(|t: String| t@) == spec_split_path(addr@),
        segs@.len() >= 1,
{
    let n = addr.unicode_len();
    let mut start: usize = 0;
    while start < n && addr.get_char(start) == '/'
        invariant
            0 <= start <= n,
            n == addr@.len(),
            forall|i: int| 0 <= i < start ==> addr@[i] == '/',
        decreases n - start,
    {
        start += 1;
    }
    let ghost stripped = strip_leading(addr@);
    proof {
        lemma_strip_leading(addr@, start as int);
    }
    let mut segs: Vec<String> = Vec::new();
    let mut seg_start: usize = start;
    let mut i: usize = start;
    while i < n
        invariant
            start <= seg_start <= i <= n,
            n == addr@.len(),
            stripped == addr@.skip(start as int),
            forall|j: int| seg_start <= j < i ==> addr@[j] != '/',
            spec_split(stripped) == segs@.map_values(|t: String| t@) + spec_split(
                addr@.skip(seg_start as int),
            ),
        decreases n - i,
    {
        if addr.get_char(i) == '/' {
            let seg = addr.substring_char(seg_start, i).to_owned();
            proof {
                let tail = addr@.skip(seg_start as int);
                assert(tail[i - seg_start] == '/');
                assert(forall|j: int| 0 <= j < i - seg_start ==> tail[j] == addr@[j + seg_start]
                    && tail[j] != '/');
                lemma_split_at_first(tail, i - seg_start);
                assert(tail.take(i - seg_start) =~= addr@.subrange(seg_start as int, i as int));
                assert(tail.skip(i - seg_start + 1) =~= addr@.skip(i + 1));
                assert(segs@.push(seg).map_values(|t: String| t@) =~= segs@.map_values(
                    |t: String| t@,
                ).push(seg@));
                assert(segs@.map_values(|t: String| t@) + seq![seg@] + spec_split(
                    addr@.skip(i + 1),
                ) =~= segs@.map_values(|t: String| t@).push(seg@) + spec_split(addr@.skip(i + 1)));
            }
            segs.push(seg);
            seg_start = i + 1;
        }
        i += 1;
    }
    let last = addr.substring_char(seg_start, n).to_owned();
    proof {
        let tail = addr@.skip(seg_start as int);
        assert(forall|j: int| 0 <= j < tail.len() ==> tail[j] == addr@[j + seg_start] && tail[j]
            != '/');
        lemma_split_no_slash(tail);
        assert(tail =~= addr@.subrange(seg_start as int, n as int));
        assert(segs@.push(last).map_values(|t: String| t@) =~= segs@.map_values(
            |t: String| t@,
        ).push(last@));
        assert(segs@.map_values(|t: String| t@) + seq![last@] =~= segs@.map_values(
            |t: String| t@,
        ).push(last@));
    }
    segs.push(last);
    segs
}

/// Character-for-character equality of two string slices.
pub fn str_eq(a: &str, b: &str) -> (r: bool)
    ensures
        r == (a@ == b@),
{
    let na = a.unicode_len();
    let nb = b.unicode_len();
    if na != nb {
        return false;
    }
    let mut i: usize = 0;
    while i < na
        invariant
            0 <= i <= na,
            na == a@.len(),
            nb == b@.len(),
            na == nb,
            forall|j: int| 0 <= j < i ==> a@[j] == b@[j],
        decreases na - i,
    {
        if a.get_char(i) != b.get_char(i) {
            return false;
        }
        i += 1;
    }
    proof {
        assert(a@ =~= b@);
    }
    true
}

} // verus!
