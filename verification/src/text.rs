//! Character-level helpers shared by the parsers of this crate: splitting on
//! a separator, searching for a fragment, and reading decimal numbers.

use vstd::prelude::*;

verus! {

/// The characters of `s`, in order, as a vector that can be indexed in
/// constant time.
pub fn chars_of(s: &str) -> (v: Vec<char>)
    ensures
        v@ == s@,
{
    let mut v: Vec<char> = Vec::new();
    for c in it: s.chars()
        invariant
            it.seq() == s@,
            v@ == it.seq().take(it.index() as int),
    {
        v.push(c);
    }
    v
}

/// The index of the first `sep` in `s`, or `s.len()` where `s` holds none.
pub open spec fn first_index_of(s: Seq<char>, sep: char) -> int
    decreases s.len(),
{
    if s.len() == 0 || s[0] == sep {
        0
    } else {
        1 + first_index_of(s.drop_first(), sep)
    }
}

/// The pieces of `s` that lie between the occurrences of `sep`. There is
/// always at least one piece; with `n` separators there are `n + 1`, and
/// pieces may be empty.
pub open spec fn split_on(s: Seq<char>, sep: char) -> Seq<Seq<char>>
    decreases s.len(),
{
    let i = first_index_of(s, sep);
    if 0 <= i < s.len() {
        seq![s.take(i)] + split_on(s.skip(i + 1), sep)
    } else {
        seq![s]
    }
}

/// `first_index_of` is the least index that holds `sep`.
pub proof fn lemma_first_index_of(s: Seq<char>, sep: char)
    ensures
        0 <= first_index_of(s, sep) <= s.len(),
        first_index_of(s, sep) < s.len() ==> s[first_index_of(s, sep)] == sep,
        forall|j: int| 0 <= j < first_index_of(s, sep) ==> s[j] != sep,
    decreases s.len(),
{
    if s.len() == 0 || s[0] == sep {
    } else {
        let t = s.drop_first();
        lemma_first_index_of(t, sep);
        assert forall|j: int| 0 <= j < first_index_of(s, sep) implies s[j] != sep by {
            if j > 0 {
                assert(s[j] == t[j - 1]);
            }
        }
    }
}

/// An index that holds `sep`, or the length, with no `sep` before it is
/// the one that `first_index_of` names.
pub proof fn lemma_first_index_is(s: Seq<char>, sep: char, k: int)
    requires
        0 <= k <= s.len(),
        k < s.len() ==> s[k] == sep,
        forall|j: int| 0 <= j < k ==> s[j] != sep,
    ensures
        first_index_of(s, sep) == k,
{
    lemma_first_index_of(s, sep);
}

/// The text that a pair of positions cuts out of `s`.
pub open spec fn span_text(s: Seq<char>, span: (usize, usize)) -> Seq<char> {
    s.subrange(span.0 as int, span.1 as int)
}

/// The texts that a list of spans cuts out of `s`.
pub open spec fn spans_text(s: Seq<char>, spans: Seq<(usize, usize)>) -> Seq<Seq<char>> {
    Seq::new(spans.len(), |k: int| span_text(s, spans[k]))
}

/// Every span lies inside a text of length `len`.
pub open spec fn spans_within(spans: Seq<(usize, usize)>, len: int) -> bool {
    forall|k: int| 0 <= k < spans.len() ==> (#[trigger] spans[k]).0 <= spans[k].1 <= len
}

/// Splits `v` on `sep` and returns where each piece begins and ends.
pub fn split_spans(v: &Vec<char>, sep: char) -> (spans: Vec<(usize, usize)>)
    ensures
        spans_within(spans@, v@.len() as int),
        spans_text(v@, spans@) == split_on(v@, sep),
{
    let mut spans: Vec<(usize, usize)> = Vec::new();
    let mut start: usize = 0;
    let mut i: usize = 0;
    proof {
        assert(v@.skip(0) == v@);
        assert(spans_text(v@, spans@) + split_on(v@, sep) == split_on(v@, sep));
    }
    while i < v.len()
        invariant
            start <= i <= v.len(),
            forall|j: int| start <= j < i ==> v@[j] != sep,
            spans_within(spans@, v@.len() as int),
            split_on(v@, sep) == spans_text(v@, spans@) + split_on(v@.skip(start as int), sep),
        decreases v.len() - i,
    {
        if v[i] == sep {
            proof {
                let rest = v@.skip(start as int);
                lemma_first_index_is(rest, sep, i - start);
                assert(rest.take(i - start) == v@.subrange(start as int, i as int));
                assert(rest.skip(i - start + 1) == v@.skip(i + 1));
                let grown = spans@.push((start, i));
                assert(spans_text(v@, grown) == spans_text(v@, spans@) + seq![
                    v@.subrange(start as int, i as int),
                ]);
            }
            spans.push((start, i));
            start = i + 1;
        }
        i += 1;
    }
    proof {
        let rest = v@.skip(start as int);
        lemma_first_index_is(rest, sep, rest.len() as int);
        assert(rest == v@.subrange(start as int, v@.len() as int));
        let grown = spans@.push((start, v.len()));
        assert(spans_text(v@, grown) == spans_text(v@, spans@) + seq![rest]);
    }
    spans.push((start, v.len()));
    spans
}

/// `pat` stands in `s` at index `i`.
pub open spec fn occurs_at(s: Seq<char>, pat: Seq<char>, i: int) -> bool {
    0 <= i && i + pat.len() <= s.len() && s.subrange(i, i + pat.len()) == pat
}

/// `pat` stands somewhere in `s`. The empty text stands in every text.
pub open spec fn contains_text(s: Seq<char>, pat: Seq<char>) -> bool {
    exists|i: int| occurs_at(s, pat, i)
}

/// Tells whether `pat` stands at index `at` of the text between `lo` and
/// `hi`.
fn matches_at(v: &Vec<char>, lo: usize, hi: usize, pat: &Vec<char>, at: usize) -> (found: bool)
    requires
        lo <= hi <= v@.len(),
        at + pat@.len() <= hi - lo,
    ensures
        found == occurs_at(v@.subrange(lo as int, hi as int), pat@, at as int),
{
    let ghost s = v@.subrange(lo as int, hi as int);
    let mut k: usize = 0;
    while k < pat.len()
        invariant
            lo <= hi <= v@.len(),
            at + pat@.len() <= hi - lo,
            s == v@.subrange(lo as int, hi as int),
            k <= pat@.len(),
            forall|j: int| 0 <= j < k ==> s[at + j] == pat@[j],
        decreases pat.len() - k,
    {
        if v[lo + at + k] != pat[k] {
            proof {
                assert(s.subrange(at as int, at + pat@.len())[k as int] == s[at + k]);
            }
            return false;
        }
        k += 1;
    }
    proof {
        assert(s.subrange(at as int, at + pat@.len()) =~= pat@);
    }
    true
}

/// Tells whether the text between `lo` and `hi` holds `pat`.
pub fn span_contains(v: &Vec<char>, lo: usize, hi: usize, pat: &Vec<char>) -> (found: bool)
    requires
        lo <= hi <= v@.len(),
    ensures
        found == contains_text(v@.subrange(lo as int, hi as int), pat@),
{
    let ghost s = v@.subrange(lo as int, hi as int);
    if pat.len() > hi - lo {
        return false;
    }
    let last: usize = hi - lo - pat.len();
    let mut at: usize = 0;
    while at < last
        invariant
            lo <= hi <= v@.len(),
            last == hi - lo - pat@.len(),
            s == v@.subrange(lo as int, hi as int),
            at <= last,
            forall|i: int| 0 <= i < at ==> !occurs_at(s, pat@, i),
        decreases last - at,
    {
        if matches_at(v, lo, hi, pat, at) {
            return true;
        }
        at += 1;
    }
    matches_at(v, lo, hi, pat, last)
}

/// `c` is one of the ten ASCII digits.
pub open spec fn is_digit(c: char) -> bool {
    '0' <= c && c <= '9'
}

/// The number that a digit stands for.
pub open spec fn digit_value(c: char) -> int {
    c as int - '0' as int
}

/// Every character of `s` is an ASCII digit.
pub open spec fn all_digits(s: Seq<char>) -> bool {
    forall|i: int| 0 <= i < s.len() ==> is_digit(#[trigger] s[i])
}

/// The number that a run of digits writes in base ten; 0 for the empty run.
pub open spec fn decimal_value(s: Seq<char>) -> int
    decreases s.len(),
{
    if s.len() == 0 {
        0
    } else {
        10 * decimal_value(s.drop_last()) + digit_value(s.last())
    }
}

/// The number written by `s` if `s` is a non-empty run of digits that
/// writes at most `max`.
pub open spec fn bounded_decimal(s: Seq<char>, max: int) -> Option<int> {
    if s.len() > 0 && all_digits(s) && decimal_value(s) <= max {
        Some(decimal_value(s))
    } else {
        None
    }
}

/// An unsigned decimal number of at most `max`: an optional `+`, then at
/// least one digit, and nothing else.
pub open spec fn unsigned_decimal(s: Seq<char>, max: int) -> Option<int> {
    if s.len() > 0 && s[0] == '+' {
        bounded_decimal(s.drop_first(), max)
    } else {
        bounded_decimal(s, max)
    }
}

/// A signed decimal number between `-max - 1` and `max`: an optional `+` or
/// `-`, then at least one digit, and nothing else.
pub open spec fn signed_decimal(s: Seq<char>, max: int) -> Option<int> {
    if s.len() > 0 && s[0] == '-' {
        match bounded_decimal(s.drop_first(), max + 1) {
            Some(magnitude) => Some(-magnitude),
            None => None,
        }
    } else {
        unsigned_decimal(s, max)
    }
}

/// A run of digits writes at least what any of its prefixes writes.
pub proof fn lemma_decimal_value_grows(s: Seq<char>, k: int)
    requires
        all_digits(s),
        0 <= k <= s.len(),
    ensures
        0 <= decimal_value(s.take(k)) <= decimal_value(s),
    decreases s.len() - k,
{
    if k == s.len() {
        assert(s.take(k) == s);
        lemma_decimal_value_nonnegative(s);
    } else {
        lemma_decimal_value_grows(s, k + 1);
        let longer = s.take(k + 1);
        assert(longer.drop_last() == s.take(k));
        assert(is_digit(longer.last()));
        lemma_decimal_value_nonnegative(s.take(k));
    }
}

/// A run of digits writes no negative number.
pub proof fn lemma_decimal_value_nonnegative(s: Seq<char>)
    requires
        all_digits(s),
    ensures
        0 <= decimal_value(s),
    decreases s.len(),
{
    if s.len() > 0 {
        lemma_decimal_value_nonnegative(s.drop_last());
        assert(is_digit(s.last()));
    }
}

/// Reads the digits between `lo` and `hi` as a number of at most `max`.
fn read_digits(v: &Vec<char>, lo: usize, hi: usize, max: u64) -> (r: Option<u64>)
    requires
        lo <= hi <= v@.len(),
        max <= 0xFFFF_FFFF,
    ensures
        match r {
            Some(n) => bounded_decimal(v@.subrange(lo as int, hi as int), max as int) == Some(
                n as int,
            ),
            None => bounded_decimal(v@.subrange(lo as int, hi as int), max as int) is None,
        },
{
    let ghost s = v@.subrange(lo as int, hi as int);
    if lo == hi {
        return None;
    }
    let mut acc: u64 = 0;
    let mut i: usize = lo;
    while i < hi
        invariant
            lo <= i <= hi <= v@.len(),
            max <= 0xFFFF_FFFF,
            s == v@.subrange(lo as int, hi as int),
            all_digits(s.take(i - lo)),
            acc == decimal_value(s.take(i - lo)),
            acc <= max,
        decreases hi - i,
    {
        let c: char = v[i];
        if c < '0' || c > '9' {
            proof {
                assert(s[i - lo] == c);
            }
            return None;
        }
        let d: u64 = (c as u64) - ('0' as u64);
        let ghost longer = s.take(i - lo + 1);
        proof {
            assert(longer.drop_last() == s.take(i - lo));
            assert(longer.last() == c);
            assert(all_digits(longer));
        }
        acc = acc * 10 + d;
        if acc > max {
            proof {
                if all_digits(s) {
                    lemma_decimal_value_grows(s, i - lo + 1);
                }
            }
            return None;
        }
        i += 1;
    }
    proof {
        assert(s.take(hi - lo) == s);
    }
    Some(acc)
}

/// Reads the text between `lo` and `hi` as an unsigned 32-bit decimal
/// number.
pub fn read_u32(v: &Vec<char>, lo: usize, hi: usize) -> (r: Option<u32>)
    requires
        lo <= hi <= v@.len(),
    ensures
        match r {
            Some(n) => unsigned_decimal(v@.subrange(lo as int, hi as int), u32::MAX as int)
                == Some(n as int),
            None => unsigned_decimal(v@.subrange(lo as int, hi as int), u32::MAX as int) is None,
        },
{
    let ghost s = v@.subrange(lo as int, hi as int);
    let from: usize = if lo < hi && v[lo] == '+' {
        lo + 1
    } else {
        lo
    };
    proof {
        assert(lo < hi ==> s[0] == v@[lo as int]);
        if from != lo {
            assert(s.drop_first() == v@.subrange(from as int, hi as int));
        }
    }
    match read_digits(v, from, hi, 0xFFFF_FFFF) {
        Some(n) => Some(n as u32),
        None => None,
    }
}

/// Reads the text between `lo` and `hi` as a signed 32-bit decimal number.
pub fn read_i32(v: &Vec<char>, lo: usize, hi: usize) -> (r: Option<i32>)
    requires
        lo <= hi <= v@.len(),
    ensures
        match r {
            Some(n) => signed_decimal(v@.subrange(lo as int, hi as int), i32::MAX as int) == Some(
                n as int,
            ),
            None => signed_decimal(v@.subrange(lo as int, hi as int), i32::MAX as int) is None,
        },
{
    let ghost s = v@.subrange(lo as int, hi as int);
    proof {
        assert(lo < hi ==> s[0] == v@[lo as int]);
        assert(lo < hi ==> s.drop_first() == v@.subrange(lo + 1, hi as int));
    }
    if lo < hi && v[lo] == '-' {
        match read_digits(v, lo + 1, hi, 0x8000_0000) {
            Some(n) => Some((-(n as i64)) as i32),
            None => None,
        }
    } else {
        let from: usize = if lo < hi && v[lo] == '+' {
            lo + 1
        } else {
            lo
        };
        match read_digits(v, from, hi, 0x7FFF_FFFF) {
            Some(n) => Some(n as i32),
            None => None,
        }
    }
}

} // verus!
