//! The pagination header of a list response, and the number of the last
//! page that it announces.
//!
//! The header is a comma-separated list of entries of the form
//! `<url>; rel="name"`. Only the entry tagged `rel="last"` matters: the page
//! number in its URL is the number of pages of the list.

use crate::text::{
    all_digits, chars_of, contains_text, lemma_decimal_value_nonnegative, read_i32,
    signed_decimal, span_contains, spans_text, spans_within, split_on, split_spans,
};
use vstd::prelude::*;
use vstd::string::StrSliceExecFns;

verus! {

/// Why a pagination header gives no page count.
#[derive(Debug, Clone, Copy, PartialEq, Eq, Structural)]
pub enum LinkError {
    /// No entry of the header is tagged `rel="last"`.
    NoLastEntry,
    /// An entry tagged `rel="last"` holds no page number that can be read.
    NoPageNumber,
}

/// What the regular expression `pattern` finds in `text`: nothing at all
/// where `pattern` is no regular expression; otherwise the text of the
/// leftmost match, if there is a match.
pub uninterp spec fn first_match(pattern: Seq<char>, text: Seq<char>) -> Option<
    Option<Seq<char>>,
>;

/// Compiles `pattern` with `regex::Regex::new` and searches `text` with
/// `Regex::captures`, handing out the text of capture group 0, which is the
/// whole match. The contract only gives that outcome its name,
/// `first_match`: the same pattern and text always give the same outcome.
/// Nothing is claimed about which text matches.
#[verifier::external_body]
fn regex_first_match(pattern: &str, text: &str) -> (r: Option<Option<String>>)
    ensures
        match r {
            None => first_match(pattern@, text@) is None,
            Some(None) => first_match(pattern@, text@) == Some(None::<Seq<char>>),
            Some(Some(m)) => first_match(pattern@, text@) == Some(Some(m@)),
        },
{
    let re = match regex::Regex::new(pattern) {
        Ok(re) => re,
        Err(_) => return None,
    };
    match re.captures(text) {
        Some(caps) => match caps.get(0) {
            Some(whole) => Some(Some(whole.as_str().to_string())),
            None => Some(None),
        },
        None => Some(None),
    }
}

/// The tag of the entry that names the last page.
pub open spec fn last_tag() -> Seq<char> {
    "rel=\"last\""@
}

/// The regular expression for the page parameter of a URL.
pub open spec fn page_pattern() -> Seq<char> {
    "&page=\\d+"@
}

/// The entry carries the tag `rel="last"`.
pub open spec fn is_tagged_last(entry: Seq<char>) -> bool {
    contains_text(entry, last_tag())
}

/// The page number in a matched page parameter such as `&page=3`: what
/// stands between the first `=` and the next one (or the end), read as a
/// decimal number of 32 bits. Pages are counted from 1: a number below 1
/// is no page number.
pub open spec fn marker_page(marker: Seq<char>) -> Option<int> {
    let pieces = split_on(marker, '=');
    if pieces.len() >= 2 {
        match signed_decimal(pieces[1], i32::MAX as int) {
            Some(page) => if page >= 1 {
                Some(page)
            } else {
                None
            },
            None => None,
        }
    } else {
        None
    }
}

/// The page number of one header entry: that of the first page parameter
/// which the pattern finds in it.
pub open spec fn entry_page(entry: Seq<char>) -> Option<int> {
    match first_match(page_pattern(), entry) {
        Some(Some(marker)) => marker_page(marker),
        _ => None,
    }
}

/// The entries of `header` that are tagged `rel="last"`, in header order.
pub open spec fn tagged_entries(header: Seq<char>) -> Seq<Seq<char>> {
    tagged_among(split_on(header, ','))
}

/// Those of `entries` that are tagged `rel="last"`, in the same order.
pub open spec fn tagged_among(entries: Seq<Seq<char>>) -> Seq<Seq<char>> {
    entries.filter(|entry: Seq<char>| is_tagged_last(entry))
}

/// The page count that `header` announces, which is at least 1. Entries
/// may come in any order. Every entry tagged `rel="last"` must hold a page
/// number; where several are tagged, the one that comes last in the header
/// counts.
pub open spec fn last_page(header: Seq<char>) -> Result<int, LinkError> {
    let tagged = tagged_entries(header);
    if tagged.len() == 0 {
        Err(LinkError::NoLastEntry)
    } else if exists|k: int| 0 <= k < tagged.len() && entry_page(#[trigger] tagged[k]) is None {
        Err(LinkError::NoPageNumber)
    } else {
        Ok(entry_page(tagged.last())->0)
    }
}

/// Reads the page number out of a matched page parameter.
pub fn page_of_marker(marker: &str) -> (page: Option<i32>)
    ensures
        match page {
            Some(p) => marker_page(marker@) == Some(p as int),
            None => marker_page(marker@) is None,
        },
{
    let chars = chars_of(marker);
    let spans = split_spans(&chars, '=');
    if spans.len() < 2 {
        return None;
    }
    let (lo, hi) = spans[1];
    proof {
        assert(spans_text(chars@, spans@)[1] == chars@.subrange(lo as int, hi as int));
    }
    match read_i32(&chars, lo, hi) {
        Some(page) => if page >= 1 {
            Some(page)
        } else {
            None
        },
        None => None,
    }
}

/// Finds the page number of one header entry.
pub fn page_of_entry(entry: &str) -> (page: Option<i32>)
    ensures
        match page {
            Some(p) => entry_page(entry@) == Some(p as int),
            None => entry_page(entry@) is None,
        },
{
    match regex_first_match("&page=\\d+", entry) {
        Some(Some(marker)) => page_of_marker(marker.as_str()),
        _ => None,
    }
}

/// Appending an entry appends it to the tagged ones exactly if it is tagged.
proof fn lemma_tagged_among_push(entries: Seq<Seq<char>>, entry: Seq<char>)
    ensures
        tagged_among(entries.push(entry)) == if is_tagged_last(entry) {
            tagged_among(entries).push(entry)
        } else {
            tagged_among(entries)
        },
{
    entries.lemma_filter_push(entry, |entry: Seq<char>| is_tagged_last(entry));
}

/// Every entry tagged in a prefix of `entries` is tagged in `entries`.
proof fn lemma_tagged_among_prefix(entries: Seq<Seq<char>>, k: int, j: int)
    requires
        0 <= k <= entries.len(),
        0 <= j < tagged_among(entries.take(k)).len(),
    ensures
        j < tagged_among(entries).len(),
        tagged_among(entries)[j] == tagged_among(entries.take(k))[j],
    decreases entries.len() - k,
{
    if k == entries.len() {
        assert(entries.take(k) == entries);
    } else {
        assert(entries.take(k + 1) == entries.take(k).push(entries[k]));
        lemma_tagged_among_push(entries.take(k), entries[k]);
        lemma_tagged_among_prefix(entries, k + 1, j);
    }
}

/// Reads the number of the last page out of a pagination header.
///
/// Succeeds exactly if the header has an entry tagged `rel="last"` and every
/// such entry holds a page number; the result is then the page number of
/// the last of them, wherever in the header it stands, and is at least 1.
pub fn extract_max_count(text: &str) -> (r: Result<i32, LinkError>)
    ensures
        match r {
            Ok(n) => last_page(text@) == Ok::<int, LinkError>(n as int) && n >= 1,
            Err(e) => last_page(text@) == Err::<int, LinkError>(e),
        },
{
    let chars = chars_of(text);
    let tag = chars_of("rel=\"last\"");
    let spans = split_spans(&chars, ',');
    let ghost entries = split_on(text@, ',');
    let mut last: Option<i32> = None;
    let mut k: usize = 0;
    proof {
        assert(entries.take(0) == Seq::<Seq<char>>::empty());
        assert(tagged_among(entries.take(0)).len() == 0) by {
            entries.take(0).lemma_filter_len(|entry: Seq<char>| is_tagged_last(entry));
        }
    }
    while k < spans.len()
        invariant
            k <= spans@.len(),
            chars@ == text@,
            tag@ == last_tag(),
            entries == split_on(text@, ','),
            spans_within(spans@, chars@.len() as int),
            spans_text(chars@, spans@) == entries,
            forall|j: int|
                0 <= j < tagged_among(entries.take(k as int)).len() ==> entry_page(
                    #[trigger] tagged_among(entries.take(k as int))[j],
                ) is Some,
            match last {
                Some(p) => tagged_among(entries.take(k as int)).len() > 0 && entry_page(
                    tagged_among(entries.take(k as int)).last(),
                ) == Some(p as int),
                None => tagged_among(entries.take(k as int)).len() == 0,
            },
        decreases spans.len() - k,
    {
        let (lo, hi) = spans[k];
        let ghost entry = entries[k as int];
        proof {
            assert(entry == chars@.subrange(lo as int, hi as int));
            assert(entries.take(k + 1) == entries.take(k as int).push(entry));
            lemma_tagged_among_push(entries.take(k as int), entry);
        }
        if span_contains(&chars, lo, hi, &tag) {
            match page_of_entry(text.substring_char(lo, hi)) {
                Some(p) => {
                    last = Some(p);
                },
                None => {
                    proof {
                        let seen = tagged_among(entries.take(k + 1));
                        lemma_tagged_among_prefix(entries, k + 1, seen.len() - 1);
                    }
                    return Err(LinkError::NoPageNumber);
                },
            }
        }
        k += 1;
    }
    proof {
        assert(entries.take(k as int) == entries);
    }
    match last {
        Some(p) => Ok(p),
        None => Err(LinkError::NoLastEntry),
    }
}

/// The number of pages of a list whose first page came with the given
/// pagination header, or with none. A response without the header is the
/// only page, and so is one whose header has no entry tagged `rel="last"`.
/// A tagged entry without a page number is refused.
pub open spec fn announced_pages(link: Option<Seq<char>>) -> Result<int, LinkError> {
    match link {
        None => Ok(1),
        Some(header) => match last_page(header) {
            Err(LinkError::NoLastEntry) => Ok(1),
            Err(LinkError::NoPageNumber) => Err(LinkError::NoPageNumber),
            Ok(count) => Ok(count),
        },
    }
}

/// What a header is as text, where there is one.
pub open spec fn link_view(link: Option<&str>) -> Option<Seq<char>> {
    match link {
        None => None,
        Some(header) => Some(header@),
    }
}

/// The number of pages of a list, given the pagination header of its first
/// page: one page where the response carries no such header or the header
/// has no entry tagged `rel="last"`, else what the header announces. The
/// count is at least 1.
pub fn max_page_count(link: Option<&str>) -> (r: Result<i32, LinkError>)
    ensures
        match r {
            Ok(n) => announced_pages(link_view(link)) == Ok::<int, LinkError>(n as int) && n >= 1,
            Err(e) => announced_pages(link_view(link)) == Err::<int, LinkError>(e),
        },
{
    match link {
        None => Ok(1),
        Some(text) => match extract_max_count(text) {
            Ok(count) => Ok(count),
            Err(LinkError::NoLastEntry) => Ok(1),
            Err(LinkError::NoPageNumber) => Err(LinkError::NoPageNumber),
        },
    }
}

/// The page number of an entry is a positive number that fits in 32 bits.
pub proof fn lemma_entry_page_range(entry: Seq<char>)
    ensures
        entry_page(entry) is Some ==> 1 <= entry_page(entry)->0 <= i32::MAX,
{
    match first_match(page_pattern(), entry) {
        Some(Some(marker)) => {
            let pieces = split_on(marker, '=');
            if pieces.len() >= 2 {
                let digits = pieces[1];
                if digits.len() > 0 && digits[0] == '-' && all_digits(digits.drop_first()) {
                    lemma_decimal_value_nonnegative(digits.drop_first());
                }
            }
        },
        _ => {},
    }
}

/// A page count is a positive number that fits in 32 bits, whatever header
/// announces it.
pub proof fn lemma_page_count_is_positive(link: Option<Seq<char>>)
    ensures
        match link {
            Some(header) => last_page(header) is Ok ==> 1 <= last_page(header)->Ok_0 <= i32::MAX,
            None => true,
        },
        announced_pages(link) is Ok ==> 1 <= announced_pages(link)->Ok_0 <= i32::MAX,
        announced_pages(link) is Err ==> announced_pages(link) == Err::<int, LinkError>(
            LinkError::NoPageNumber,
        ),
{
    match link {
        Some(header) => {
            if last_page(header) is Ok {
                let tagged = tagged_entries(header);
                let entry = tagged[tagged.len() - 1];
                assert(entry_page(entry) is Some);
                assert(last_page(header) == Ok::<int, LinkError>(entry_page(entry)->0));
                lemma_entry_page_range(entry);
            }
        },
        None => {},
    }
}

/// A header without an entry tagged `rel="last"` announces a single page,
/// although it names no last page.
pub proof fn lemma_untagged_header_is_one_page(header: Seq<char>)
    requires
        forall|j: int|
            0 <= j < split_on(header, ',').len() ==> !is_tagged_last(
                #[trigger] split_on(header, ',')[j],
            ),
    ensures
        last_page(header) == Err::<int, LinkError>(LinkError::NoLastEntry),
        announced_pages(Some(header)) == Ok::<int, LinkError>(1),
{
    lemma_header_without_last_entry(header);
}

/// Entries after the first `n` that carry no tag add nothing to the tagged
/// ones.
proof fn lemma_untagged_rest(entries: Seq<Seq<char>>, n: int)
    requires
        0 <= n <= entries.len(),
        forall|j: int| n <= j < entries.len() ==> !is_tagged_last(#[trigger] entries[j]),
    ensures
        tagged_among(entries) == tagged_among(entries.take(n)),
    decreases entries.len() - n,
{
    if n == entries.len() {
        assert(entries.take(n) == entries);
    } else {
        assert(entries.take(n + 1) == entries.take(n).push(entries[n]));
        lemma_tagged_among_push(entries.take(n), entries[n]);
        lemma_untagged_rest(entries, n + 1);
    }
}

/// A header without an entry tagged `rel="last"` announces no page count.
pub proof fn lemma_header_without_last_entry(header: Seq<char>)
    requires
        forall|j: int|
            0 <= j < split_on(header, ',').len() ==> !is_tagged_last(
                #[trigger] split_on(header, ',')[j],
            ),
    ensures
        last_page(header) == Err::<int, LinkError>(LinkError::NoLastEntry),
{
    let entries = split_on(header, ',');
    lemma_untagged_rest(entries, 0);
    assert(entries.take(0) == Seq::<Seq<char>>::empty());
    entries.take(0).lemma_filter_len(|entry: Seq<char>| is_tagged_last(entry));
}

/// A header announces the page number of its last entry tagged
/// `rel="last"`, at whatever place that entry stands, provided that the
/// tagged entries before it hold a page number too.
pub proof fn lemma_header_with_last_entry(header: Seq<char>, k: int, page: int)
    requires
        0 <= k < split_on(header, ',').len(),
        is_tagged_last(split_on(header, ',')[k]),
        entry_page(split_on(header, ',')[k]) == Some(page),
        forall|j: int|
            k < j < split_on(header, ',').len() ==> !is_tagged_last(
                #[trigger] split_on(header, ',')[j],
            ),
        forall|j: int|
            0 <= j < k && is_tagged_last(#[trigger] split_on(header, ',')[j]) ==> entry_page(
                split_on(header, ',')[j],
            ) is Some,
    ensures
        last_page(header) == Ok::<int, LinkError>(page),
{
    let entries = split_on(header, ',');
    let test = |entry: Seq<char>| is_tagged_last(entry);
    let front = entries.take(k);
    lemma_untagged_rest(entries, k + 1);
    assert(entries.take(k + 1) == front.push(entries[k]));
    lemma_tagged_among_push(front, entries[k]);
    let tagged = tagged_among(entries);
    assert(tagged == tagged_among(front).push(entries[k]));
    assert forall|i: int| 0 <= i < tagged.len() implies entry_page(
        #[trigger] tagged[i],
    ) is Some by {
        if i < tagged.len() - 1 {
            let entry = tagged_among(front)[i];
            front.lemma_filter_pred(test, i);
            assert(front.filter(test).contains(entry));
            front.lemma_filter_contains_rev(test, entry);
            let j = choose|j: int| 0 <= j < front.len() && front[j] == entry;
            assert(entries[j] == entry);
        }
    }
}

} // verus!
