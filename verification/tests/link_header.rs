use github_actions_execution_time_collector::link::{
    extract_max_count, max_page_count, page_of_entry, page_of_marker, LinkError,
};

const NEXT: &str =
    "<https://api.github.com/repositories/1/actions/workflows/2/runs?per_page=100&page=2>; \
     rel=\"next\"";
const LAST: &str =
    "<https://api.github.com/repositories/1/actions/workflows/2/runs?per_page=100&page=3>; \
     rel=\"last\"";

#[test]
fn last_entry_gives_the_page_count() {
    let header = format!("{}, {}", NEXT, LAST);
    assert_eq!(extract_max_count(&header), Ok(3));
}

#[test]
fn last_entry_is_found_at_any_place() {
    let header = format!("{}, {}", LAST, NEXT);
    assert_eq!(extract_max_count(&header), Ok(3));
    let first = "<https://h/x?per_page=100&page=1>; rel=\"first\"";
    let header = format!("{}, {}, {}", first, LAST, NEXT);
    assert_eq!(extract_max_count(&header), Ok(3));
}

#[test]
fn header_of_one_entry() {
    assert_eq!(extract_max_count(LAST), Ok(3));
    assert_eq!(extract_max_count("<https://h/x?a=1&page=250>; rel=\"last\""), Ok(250));
}

#[test]
fn header_without_last_entry_is_refused() {
    assert_eq!(extract_max_count(NEXT), Err(LinkError::NoLastEntry));
    assert_eq!(extract_max_count(""), Err(LinkError::NoLastEntry));
    assert_eq!(extract_max_count(",,"), Err(LinkError::NoLastEntry));
}

#[test]
fn the_tag_counts_not_the_word() {
    let header = "<https://h/lastfm/runs?per_page=100&page=9>; rel=\"next\"";
    assert_eq!(extract_max_count(header), Err(LinkError::NoLastEntry));
    let header = format!("{}, {}", LAST, header);
    assert_eq!(extract_max_count(&header), Ok(3));
}

#[test]
fn last_entry_without_page_number_is_refused() {
    assert_eq!(
        extract_max_count("<https://h/x?per_page=100>; rel=\"last\""),
        Err(LinkError::NoPageNumber)
    );
    assert_eq!(
        extract_max_count("<https://h/x?per_page=100&page=>; rel=\"last\""),
        Err(LinkError::NoPageNumber)
    );
    assert_eq!(extract_max_count("rel=\"last\""), Err(LinkError::NoPageNumber));
}

#[test]
fn every_tagged_entry_must_hold_a_page_number() {
    let broken = "<https://h/x?per_page=100>; rel=\"last\"";
    let header = format!("{}, {}", broken, LAST);
    assert_eq!(extract_max_count(&header), Err(LinkError::NoPageNumber));
}

#[test]
fn the_last_of_several_tagged_entries_counts() {
    let other = "<https://h/x?per_page=100&page=7>; rel=\"last\"";
    assert_eq!(extract_max_count(&format!("{}, {}", LAST, other)), Ok(7));
    assert_eq!(extract_max_count(&format!("{}, {}", other, LAST)), Ok(3));
}

#[test]
fn page_number_beyond_32_bits_is_refused() {
    assert_eq!(
        extract_max_count("<https://h/x?a=1&page=2147483647>; rel=\"last\""),
        Ok(2147483647)
    );
    assert_eq!(
        extract_max_count("<https://h/x?a=1&page=2147483648>; rel=\"last\""),
        Err(LinkError::NoPageNumber)
    );
    assert_eq!(
        extract_max_count("<https://h/x?a=1&page=99999999999999999999>; rel=\"last\""),
        Err(LinkError::NoPageNumber)
    );
}

#[test]
fn page_count_is_at_least_one() {
    assert_eq!(extract_max_count("<https://h/x?a=1&page=1>; rel=\"last\""), Ok(1));
    assert_eq!(
        extract_max_count("<https://h/x?a=1&page=0>; rel=\"last\""),
        Err(LinkError::NoPageNumber)
    );
    assert_eq!(
        extract_max_count("<https://h/x?a=1&page=000>; rel=\"last\""),
        Err(LinkError::NoPageNumber)
    );
    assert_eq!(
        max_page_count(Some("<https://h/x?a=1&page=0>; rel=\"last\"")),
        Err(LinkError::NoPageNumber)
    );
}

#[test]
fn page_number_with_leading_zeros() {
    assert_eq!(extract_max_count("<https://h/x?a=1&page=007>; rel=\"last\""), Ok(7));
}

#[test]
fn first_page_parameter_of_the_entry_counts() {
    assert_eq!(
        extract_max_count("<https://h/x?a=1&page=4&page=9>; rel=\"last\""),
        Ok(4)
    );
}

#[test]
fn digits_of_other_scripts_are_no_page_number() {
    // The pattern takes any decimal digit; only ASCII digits write a number.
    assert_eq!(page_of_entry("<https://h/x?a=1&page=\u{0663}>"), None);
    assert_eq!(
        extract_max_count("<https://h/x?a=1&page=\u{0663}>; rel=\"last\""),
        Err(LinkError::NoPageNumber)
    );
}

#[test]
fn page_of_entry_reads_the_matched_parameter_only() {
    assert_eq!(page_of_entry("<https://h/x?a=1&page=12>; rel=\"next\""), Some(12));
    assert_eq!(page_of_entry("&page=5"), Some(5));
    assert_eq!(page_of_entry("page=5"), None);
    assert_eq!(page_of_entry("<https://h/x?page=5&a=1>"), None);
    assert_eq!(page_of_entry(""), None);
}

#[test]
fn page_of_marker_reads_what_follows_the_first_equals_sign() {
    assert_eq!(page_of_marker("&page=3"), Some(3));
    assert_eq!(page_of_marker("&page=3=4"), Some(3));
    assert_eq!(page_of_marker("&page=+7"), Some(7));
    assert_eq!(page_of_marker("&page=1"), Some(1));
    assert_eq!(page_of_marker("&page=2147483647"), Some(2147483647));
    assert_eq!(page_of_marker("&page=2147483648"), None);
    assert_eq!(page_of_marker("&page="), None);
    assert_eq!(page_of_marker("&page"), None);
    assert_eq!(page_of_marker("&page=3x"), None);
    assert_eq!(page_of_marker("&page=+"), None);
    assert_eq!(page_of_marker("=12"), Some(12));
    assert_eq!(page_of_marker(""), None);
}

#[test]
fn page_number_below_one_is_no_page_number() {
    assert_eq!(page_of_marker("&page=0"), None);
    assert_eq!(page_of_marker("&page=-0"), None);
    assert_eq!(page_of_marker("&page=+0"), None);
    assert_eq!(page_of_marker("&page=-1"), None);
    assert_eq!(page_of_marker("&page=-2"), None);
    assert_eq!(page_of_marker("&page=-2147483648"), None);
    assert_eq!(page_of_marker("&page=-2147483649"), None);
    assert_eq!(page_of_entry("<https://h/x?a=1&page=0>"), None);
}

#[test]
fn response_without_header_is_a_single_page() {
    assert_eq!(max_page_count(None), Ok(1));
}

#[test]
fn response_with_header_announces_its_last_page() {
    let header = format!("{}, {}", NEXT, LAST);
    assert_eq!(max_page_count(Some(&header)), Ok(3));
    assert_eq!(max_page_count(Some(LAST)), Ok(3));
}

#[test]
fn header_without_last_entry_is_a_single_page() {
    assert_eq!(max_page_count(Some(NEXT)), Ok(1));
    assert_eq!(max_page_count(Some("")), Ok(1));
    assert_eq!(max_page_count(Some(",,")), Ok(1));
    assert_eq!(
        max_page_count(Some("<https://h/lastfm/runs?per_page=100&page=9>; rel=\"next\"")),
        Ok(1)
    );
    // The parser itself still refuses such a header.
    assert_eq!(extract_max_count(NEXT), Err(LinkError::NoLastEntry));
}

#[test]
fn tagged_entry_without_page_number_stays_fatal() {
    assert_eq!(
        max_page_count(Some("<https://h/x?per_page=100>; rel=\"last\"")),
        Err(LinkError::NoPageNumber)
    );
    let header = format!("{}, <https://h/x>; rel=\"last\"", NEXT);
    assert_eq!(max_page_count(Some(&header)), Err(LinkError::NoPageNumber));
}
