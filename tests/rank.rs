use lstrings::wide::{cmp_scaled_squares, mul_wide};
use lstrings::{
    search, sort_by_bigrams, sort_by_position, sort_results, BigramMap, FormatOption, FoundString,
    SortDirection, SortOption,
};
use std::cmp::Ordering;

fn starts(v: &[FoundString]) -> Vec<usize> {
    v.iter().map(|f| f.start()).collect()
}

#[test]
fn address_ascending_orders_by_start() {
    let spans = vec![FoundString(5, 6), FoundString(1, 2), FoundString(9, 10)];
    let r = sort_by_position(spans, SortOption::Address, SortDirection::Ascending);
    assert_eq!(starts(&r), vec![1, 5, 9]);
}

#[test]
fn address_descending_orders_by_start() {
    let spans = vec![FoundString(5, 6), FoundString(1, 2), FoundString(9, 10)];
    let r = sort_by_position(spans, SortOption::Address, SortDirection::Descending);
    assert_eq!(starts(&r), vec![9, 5, 1]);
}

#[test]
fn length_descending_puts_longest_first() {
    let spans = vec![FoundString(0, 2), FoundString(10, 17), FoundString(20, 24)];
    let r = sort_by_position(spans, SortOption::Length, SortDirection::Descending);
    assert_eq!(r, vec![FoundString(10, 17), FoundString(20, 24), FoundString(0, 2)]);
}

#[test]
fn length_sort_is_stable() {
    let spans = vec![
        FoundString(0, 3),
        FoundString(5, 6),
        FoundString(10, 13),
        FoundString(20, 23),
    ];
    let asc = sort_by_position(spans.clone(), SortOption::Length, SortDirection::Ascending);
    assert_eq!(starts(&asc), vec![5, 0, 10, 20]);
    let desc = sort_by_position(spans, SortOption::Length, SortDirection::Descending);
    assert_eq!(starts(&desc), vec![0, 10, 20, 5]);
}

#[test]
fn english_ranks_by_similarity() {
    let mut reference = BigramMap::new();
    reference.add("the");
    reference.add("then");
    reference.add("there");
    let buf = b"qzxj\x00then\x00theft\x00";
    let spans = vec![FoundString(0, 4), FoundString(5, 9), FoundString(10, 15)];
    let asc = sort_by_bigrams(buf, spans.clone(), SortDirection::Ascending, &reference);
    assert_eq!(starts(&asc), vec![0, 10, 5]);
    let desc = sort_by_bigrams(buf, spans, SortDirection::Descending, &reference);
    assert_eq!(starts(&desc), vec![5, 10, 0]);
}

#[test]
fn english_space_only_span_ranks_lowest() {
    let reference = BigramMap::from_str("abcd");
    let buf = b"    \x00zzzz\x00abcd";
    let spans = vec![FoundString(5, 9), FoundString(0, 4), FoundString(10, 14)];
    let asc = sort_by_bigrams(buf, spans.clone(), SortDirection::Ascending, &reference);
    assert_eq!(starts(&asc), vec![0, 5, 10]);
    let desc = sort_by_bigrams(buf, spans, SortDirection::Descending, &reference);
    assert_eq!(starts(&desc), vec![10, 5, 0]);
}

#[test]
fn english_equal_scores_keep_scan_order() {
    let reference = BigramMap::from_str("abab");
    let buf = b"qqqq\x00abab\x00abab";
    let spans = vec![FoundString(5, 9), FoundString(0, 4), FoundString(10, 14)];
    let desc = sort_by_bigrams(buf, spans, SortDirection::Descending, &reference);
    assert_eq!(starts(&desc), vec![5, 10, 0]);
}

#[test]
fn sort_results_dispatches_on_mode() {
    let buf = b"\x00ab\x00abcdef\x00abcd";
    let spans = vec![FoundString(1, 3), FoundString(4, 10), FoundString(11, 15)];
    let reference = BigramMap::new();
    let r = sort_results(buf, spans.clone(), SortOption::Length, SortDirection::Descending, &reference);
    assert_eq!(starts(&r), vec![4, 11, 1]);
    let r = sort_results(buf, spans, SortOption::Address, SortDirection::Descending, &reference);
    assert_eq!(starts(&r), vec![11, 4, 1]);
}

#[test]
fn search_scans_then_sorts() {
    let buf = b"\x00ABCD\x00EFGH\x00";
    let reference = BigramMap::new();
    let r = search(buf, 3, SortOption::Address, SortDirection::Ascending, &reference);
    assert_eq!(r, vec![FoundString(1, 5), FoundString(6, 10)]);
    let r = search(buf, 3, SortOption::Address, SortDirection::Descending, &reference);
    assert_eq!(r, vec![FoundString(6, 10), FoundString(1, 5)]);
    let r = search(b"\x00ab\x00abcdef\x00", 2, SortOption::Length, SortDirection::Descending, &reference);
    assert_eq!(r, vec![FoundString(4, 10), FoundString(1, 3)]);
}

#[test]
fn selectors_parse() {
    assert_eq!(FormatOption::from_str("n"), Some(FormatOption::NoFormat));
    assert_eq!(FormatOption::from_str("d"), Some(FormatOption::Decimal));
    assert_eq!(FormatOption::from_str("o"), Some(FormatOption::Octal));
    assert_eq!(FormatOption::from_str("x"), Some(FormatOption::Hexadecimal));
    assert_eq!(FormatOption::from_str("q"), None);
    assert_eq!(FormatOption::from_str("dd"), None);
    assert_eq!(SortOption::from_str("address"), Some(SortOption::Address));
    assert_eq!(SortOption::from_str("length"), Some(SortOption::Length));
    assert_eq!(SortOption::from_str("english"), Some(SortOption::English));
    assert_eq!(SortOption::from_str("len"), None);
    assert_eq!(SortOption::from_str(""), None);
}

#[test]
fn wide_product_exact() {
    assert_eq!(mul_wide(u128::MAX, u128::MAX), (u128::MAX - 1, 1));
    assert_eq!(mul_wide(1 << 64, 1 << 64), (1, 0));
    assert_eq!(mul_wide(3, 5), (0, 15));
}

#[test]
fn scaled_squares_compare() {
    assert_eq!(cmp_scaled_squares(2, 3, 3, 1), Ordering::Greater);
    assert_eq!(cmp_scaled_squares(3, 1, 2, 3), Ordering::Less);
    assert_eq!(cmp_scaled_squares(6, 1, 3, 4), Ordering::Equal);
    let big = (1u128 << 80) - 1;
    assert_eq!(cmp_scaled_squares(big, big, big, big - 1), Ordering::Greater);
}

#[test]
fn search_english_mode() {
    let mut reference = BigramMap::new();
    reference.add("the");
    reference.add("then");
    reference.add("there");
    let buf = b"qzxj\x00then\x00theft\x00ab";
    let r = search(buf, 3, SortOption::English, SortDirection::Descending, &reference);
    assert_eq!(r, vec![FoundString(5, 9), FoundString(10, 15), FoundString(0, 4)]);
}
