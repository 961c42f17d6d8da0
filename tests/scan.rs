use lstrings::{find_strings, is_printable, FoundString};

#[test]
fn end_to_end_two_words() {
    let buf = b"\x00ABCD\x00EFGH\x00";
    let r = find_strings(buf, 3);
    assert_eq!(r, vec![FoundString(1, 5), FoundString(6, 10)]);
    assert_eq!(r[0].as_str(buf), "ABCD");
    assert_eq!(r[1].as_str(buf), "EFGH");
}

#[test]
fn run_at_end_is_flushed_once() {
    let buf = b"\x01hello";
    assert_eq!(find_strings(buf, 4), vec![FoundString(1, 6)]);
    assert_eq!(find_strings(b"whole", 1), vec![FoundString(0, 5)]);
}

#[test]
fn short_runs_are_dropped() {
    let buf = b"ab\x00abcd\x00abc";
    assert_eq!(find_strings(buf, 4), vec![FoundString(3, 7)]);
    assert_eq!(find_strings(buf, 5), vec![]);
    assert_eq!(find_strings(buf, 3).len(), 2);
}

#[test]
fn empty_buffer_has_no_strings() {
    assert_eq!(find_strings(b"", 0), vec![]);
    assert_eq!(find_strings(b"\x00\x7f\x1f", 0), vec![]);
}

#[test]
fn printable_range_bounds() {
    assert!(!is_printable(0x1F));
    assert!(is_printable(0x20));
    assert!(is_printable(0x7E));
    assert!(!is_printable(0x7F));
    assert!(!is_printable(0xFF));
    assert!(!is_printable(b'\n'));
}

#[test]
fn every_span_is_a_maximal_printable_run() {
    let buf: Vec<u8> = (0..600u32).map(|i| ((i * 37 + i / 7) % 256) as u8).collect();
    for t in 0..6 {
        for s in find_strings(&buf, t) {
            assert!(s.len() >= t);
            assert!(buf[s.start()..s.end()].iter().all(|&b| is_printable(b)));
            assert!(s.start() == 0 || !is_printable(buf[s.start() - 1]));
            assert!(s.end() == buf.len() || !is_printable(buf[s.end()]));
        }
    }
}

#[test]
fn scanning_twice_gives_the_same_spans() {
    let buf = b"xx\x00hello world\x10\x11more text\xffz";
    assert_eq!(find_strings(buf, 2), find_strings(buf, 2));
    assert_eq!(find_strings(buf, 2).len(), 3);
}

#[test]
fn found_string_accessors() {
    let buf = b"..hello..";
    let f = FoundString(2, 7);
    assert_eq!(f.start(), 2);
    assert_eq!(f.end(), 7);
    assert_eq!(f.len(), 5);
    assert_eq!(f.slice(buf), b"hello");
    assert_eq!(f.as_str(buf), "hello");
}
