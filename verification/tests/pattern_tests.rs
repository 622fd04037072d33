use logkv::pattern::find;
use logkv::pattern::find_in;
use logkv::pattern::matches_here;

#[test]
fn find_gives_the_leftmost_position() {
    assert_eq!(find(b"a,b,c", b","), Some(1));
    assert_eq!(find(b"abcabc", b"bc"), Some(1));
    assert_eq!(find(b"abc", b"abc"), Some(0));
}

#[test]
fn find_gives_none_where_the_token_is_absent() {
    assert_eq!(find(b"abc", b","), None);
    assert_eq!(find(b"", b","), None);
    assert_eq!(find(b"ab", b"abc"), None);
}

#[test]
fn find_sees_overlapping_tokens() {
    assert_eq!(find(b"xaaa", b"aa"), Some(1));
    assert_eq!(find(b"aab", b"ab"), Some(1));
}

#[test]
fn the_empty_token_stands_at_the_start() {
    assert_eq!(find(b"abc", b""), Some(0));
    assert_eq!(find(b"", b""), Some(0));
}

#[test]
fn find_in_counts_from_the_start_of_the_window() {
    assert_eq!(find_in(b"a,b,c", 2, 5, b","), Some(1));
    assert_eq!(find_in(b"a,b,c", 2, 3, b","), None);
    assert_eq!(find_in(b"a,b,c", 0, 1, b","), None);
    assert_eq!(find_in(b"a,b,c", 4, 4, b","), None);
}

#[test]
fn find_in_does_not_look_behind_the_window() {
    assert_eq!(find_in(b"ab\r\ncd", 0, 3, b"\r\n"), None);
    assert_eq!(find_in(b"ab\r\ncd", 0, 4, b"\r\n"), Some(2));
}

#[test]
fn matches_here_tests_one_position() {
    assert!(matches_here(b"hello", b"ll", 2));
    assert!(!matches_here(b"hello", b"ll", 1));
    assert!(!matches_here(b"hello", b"lo", 4));
    assert!(!matches_here(b"hello", b"ll", 9));
    assert!(matches_here(b"hello", b"", 5));
    assert!(!matches_here(b"hello", b"", 6));
}

#[test]
fn find_in_finds_nothing_in_a_window_outside_the_buffer() {
    assert_eq!(find_in(b"a,b", 2, 1, b","), None);
    assert_eq!(find_in(b"a,b", 0, 4, b","), None);
    assert_eq!(find_in(b"a,b", 5, 9, b""), None);
}
