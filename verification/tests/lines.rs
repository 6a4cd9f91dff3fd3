use minigrep::lines::{find_byte, split_first_line, split_lines};
use minigrep::substring::{contains, contains_bytes};

#[test]
fn text_without_terminator_is_one_line() {
    assert_eq!(split_lines("only"), vec!["only"]);
}

#[test]
fn empty_text_has_no_line() {
    assert!(split_lines("").is_empty());
}

#[test]
fn final_terminator_adds_no_empty_line() {
    assert_eq!(split_lines("a\nb\n"), vec!["a", "b"]);
    assert_eq!(split_lines("a\nb"), vec!["a", "b"]);
    assert_eq!(split_lines("a\r\nb\r\n"), vec!["a", "b"]);
}

#[test]
fn empty_lines_inside_are_kept() {
    assert_eq!(split_lines("\n"), vec![""]);
    assert_eq!(split_lines("\n\n"), vec!["", ""]);
    assert_eq!(split_lines("a\n\nb"), vec!["a", "", "b"]);
    assert_eq!(split_lines("\na"), vec!["", "a"]);
    assert_eq!(split_lines("\r\n"), vec![""]);
}

#[test]
fn carriage_return_before_line_feed_is_dropped() {
    assert_eq!(split_lines("a\r\nb"), vec!["a", "b"]);
    assert_eq!(split_lines("a\r\r\nb"), vec!["a\r", "b"]);
}

#[test]
fn lone_carriage_return_is_kept() {
    assert_eq!(split_lines("a\rb"), vec!["a\rb"]);
    assert_eq!(split_lines("a\rb\nc"), vec!["a\rb", "c"]);
    assert_eq!(split_lines("a\n\rb"), vec!["a", "\rb"]);
    assert_eq!(split_lines("a\r"), vec!["a\r"]);
    assert_eq!(split_lines("\r"), vec!["\r"]);
}

#[test]
fn lines_with_wide_characters() {
    assert_eq!(
        split_lines("\u{e9}t\u{e9}\n\u{65e5}\u{672c}\r\n\u{1f600}\n"),
        vec!["\u{e9}t\u{e9}", "\u{65e5}\u{672c}", "\u{1f600}"]
    );
}

#[test]
fn lines_agree_with_the_standard_library() {
    let samples = [
        "", "\n", "\r", "\r\n", "\n\r", "a", "a\n", "a\r", "a\r\n", "\na", "\ra", "\r\na",
        "a\nb", "a\rb", "a\r\nb", "a\n\nb", "a\r\n\r\nb", "a\r\r\nb", "a\n\r\nb", "a\nb\n\n",
        "\u{e9}\n\u{e8}\r\n", "x\u{85}y\u{2028}z\n", "tab\there\n", "\u{10a}\n",
    ];
    for sample in samples {
        let expected: Vec<&str> = sample.lines().collect();
        assert_eq!(split_lines(sample), expected, "for {:?}", sample);
    }
}

#[test]
fn first_line_is_cut_at_the_line_feed() {
    assert_eq!(split_first_line("ab\ncd\nef"), ("ab", "cd\nef"));
    assert_eq!(split_first_line("ab\r\ncd"), ("ab", "cd"));
    assert_eq!(split_first_line("\nrest"), ("", "rest"));
    assert_eq!(split_first_line("ab\n"), ("ab", ""));
}

#[test]
fn first_line_without_line_feed_is_the_text() {
    assert_eq!(split_first_line("abc"), ("abc", ""));
    assert_eq!(split_first_line("abc\r"), ("abc\r", ""));
}

#[test]
fn find_byte_gives_first_offset_or_length() {
    assert_eq!(find_byte(b"hello", b'l'), 2);
    assert_eq!(find_byte(b"hello", b'h'), 0);
    assert_eq!(find_byte(b"hello", b'z'), 5);
    assert_eq!(find_byte(b"", b'z'), 0);
}

#[test]
fn contains_finds_runs_of_characters() {
    assert!(contains("haystack", "hay"));
    assert!(contains("haystack", "stack"));
    assert!(contains("haystack", "yst"));
    assert!(contains("haystack", "haystack"));
    assert!(!contains("haystack", "haystacks"));
    assert!(!contains("haystack", "hat"));
    assert!(!contains("", "a"));
}

#[test]
fn contains_takes_the_empty_needle_everywhere() {
    assert!(contains("haystack", ""));
    assert!(contains("", ""));
}

#[test]
fn contains_on_wide_characters() {
    assert!(contains("na\u{ef}ve", "\u{ef}"));
    assert!(contains("na\u{ef}ve", "a\u{ef}v"));
    assert!(!contains("na\u{ef}ve", "\u{ee}"));
    assert!(!contains("naive", "\u{ef}"));
    assert!(contains("\u{1f600}\u{1f601}", "\u{1f601}"));
}

#[test]
fn contains_bytes_tries_every_offset() {
    assert!(contains_bytes(&[1, 2, 1, 2, 3], &[1, 2, 3]));
    assert!(contains_bytes(&[1, 2, 3], &[3]));
    assert!(contains_bytes(&[1, 2, 3], &[]));
    assert!(contains_bytes(&[], &[]));
    assert!(!contains_bytes(&[1, 2, 3], &[2, 1]));
    assert!(!contains_bytes(&[1, 2], &[1, 2, 3]));
}
