use textutils::wc::{count_bytes, count_chars, count_lines, count_words, Config, WcReader, WcResult};

fn reader(lines: bool, words: bool, bytes: bool, chars: bool) -> WcReader {
    WcReader { lines, words, bytes, chars }
}

#[test]
fn nothing_asked_means_lines_words_bytes() {
    let c = Config::new(None, false, false, false, false);
    assert!(c.lines && c.words && c.bytes && !c.chars);
    assert!(c.files.is_none());
    let c = Config::new(Some(vec!["a".to_string()]), false, true, false, false);
    assert!(!c.lines && c.words && !c.bytes && !c.chars);
    assert_eq!(c.files, Some(vec!["a".to_string()]));
    let c = Config::new(None, false, false, false, true);
    assert!(!c.lines && !c.words && !c.bytes && c.chars);
    let c = Config::new(None, true, true, true, true);
    assert!(c.lines && c.words && c.bytes && c.chars);
}

#[test]
fn reader_takes_the_flags_of_the_request() {
    let c = Config::new(None, true, false, false, true);
    let r = WcReader::new(&c);
    assert!(r.lines && !r.words && !r.bytes && r.chars);
    let r = c.get_reader();
    assert!(r.lines && !r.words && !r.bytes && r.chars);
}

#[test]
fn bytes_and_characters() {
    assert_eq!(count_bytes(""), 0);
    assert_eq!(count_bytes("abc"), 3);
    assert_eq!(count_bytes("a\u{e9}\u{4e2d}\u{1f600}"), 10);
    assert_eq!(count_chars(""), 0);
    assert_eq!(count_chars("abc"), 3);
    assert_eq!(count_chars("a\u{e9}\u{4e2d}\u{1f600}"), 4);
}

#[test]
fn lines_as_the_standard_library_counts_them() {
    for text in ["", "a", "a\n", "a\nb", "a\n\n", "\n", "\r\n", "a\r\nb\r", "a\rb\n", "\n\n\nx", "foo\nbar\n\r\nbaz\r"] {
        assert_eq!(count_lines(text), text.lines().count() as u128, "{:?}", text);
    }
    assert_eq!(count_lines("a\nb\nc\n"), 3);
    assert_eq!(count_lines("a\nb\nc"), 3);
}

#[test]
fn words_as_the_standard_library_counts_them() {
    let texts = [
        "",
        " ",
        "a",
        " a ",
        "a b",
        "a  b\tc\nd",
        "\u{a0}x\u{2003}y\u{3000}",
        "x\u{b}y\u{c}z\u{85}w",
        "one\u{200b}word",
        "  lead and trail  \n",
    ];
    for text in texts {
        assert_eq!(count_words(text), text.split_whitespace().count() as u128, "{:?}", text);
    }
    assert_eq!(count_words("the quick  brown\nfox"), 4);
}

#[test]
fn counts_come_in_order() {
    let text = "one two\nthree \u{e9}\n";
    assert_eq!(text.len(), 17);
    assert_eq!(text.chars().count(), 16);
    assert_eq!(reader(true, true, true, false).tally(text).0, vec![2, 4, 17]);
    assert_eq!(reader(true, true, false, true).tally(text).0, vec![2, 4, 16]);
    assert_eq!(reader(true, true, true, true).tally(text).0, vec![2, 4, 17]);
    assert_eq!(reader(false, true, false, false).tally(text).0, vec![4]);
    assert_eq!(reader(false, false, false, true).tally(text).0, vec![16]);
    assert_eq!(reader(false, false, false, false).tally(text).0, Vec::<u128>::new());
}

#[test]
fn bytes_of_a_file_are_read_as_text() {
    let r = reader(true, true, true, false);
    assert_eq!(r.wc(b"one two\nthree\n").0, vec![2, 3, 14]);
    assert_eq!(r.wc(b"").0, vec![0, 0, 0]);
    assert_eq!(r.wc(b"a\xffb").0, vec![1, 1, 5]);
    assert_eq!(reader(false, false, false, true).wc(b"a\xffb").0, vec![3]);
}

#[test]
fn columns_of_eight() {
    assert_eq!(WcResult::new(vec![]).format(), "");
    assert_eq!(WcResult::new(vec![1, 22, 333]).format(), "       1      22     333");
    assert_eq!(WcResult::new(vec![12345678, 123456789]).format(), "12345678123456789");
    assert_eq!(WcResult::new(vec![0]).format(), "       0");
    assert_eq!(WcResult::new(vec![u128::MAX]).format(), format!("{:>8}", u128::MAX));
}

#[test]
fn adding_place_by_place() {
    let sum = WcResult::new(vec![1, 2, 3]).add(WcResult::new(vec![10, 20, 30]));
    assert_eq!(sum.0, vec![11, 22, 33]);
    let sum = WcResult::new(vec![0, 0, 0]).add(WcResult::new(vec![7]));
    assert_eq!(sum.0, vec![7]);
    let sum = WcResult::new(vec![5]).add(WcResult::new(vec![1, 2]));
    assert_eq!(sum.0, vec![6]);
    let sum = WcResult::new(vec![]).add(WcResult::new(vec![1, 2]));
    assert_eq!(sum.0, Vec::<u128>::new());
    let sum = WcResult::new(vec![u128::MAX - 1]).add(WcResult::new(vec![1]));
    assert_eq!(sum.0, vec![u128::MAX]);
}
