use textutils::cut::{parse_pos, to_extract_type, to_position_list, to_range, Extract, ParseError};
use textutils::extract::{extract, extract_bytes, extract_chars, extract_fields, select_items};
use textutils::text::split_bounds;

fn token(text: &str) -> ParseError {
    ParseError::InvalidToken(text.to_string())
}

#[test]
fn single_position_is_one_range() {
    for n in [1usize, 2, 9, 10, 11, 99, 100, 12345, usize::MAX] {
        assert_eq!(parse_pos(&n.to_string()), Ok(vec![n - 1..n]));
    }
}

#[test]
fn range_of_positions_is_one_range() {
    for (low, high) in [(1usize, 2usize), (1, 3), (9, 10), (19, 20), (1, usize::MAX), (usize::MAX - 1, usize::MAX)] {
        assert_eq!(parse_pos(&format!("{}-{}", low, high)), Ok(vec![low - 1..high]));
    }
}

#[test]
fn range_must_ascend() {
    for (low, high) in [(1usize, 1usize), (2, 1), (10, 9), (usize::MAX, 1), (7, 7)] {
        assert_eq!(parse_pos(&format!("{}-{}", low, high)), Err(ParseError::InvalidRangeOrder(low, high)));
    }
    assert_eq!(parse_pos("02-01"), Err(ParseError::InvalidRangeOrder(2, 1)));
}

#[test]
fn leading_zeros_change_nothing() {
    assert_eq!(parse_pos("01"), parse_pos("1"));
    assert_eq!(parse_pos("0001-03"), parse_pos("1-3"));
    assert_eq!(parse_pos("007"), Ok(vec![6..7]));
    assert_eq!(parse_pos("000000000000000000000000000000000012"), Ok(vec![11..12]));
    assert_eq!(parse_pos("010-0020"), Ok(vec![9..20]));
}

#[test]
fn zeros_before_any_number_of_a_selection() {
    let plain = ["1,7,3-5", "2-4,9", "12", "8-10,1", "1,a", "3-2", "0", "1-0", "5,,6", "1-2-3", "x7", "7x"];
    let padded = ["1,07,3-5", "2-004,9", "0012", "8-10,01", "01,a", "03-2", "00", "1-00", "5,,06", "1-02-3", "x07", "07x"];
    for (a, b) in plain.iter().zip(padded.iter()) {
        let (first, second) = (parse_pos(a), parse_pos(b));
        assert_eq!(first.is_ok(), second.is_ok(), "{} {}", a, b);
        if first.is_ok() {
            assert_eq!(first, second, "{} {}", a, b);
        }
    }
    assert_eq!(parse_pos("1,07,003-05"), Ok(vec![0..1, 6..7, 2..5]));
    assert_eq!(parse_pos("03-2"), Err(ParseError::InvalidRangeOrder(3, 2)));
}

#[test]
fn order_of_items_is_kept() {
    assert_eq!(parse_pos("1,7,3-5"), Ok(vec![0..1, 6..7, 2..5]));
    assert_eq!(parse_pos("3-5,1,3-5,1"), Ok(vec![2..5, 0..1, 2..5, 0..1]));
    let both = parse_pos("9,2-4,8,1").unwrap();
    let mut joined = parse_pos("9,2-4").unwrap();
    joined.extend(parse_pos("8,1").unwrap());
    assert_eq!(both, joined);
}

#[test]
fn first_bad_item_decides() {
    assert_eq!(parse_pos("1,a,0"), Err(token("a")));
    assert_eq!(parse_pos("0,a"), Err(token("0")));
    assert_eq!(parse_pos("2-0,a"), Err(token("2-0")));
    assert_eq!(parse_pos("3-2,x"), Err(ParseError::InvalidRangeOrder(3, 2)));
    assert_eq!(parse_pos("1,,x"), Err(ParseError::EmptySelection));
}

#[test]
fn rejected_selections() {
    assert_eq!(parse_pos(""), Err(ParseError::EmptySelection));
    assert_eq!(parse_pos("0"), Err(token("0")));
    assert_eq!(parse_pos("0-1"), Err(token("0-1")));
    assert_eq!(parse_pos("1-0"), Err(token("1-0")));
    assert_eq!(parse_pos("00-1"), Err(token("00-1")));
    assert_eq!(parse_pos("0-0"), Err(token("0-0")));
    assert_eq!(parse_pos("00"), Err(token("00")));
    assert_eq!(parse_pos("3,0-1"), Err(token("0-1")));
    assert_eq!(parse_pos("+1"), Err(token("+1")));
    assert_eq!(parse_pos("+1-2"), Err(token("+1-2")));
    assert_eq!(parse_pos("1-+2"), Err(token("1-+2")));
    assert_eq!(parse_pos("a"), Err(token("a")));
    assert_eq!(parse_pos("1,a"), Err(token("a")));
    assert_eq!(parse_pos("1-a"), Err(token("1-a")));
    assert_eq!(parse_pos("a-1"), Err(token("a-1")));
    assert_eq!(parse_pos("-"), Err(token("-")));
    assert_eq!(parse_pos(","), Err(ParseError::EmptySelection));
    assert_eq!(parse_pos("1,"), Err(ParseError::EmptySelection));
    assert_eq!(parse_pos(",1"), Err(ParseError::EmptySelection));
    assert_eq!(parse_pos("1-"), Err(token("1-")));
    assert_eq!(parse_pos("-1"), Err(token("-1")));
    assert_eq!(parse_pos("1-1-1"), Err(token("1-1-1")));
    assert_eq!(parse_pos("1-1-a"), Err(token("1-1-a")));
    assert_eq!(parse_pos("1--2"), Err(token("1--2")));
    assert_eq!(parse_pos("1-1"), Err(ParseError::InvalidRangeOrder(1, 1)));
    assert_eq!(parse_pos("2-1"), Err(ParseError::InvalidRangeOrder(2, 1)));
    assert_eq!(parse_pos(" 1"), Err(token(" 1")));
    assert_eq!(parse_pos("1 "), Err(token("1 ")));
    assert_eq!(parse_pos("1.5"), Err(token("1.5")));
    assert_eq!(parse_pos("\u{661}"), Err(token("\u{661}")));
    assert_eq!(parse_pos("\u{661}-\u{662}"), Err(token("\u{661}-\u{662}")));
}

#[test]
fn numbers_that_do_not_fit() {
    let big = "340282366920938463463374607431768211456";
    assert_eq!(parse_pos(big), Err(token(big)));
    assert_eq!(parse_pos(&format!("1-{}", big)), Err(token(&format!("1-{}", big))));
    assert_eq!(parse_pos(&format!("{}-1", big)), Err(token(&format!("{}-1", big))));
    let over = format!("{}0", usize::MAX);
    assert_eq!(parse_pos(&over), Err(token(&over)));
    let max = usize::MAX.to_string();
    assert_eq!(parse_pos(&max), Ok(vec![usize::MAX - 1..usize::MAX]));
}

#[test]
fn messages() {
    assert_eq!(token("x-y").to_string(), "illegal list value: \"x-y\"");
    assert_eq!(token("").to_string(), "illegal list value: \"\"");
    assert_eq!(ParseError::EmptySelection.to_string(), "illegal list value: \"\"");
    assert_eq!(
        ParseError::InvalidRangeOrder(120, 7).to_string(),
        "First number in range (120) must be lower than second number (7)"
    );
    assert_eq!(
        ParseError::InvalidRangeOrder(usize::MAX, 0).to_string(),
        format!("First number in range ({}) must be lower than second number (0)", usize::MAX)
    );
}

#[test]
fn one_item() {
    assert_eq!(to_range("7"), Ok(6..7));
    assert_eq!(to_range("3-5"), Ok(2..5));
    assert_eq!(to_range(""), Err(ParseError::EmptySelection));
    assert_eq!(to_range("1,2"), Err(token("1,2")));
    assert_eq!(to_range("5-3"), Err(ParseError::InvalidRangeOrder(5, 3)));
}

#[test]
fn items_given_one_by_one() {
    let items = vec!["1".to_string(), "7".to_string(), "3-5".to_string()];
    assert_eq!(to_position_list(items), Ok(vec![0..1, 6..7, 2..5]));
    assert_eq!(to_position_list(vec![]), Ok(vec![]));
    let items = vec!["1".to_string(), "x".to_string(), "0".to_string()];
    assert_eq!(to_position_list(items), Err(token("x")));
    assert_eq!(to_position_list(vec!["1,2".to_string()]), Err(token("1,2")));
}

#[test]
fn kinds_of_extraction() {
    assert_eq!(to_extract_type("f", vec![0..1]), Extract::Fields(vec![0..1]));
    assert_eq!(to_extract_type("c", vec![0..1]), Extract::Chars(vec![0..1]));
    assert_eq!(to_extract_type("b", vec![2..5]), Extract::Bytes(vec![2..5]));
}

#[test]
fn fields_scenario() {
    let how = Extract::Fields(parse_pos("1,3").unwrap());
    assert_eq!(extract("a,b,c,d", b',', &how), "a,c");
}

#[test]
fn bytes_scenario() {
    let how = Extract::Bytes(parse_pos("1-3").unwrap());
    assert_eq!(extract("abcdef", b'\t', &how), "abc");
}

#[test]
fn fields_past_the_end_give_nothing() {
    let how = Extract::Fields(parse_pos("5-10").unwrap());
    assert_eq!(extract("a,b,c", b',', &how), "");
    let how = Extract::Fields(parse_pos("2,5-10").unwrap());
    assert_eq!(extract("a,b,c", b',', &how), "b");
    let how = Extract::Fields(parse_pos("2-10").unwrap());
    assert_eq!(extract("a,b,c", b',', &how), "b,c");
    let how = Extract::Bytes(parse_pos("5-10").unwrap());
    assert_eq!(extract("abc", b',', &how), "");
    let how = Extract::Chars(parse_pos("3-10,7").unwrap());
    assert_eq!(extract("abcd", b',', &how), "cd");
}

#[test]
fn characters_stay_whole() {
    let line = "a\u{e9}b\u{4e2d}c";
    let how = Extract::Chars(parse_pos("2").unwrap());
    assert_eq!(extract(line, b'\t', &how), "\u{e9}");
    let how = Extract::Chars(parse_pos("1-2,4").unwrap());
    assert_eq!(extract(line, b'\t', &how), "a\u{e9}\u{4e2d}");
    let how = Extract::Chars(parse_pos("4-5,1").unwrap());
    assert_eq!(extract(line, b'\t', &how), "\u{4e2d}ca");
    for selection in ["1", "2", "3", "4", "5", "1-3", "2-4", "3-9", "5,4,3,2,1"] {
        let out = extract(line, b'\t', &Extract::Chars(parse_pos(selection).unwrap()));
        assert!(!out.contains('\u{fffd}'));
        assert!(out.chars().all(|c| line.contains(c)));
    }
}

#[test]
fn bytes_may_split_a_character() {
    let line = "a\u{e9}b";
    let how = Extract::Bytes(parse_pos("1-2").unwrap());
    assert_eq!(extract(line, b'\t', &how), "a\u{fffd}");
    let how = Extract::Bytes(parse_pos("1-3").unwrap());
    assert_eq!(extract(line, b'\t', &how), "a\u{e9}");
    let how = Extract::Bytes(parse_pos("3").unwrap());
    assert_eq!(extract(line, b'\t', &how), "\u{fffd}");
    assert_eq!(extract_bytes(line.as_bytes(), &vec![1..2]), vec![0xc3]);
}

#[test]
fn same_cut_twice() {
    let how = Extract::Fields(parse_pos("3,1-2").unwrap());
    assert_eq!(extract("x\ty\tz", b'\t', &how), extract("x\ty\tz", b'\t', &how));
    assert_eq!(extract("x\ty\tz", b'\t', &how), "z\tx\ty");
}

#[test]
fn fields_keep_their_text() {
    let positions = parse_pos("1-4").unwrap();
    assert_eq!(extract_fields(b" a ,\"b,c\", d", b',', &positions), b" a ,\"b,c\", d".to_vec());
    assert_eq!(extract_fields(b"a,,c", b',', &vec![1..2]), b"".to_vec());
    assert_eq!(extract_fields(b"a,,c", b',', &vec![1..3]), b",c".to_vec());
    assert_eq!(extract_fields(b"a,,c", b',', &vec![0..2]), b"a,".to_vec());
    assert_eq!(extract_fields(b"", b',', &vec![0..1]), b"".to_vec());
    assert_eq!(extract_fields(b"abc", b',', &vec![0..1]), b"abc".to_vec());
    assert_eq!(extract_fields(b"abc", b',', &vec![0..1, 0..1]), b"abc,abc".to_vec());
    assert_eq!(extract_fields(b",", b',', &vec![0..2]), b",".to_vec());
    assert_eq!(extract_fields(b"a\xffb\xffc", 0xff, &vec![2..3, 0..1]), b"c\xffa".to_vec());
}

#[test]
fn pieces_between_separators() {
    assert_eq!(split_bounds(b"", b','), vec![0..0]);
    assert_eq!(split_bounds(b"abc", b','), vec![0..3]);
    assert_eq!(split_bounds(b"a,bc,", b','), vec![0..1, 2..4, 5..5]);
    assert_eq!(split_bounds(b",,", b','), vec![0..0, 1..1, 2..2]);
    assert_eq!(split_bounds(&['a', '\n', '\u{e9}'], '\n'), vec![0..1, 2..3]);
}

#[test]
fn items_by_ranges() {
    let items = [10, 20, 30, 40];
    assert_eq!(select_items(&items, &[1..3]), vec![20, 30]);
    assert_eq!(select_items(&items, &[3..9, 0..1]), vec![40, 10]);
    assert_eq!(select_items(&items, &[4..5, 9..12]), Vec::<i32>::new());
    assert_eq!(select_items(&items, &[3..1]), Vec::<i32>::new());
    assert_eq!(select_items(&items, &[]), Vec::<i32>::new());
    assert_eq!(select_items(&items, &[0..4, 0..4]), vec![10, 20, 30, 40, 10, 20, 30, 40]);
}

#[test]
fn characters_by_ranges() {
    assert_eq!(extract_chars("hello", &vec![0..1, 4..5]), "ho");
    assert_eq!(extract_chars("", &vec![0..1]), "");
    assert_eq!(extract_chars("h\u{e9}llo", &vec![1..3]), "\u{e9}l");
}
