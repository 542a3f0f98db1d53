use std::io::BufRead;
use textutils::head::{
    byte_count, head_bytes, head_lines, head_output, header, line_count, mark_chars, parse_positive,
};

#[test]
fn counts_as_the_standard_library_reads_them() {
    let max = usize::MAX.to_string();
    let over = format!("{}0", usize::MAX);
    let texts = [
        "0", "1", "10", "007", "+5", "+0", "+", "-", "", "-1", "-0", "++1", "+-1", "1+", "a", "1a", " 1", "1 ",
        "1.0", "\u{661}", max.as_str(), over.as_str(), "99999999999999999999999999999999999999999",
    ];
    for text in texts {
        let expected: Result<usize, String> = text.parse::<usize>().map_err(|_| text.to_string());
        assert_eq!(parse_positive(text), expected, "{:?}", text);
    }
    assert_eq!(parse_positive("42"), Ok(42));
    assert_eq!(parse_positive("four"), Err("four".to_string()));
}

#[test]
fn bad_counts_are_named() {
    assert_eq!(line_count("3"), Ok(3));
    assert_eq!(line_count("x3"), Err("illegal line count -- x3".to_string()));
    assert_eq!(line_count(""), Err("illegal line count -- ".to_string()));
    assert_eq!(byte_count("+12"), Ok(12));
    assert_eq!(byte_count("1k"), Err("illegal byte count -- 1k".to_string()));
}

#[test]
fn plus_before_each_character() {
    assert_eq!(mark_chars(""), "");
    assert_eq!(mark_chars("a"), "+a");
    assert_eq!(mark_chars("a+\u{e9}\n"), "+a+++\u{e9}+\n");
}

#[test]
fn first_bytes() {
    assert_eq!(head_bytes(b"abcdef", 3), "+a+b+c");
    assert_eq!(head_bytes(b"abc", 10), "+a+b+c");
    assert_eq!(head_bytes(b"abc", 0), "");
    assert_eq!(head_bytes(b"", 4), "");
    assert_eq!(head_bytes("a\u{e9}b".as_bytes(), 2), "+a+\u{fffd}");
    assert_eq!(head_bytes("a\u{e9}b".as_bytes(), 3), "+a+\u{e9}");
    assert_eq!(head_bytes(b"a\nb", 3), "+a+\n+b");
}

fn by_reader(data: &[u8], n: usize) -> String {
    let mut out = String::new();
    for line in std::io::Cursor::new(data).lines().take(n) {
        match line {
            Ok(text) => out.push_str(&text),
            Err(_) => out.push_str("Something"),
        }
        out.push('\n');
    }
    out
}

#[test]
fn first_lines() {
    assert_eq!(head_lines(b"a\nb\nc\n", 2), "a\nb\n");
    assert_eq!(head_lines(b"a\nb\nc", 5), "a\nb\nc\n");
    assert_eq!(head_lines(b"a\nb\nc", 0), "");
    assert_eq!(head_lines(b"", 3), "");
    assert_eq!(head_lines(b"a\r\nb\r", 3), "a\nb\r\n");
    assert_eq!(head_lines(b"ok\n\xff\xfe\nfine\n", 3), "ok\nSomething\nfine\n");
    assert_eq!(head_lines(b"\n\n", 9), "\n\n");
}

#[test]
fn first_lines_agree_with_a_reader() {
    let texts: [&[u8]; 9] = [
        b"",
        b"\n",
        b"a",
        b"a\n",
        b"a\r\n\r\nb\r",
        b"x\xffy\nz\n",
        b"\xc3\n\xa9\n",
        b"one\ntwo\nthree\nfour",
        "\u{4e2d}\u{6587}\r\n\u{e9}".as_bytes(),
    ];
    for data in texts {
        for n in [0usize, 1, 2, 3, 10] {
            assert_eq!(head_lines(data, n), by_reader(data, n), "{:?} {}", data, n);
        }
    }
}

#[test]
fn bytes_take_the_place_of_lines() {
    assert_eq!(head_output(b"ab\ncd\n", 1, None), "ab\n");
    assert_eq!(head_output(b"ab\ncd\n", 1, Some(4)), "+a+b+\n+c");
    assert_eq!(head_output(b"ab\ncd\n", 10, Some(0)), "");
}

#[test]
fn headers_for_files_among_several() {
    assert_eq!(header("a.txt", 2), Some("\n==> a.txt <==\n".to_string()));
    assert_eq!(header("a.txt", 1), None);
    assert_eq!(header("a.txt", 0), None);
    assert_eq!(header("-", 3), None);
    assert_eq!(header("", 3), None);
    assert_eq!(header("--", 3), Some("\n==> -- <==\n".to_string()));
    assert_eq!(header("-a", 2), Some("\n==> -a <==\n".to_string()));
    assert_eq!(header("\u{e9}", 2), Some("\n==> \u{e9} <==\n".to_string()));
}
