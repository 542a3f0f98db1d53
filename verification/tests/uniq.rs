use textutils::uniq::{Config, Counter};

fn counter(count: bool, repeats: bool, uniques: bool, case: bool) -> Counter {
    Counter { count, repeats, uniques, case }
}

fn runs(pairs: &[(u128, &str)]) -> Vec<(u128, String)> {
    pairs.iter().map(|(n, s)| (*n, s.to_string())).collect()
}

#[test]
fn counter_takes_the_flags_of_the_request() {
    let config = Config {
        in_file: "-".to_string(),
        out_file: Some("out".to_string()),
        count: true,
        repeats: false,
        uniques: true,
        case: true,
    };
    let c = Counter::new(&config);
    assert!(c.count && !c.repeats && c.uniques && c.case);
    let c = config.get_counter();
    assert!(c.count && !c.repeats && c.uniques && c.case);
}

#[test]
fn runs_of_equal_lines() {
    let c = counter(false, false, false, false);
    assert_eq!(c.count(""), runs(&[]));
    assert_eq!(c.count("a"), runs(&[(1, "a")]));
    assert_eq!(c.count("a\n"), runs(&[(1, "a")]));
    assert_eq!(c.count("a\na\n"), runs(&[(2, "a")]));
    assert_eq!(c.count("a\nb\na\n"), runs(&[(1, "a"), (1, "b"), (1, "a")]));
    assert_eq!(c.count("a\na\nb\nb\nb\nc"), runs(&[(2, "a"), (3, "b"), (1, "c")]));
    assert_eq!(c.count("\n\nx\n\n"), runs(&[(2, ""), (1, "x"), (1, "")]));
    assert_eq!(c.count("a\nA\n"), runs(&[(1, "a"), (1, "A")]));
}

#[test]
fn line_ends_are_no_part_of_a_line() {
    let c = counter(false, false, false, false);
    assert_eq!(c.count("a\r\na\n"), runs(&[(2, "a")]));
    assert_eq!(c.count("a\r\na\r"), runs(&[(1, "a"), (1, "a\r")]));
    assert_eq!(c.count("a\r\r\n"), runs(&[(1, "a\r")]));
}

#[test]
fn case_of_ascii_letters_ignored_on_request() {
    let c = counter(false, false, false, true);
    assert_eq!(c.count("a\nA\nb"), runs(&[(2, "A"), (1, "b")]));
    assert_eq!(c.count("Hello\nhELLO\nhello!\n"), runs(&[(2, "hELLO"), (1, "hello!")]));
    assert_eq!(c.count("\u{e9}\n\u{c9}\n"), runs(&[(1, "\u{e9}"), (1, "\u{c9}")]));
    assert_eq!(c.count("@\n`\n[\n{\n"), runs(&[(1, "@"), (1, "`"), (1, "["), (1, "{")]));
    assert_eq!(c.count("Z\nz\nA\na\n"), runs(&[(2, "z"), (2, "a")]));
}

#[test]
fn lengths_of_runs_add_up_to_the_lines() {
    let c = counter(false, false, false, false);
    let text = "x\nx\ny\nz\nz\nz\nx\n\n\n";
    let total: u128 = c.count(text).iter().map(|(n, _)| *n).sum();
    assert_eq!(total, text.lines().count() as u128);
    let data = c.count(text);
    assert!(data.windows(2).all(|w| w[0].1 != w[1].1));
    assert!(data.iter().all(|(n, _)| *n >= 1));
}

#[test]
fn picking_runs() {
    let data = runs(&[(2, "a"), (1, "b"), (3, "c"), (1, "d")]);
    assert_eq!(counter(false, false, false, false).filter(data.clone()), data);
    assert_eq!(counter(false, true, false, false).filter(data.clone()), runs(&[(2, "a"), (3, "c")]));
    assert_eq!(counter(false, false, true, false).filter(data.clone()), runs(&[(1, "b"), (1, "d")]));
    assert_eq!(counter(false, true, true, false).filter(data.clone()), runs(&[(2, "a"), (3, "c")]));
    assert_eq!(counter(false, true, false, false).filter(runs(&[(0, "z")])), runs(&[]));
    assert_eq!(counter(false, false, true, false).filter(runs(&[(0, "z")])), runs(&[]));
}

#[test]
fn writing_runs() {
    let data = runs(&[(2, "a"), (1, "b"), (12345, "c")]);
    assert_eq!(counter(false, false, false, false).format(data.clone()), "a\nb\nc");
    assert_eq!(counter(true, false, false, false).format(data.clone()), "   2 a\n   1 b\n12345 c");
    assert_eq!(counter(true, true, false, false).format(data.clone()), "   2 a\n12345 c");
    assert_eq!(counter(true, false, true, false).format(data.clone()), "   1 b");
    assert_eq!(counter(true, false, false, false).format(runs(&[])), "");
    assert_eq!(counter(false, false, false, false).format(runs(&[(1, "")])), "");
    assert_eq!(counter(false, false, false, false).format(runs(&[(1, ""), (1, "")])), "\n");
    assert_eq!(counter(true, false, false, false).format(runs(&[(9999, "x"), (10000, "y")])), "9999 x\n10000 y");
    assert_eq!(
        counter(true, false, false, false).format(runs(&[(u128::MAX, "m")])),
        format!("{:>4} m", u128::MAX)
    );
}

#[test]
fn count_then_format() {
    let c = counter(true, false, false, true);
    assert_eq!(c.format(c.count("one\nOne\ntwo\n\nthree\nTHREE\nthree\n")), "   2 One\n   1 two\n   1 \n   3 three");
}
