use edf_scheduler::loader::{
    load_processes, parse_line, split, Line, ParseError, ParseErrorKind, Workload,
};
use edf_scheduler::ratio::Ratio;
use edf_scheduler::text::{
    blank, find, find_separator, line_spans, read_decimal, read_numeral, to_chars, trim_bounds,
};

fn chars(s: &str) -> Vec<char> {
    s.chars().collect()
}

fn load(text: &str) -> Workload {
    match load_processes(text) {
        Ok(w) => w,
        Err(e) => panic!("the text should load: {:?}", e),
    }
}

fn error_of(text: &str) -> ParseError {
    match load_processes(text) {
        Ok(_) => panic!("the text should not load"),
        Err(e) => e,
    }
}

fn names_in_order(w: &mut Workload) -> Vec<(String, u32, u64)> {
    let mut out = Vec::new();
    while let Some(q) = w.arrival_queue.pop() {
        out.push((q.process.task_id.clone(), q.key, q.seq));
    }
    out
}

#[test]
fn loads_a_single_task() {
    let mut w = load("Task: (a, c, d, cs)\nT1: (0, 3, 5, 1)\n");
    assert!(w.speeds.is_none());
    assert_eq!(w.arrival_queue.len(), 1);
    let q = w.arrival_queue.pop().unwrap();
    assert_eq!(q.process.task_id, "T1");
    assert_eq!(q.process.computation, 3);
    assert_eq!(q.process.deadline, 5);
    assert_eq!(q.process.context_time, 1);
    assert_eq!(q.key, 0);
    assert_eq!(q.seq, 0);
    assert!(w.arrival_queue.is_empty());
}

#[test]
fn header_is_not_read() {
    let w = load("this line: (has, no, meaning");
    assert!(w.arrival_queue.is_empty());
    let w = load("");
    assert!(w.arrival_queue.is_empty());
    assert!(w.speeds.is_none());
    let w = load("\n");
    assert!(w.arrival_queue.is_empty());
}

#[test]
fn arrival_queue_is_by_time_then_by_line() {
    let mut w = load("h\nB: (5, 1, 9, 0)\nA: (0, 1, 9, 0)\nC: (5, 2, 9, 0)\nD: (2, 1, 9, 0)");
    assert_eq!(
        names_in_order(&mut w),
        vec![
            ("A".to_string(), 0, 1),
            ("D".to_string(), 2, 3),
            ("B".to_string(), 5, 0),
            ("C".to_string(), 5, 2),
        ]
    );
}

#[test]
fn tasks_with_the_same_fields_are_kept_apart() {
    let mut w = load("h\nT: (4, 1, 9, 0)\nT: (4, 1, 9, 0)\n");
    assert_eq!(w.arrival_queue.len(), 2);
    assert_eq!(
        names_in_order(&mut w),
        vec![("T".to_string(), 4, 0), ("T".to_string(), 4, 1)]
    );
}

#[test]
fn speeds_line_may_stand_anywhere() {
    let mut w = load("h\nA: (0, 1, 9, 0)\nPossible speeds: (0.25, 0.5, 1.0)\nB: (1, 1, 9, 0)\n");
    assert_eq!(
        w.speeds,
        Some(vec![
            Ratio { num: 25, den: 100 },
            Ratio { num: 5, den: 10 },
            Ratio { num: 10, den: 10 },
        ])
    );
    assert_eq!(
        names_in_order(&mut w),
        vec![("A".to_string(), 0, 0), ("B".to_string(), 1, 1)]
    );
}

#[test]
fn the_last_speeds_line_counts() {
    let w = load("h\nPossible speeds: (0.5)\nPossible speeds: (2, .75, 3.)\n");
    assert_eq!(
        w.speeds,
        Some(vec![
            Ratio { num: 2, den: 1 },
            Ratio { num: 75, den: 100 },
            Ratio { num: 3, den: 1 },
        ])
    );
}

#[test]
fn white_space_round_a_line_is_left_out() {
    let mut w = load("h\r\n  T1: (7, 3, 5, 1)\t\r\n");
    let q = w.arrival_queue.pop().unwrap();
    assert_eq!(q.process.task_id, "T1");
    assert_eq!(q.key, 7);
}

#[test]
fn more_than_four_fields_are_read_and_not_used() {
    let mut w = load("h\nT1: (1, 2, 3, 4, 5)\n");
    let q = w.arrival_queue.pop().unwrap();
    assert_eq!(
        (q.key, q.process.computation, q.process.deadline, q.process.context_time),
        (1, 2, 3, 4)
    );
    assert_eq!(
        error_of("h\nT1: (1, 2, 3, 4, x)\n"),
        ParseError { line: 2, kind: ParseErrorKind::NonNumericField }
    );
}

#[test]
fn a_line_without_colon_is_refused() {
    assert_eq!(
        error_of("h\nT1 (0, 3, 5, 1)\n"),
        ParseError { line: 2, kind: ParseErrorKind::MissingSeparator }
    );
}

#[test]
fn an_empty_line_is_refused() {
    assert_eq!(
        error_of("h\nT1: (0, 3, 5, 1)\n\nT2: (0, 3, 5, 1)\n"),
        ParseError { line: 3, kind: ParseErrorKind::MissingSeparator }
    );
}

#[test]
fn missing_brackets_are_refused() {
    for text in ["h\nT1: 0, 3, 5, 1)", "h\nT1: (0, 3, 5, 1", "h\nT1:(0, 3, 5, 1)", "h\nT1: ("] {
        assert_eq!(
            error_of(text),
            ParseError { line: 2, kind: ParseErrorKind::MissingSeparator }
        );
    }
}

#[test]
fn fewer_than_four_fields_are_refused() {
    assert_eq!(
        error_of("h\nT1: (0, 3, 5)\n"),
        ParseError { line: 2, kind: ParseErrorKind::MissingSeparator }
    );
}

#[test]
fn a_field_that_is_no_number_is_refused() {
    for text in [
        "h\nT1: (0, x, 5, 1)",
        "h\nT1: (0,3, 5, 1)",
        "h\nT1: (0,  3, 5, 1)",
        "h\nT1: (0, -3, 5, 1)",
        "h\nT1: (0, 3.0, 5, 1)",
        "h\nT1: (0, 65536, 5, 1)",
        "h\nT1: ()",
        "h\nT1: (1, 2, 3, )",
    ] {
        assert_eq!(
            error_of(text),
            ParseError { line: 2, kind: ParseErrorKind::NonNumericField },
            "{}",
            text
        );
    }
}

#[test]
fn a_field_that_is_no_number_counts_before_a_missing_field() {
    assert_eq!(
        error_of("h\nT1: (0, x)"),
        ParseError { line: 2, kind: ParseErrorKind::NonNumericField }
    );
}

#[test]
fn context_cost_above_a_byte_is_refused() {
    assert_eq!(
        error_of("h\nT0: (0, 3, 5, 255)\nT1: (0, 3, 5, 256)\n"),
        ParseError { line: 3, kind: ParseErrorKind::FieldRangeOverflow }
    );
}

#[test]
fn largest_fields_load() {
    let mut w = load("h\nT: (65535, 65535, 65535, 255)");
    let q = w.arrival_queue.pop().unwrap();
    assert_eq!(
        (q.key, q.process.computation, q.process.deadline, q.process.context_time),
        (65535, 65535, 65535, 255)
    );
}

#[test]
fn a_speed_that_is_no_decimal_is_refused() {
    for text in [
        "h\nPossible speeds: (0.5, fast)",
        "h\nPossible speeds: (inf)",
        "h\nPossible speeds: (NaN)",
        "h\nPossible speeds: (1e)",
        "h\nPossible speeds: (1e99)",
        "h\nPossible speeds: (1e-19)",
        "h\nPossible speeds: (.)",
        "h\nPossible speeds: (1.2.3)",
        "h\nPossible speeds: ()",
        "h\nPossible speeds: (0.1234567890123456789)",
    ] {
        assert_eq!(
            error_of(text),
            ParseError { line: 2, kind: ParseErrorKind::NonNumericField },
            "{}",
            text
        );
    }
}

#[test]
fn the_first_bad_line_is_reported() {
    assert_eq!(
        error_of("h\nA: (0, 1, 2, 3)\nB: (0, 1, 2, 300)\nC\n"),
        ParseError { line: 3, kind: ParseErrorKind::FieldRangeOverflow }
    );
}

#[test]
fn loading_twice_gives_the_same_queue() {
    let text = "h\nB: (5, 1, 9, 0)\nA: (0, 1, 9, 0)\nPossible speeds: (0.5, 1)\nC: (5, 2, 9, 0)\n";
    let mut first = load(text);
    let mut second = load(text);
    assert_eq!(first.speeds, second.speeds);
    assert_eq!(names_in_order(&mut first), names_in_order(&mut second));
}

#[test]
fn a_name_is_what_stands_before_the_first_colon() {
    assert_eq!(
        error_of("h\nnet: rx: (0, 1, 2, 3)\n"),
        ParseError { line: 2, kind: ParseErrorKind::MissingSeparator }
    );
    let mut w = load("h\na (b) c: (4, 5, 6, 7)\n: (1, 2, 3, 4)\n");
    assert_eq!(w.arrival_queue.pop().unwrap().process.task_id, "");
    assert_eq!(w.arrival_queue.pop().unwrap().process.task_id, "a (b) c");
}

#[test]
fn parse_line_reads_a_task() {
    match parse_line(&chars(" Task 7: (10, 20, 30, 40) ")) {
        Ok(Line::Task { process, arrival }) => {
            assert_eq!(process.task_id, "Task 7");
            assert_eq!(arrival, 10);
            assert_eq!(process.computation, 20);
            assert_eq!(process.deadline, 30);
            assert_eq!(process.context_time, 40);
        }
        other => panic!("{:?}", other),
    }
}

#[test]
fn parse_line_reads_speeds() {
    match parse_line(&chars("Possible speeds: (0.75, 1)")) {
        Ok(Line::Speeds { table }) => {
            assert_eq!(table, vec![Ratio { num: 75, den: 100 }, Ratio { num: 1, den: 1 }]);
        }
        other => panic!("{:?}", other),
    }
}

#[test]
fn split_reads_numbers_or_speeds() {
    let f = split(&chars("1, 22, +3"), false).unwrap();
    assert_eq!(f.args, vec![1, 22, 3]);
    assert!(f.speeds.is_empty());
    let f = split(&chars("0.5, 12.25"), true).unwrap();
    assert!(f.args.is_empty());
    assert_eq!(f.speeds, vec![Ratio { num: 5, den: 10 }, Ratio { num: 1225, den: 100 }]);
    assert_eq!(split(&chars("1, 0.5"), false).unwrap_err(), ParseErrorKind::NonNumericField);
    assert_eq!(split(&chars("1,, 2"), true).unwrap_err(), ParseErrorKind::NonNumericField);
}

#[test]
fn numerals() {
    assert_eq!(read_numeral(&chars("0")), Some(0));
    assert_eq!(read_numeral(&chars("007")), Some(7));
    assert_eq!(read_numeral(&chars("+15")), Some(15));
    assert_eq!(read_numeral(&chars("65535")), Some(65535));
    assert_eq!(read_numeral(&chars("65536")), None);
    assert_eq!(read_numeral(&chars("99999999999999999999999")), None);
    assert_eq!(read_numeral(&chars("")), None);
    assert_eq!(read_numeral(&chars("+")), None);
    assert_eq!(read_numeral(&chars("1 ")), None);
    assert_eq!(read_numeral(&chars("١")), None);
}

#[test]
fn decimals() {
    assert_eq!(read_decimal(&chars("1")), Some(Ratio { num: 1, den: 1 }));
    assert_eq!(read_decimal(&chars("1.0")), Some(Ratio { num: 10, den: 10 }));
    assert_eq!(read_decimal(&chars("0.125")), Some(Ratio { num: 125, den: 1000 }));
    assert_eq!(read_decimal(&chars(".5")), Some(Ratio { num: 5, den: 10 }));
    assert_eq!(read_decimal(&chars("5.")), Some(Ratio { num: 5, den: 1 }));
    assert_eq!(
        read_decimal(&chars("999999999.999999999")),
        Some(Ratio { num: 999_999_999_999_999_999, den: 1_000_000_000 })
    );
    assert_eq!(read_decimal(&chars("1000000000.000000000")), None);
    assert_eq!(read_decimal(&chars("")), None);
    assert_eq!(read_decimal(&chars("1,5")), None);
    assert_eq!(read_decimal(&chars("+")), None);
    assert_eq!(read_decimal(&chars("e5")), None);
    assert_eq!(read_decimal(&chars("1e")), None);
    assert_eq!(read_decimal(&chars("1e+")), None);
    assert_eq!(read_decimal(&chars("1e1e1")), None);
    assert_eq!(read_decimal(&chars("++1")), None);
    assert_eq!(read_decimal(&chars("inf")), None);
    assert_eq!(read_decimal(&chars("nan")), None);
}

#[test]
fn decimals_with_sign_and_exponent() {
    assert_eq!(read_decimal(&chars("+1")), Some(Ratio { num: 1, den: 1 }));
    assert_eq!(read_decimal(&chars("+0.75")), Some(Ratio { num: 75, den: 100 }));
    assert_eq!(read_decimal(&chars("-0.5")), Some(Ratio { num: 5, den: -10 }));
    assert_eq!(read_decimal(&chars("-2")), Some(Ratio { num: 2, den: -1 }));
    assert_eq!(read_decimal(&chars("1e3")), Some(Ratio { num: 1000, den: 1 }));
    assert_eq!(read_decimal(&chars("1E3")), Some(Ratio { num: 1000, den: 1 }));
    assert_eq!(read_decimal(&chars("2.5e-3")), Some(Ratio { num: 25, den: 10000 }));
    assert_eq!(read_decimal(&chars("1.5e1")), Some(Ratio { num: 15, den: 1 }));
    assert_eq!(read_decimal(&chars("1.5e+2")), Some(Ratio { num: 150, den: 1 }));
    assert_eq!(read_decimal(&chars("+.5e+1")), Some(Ratio { num: 5, den: 1 }));
    assert_eq!(read_decimal(&chars("-7.e-2")), Some(Ratio { num: 7, den: -100 }));
    assert_eq!(read_decimal(&chars("1.25e0")), Some(Ratio { num: 125, den: 100 }));
    assert_eq!(
        read_decimal(&chars("999999999999999999e18")),
        Some(Ratio { num: 999_999_999_999_999_999_000_000_000_000_000_000, den: 1 })
    );
    assert_eq!(
        read_decimal(&chars("1e-18")),
        Some(Ratio { num: 1, den: 1_000_000_000_000_000_000 })
    );
    assert_eq!(read_decimal(&chars("1e19")), None);
    assert_eq!(read_decimal(&chars("1e-19")), None);
    assert_eq!(read_decimal(&chars("0.5e-18")), None);
    assert_eq!(read_decimal(&chars("0.123456789012345678e18")), Some(Ratio { num: 123456789012345678, den: 1 }));
}

#[test]
fn speeds_with_sign_and_exponent_load() {
    let w = load("h\nPossible speeds: (+0.5, 1e0, 25e-2, -1)\n");
    assert_eq!(
        w.speeds,
        Some(vec![
            Ratio { num: 5, den: 10 },
            Ratio { num: 1, den: 1 },
            Ratio { num: 25, den: 100 },
            Ratio { num: 1, den: -1 },
        ])
    );
}

#[test]
fn lines_trims_and_separators() {
    let text = chars("ab\n\ncd\n");
    let spans: Vec<(usize, usize)> =
        line_spans(&text).iter().map(|s| (s.start, s.end)).collect();
    assert_eq!(spans, vec![(0, 2), (3, 3), (4, 6)]);
    assert_eq!(line_spans(&chars("x")).len(), 1);
    assert_eq!(line_spans(&chars("")).len(), 0);
    let t = trim_bounds(&chars(" \t ab c \r"));
    assert_eq!((t.start, t.end), (3, 7));
    let t = trim_bounds(&chars("   "));
    assert_eq!(t.start, t.end);
    assert!(blank('\u{3000}') && blank('\n') && !blank('a') && !blank('\u{200b}'));
    assert_eq!(find(&chars("ab:c:"), ':'), 2);
    assert_eq!(find(&chars("abc"), ':'), 3);
    assert_eq!(find_separator(&chars("a,b, c")), 3);
    assert_eq!(find_separator(&chars("a,b,")), 4);
    assert_eq!(to_chars("añb"), vec!['a', 'ñ', 'b']);
}
