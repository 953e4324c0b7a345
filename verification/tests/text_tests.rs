use frank_wolfe::float_syntax::is_float_literal;
use frank_wolfe::output::{flow_output_extension, flow_output_path_for_step};
use frank_wolfe::text::{numbered_nonblank_lines, parse_usize, split_on, trimmed, words, IntError};
use std::num::IntErrorKind;
use std::path::PathBuf;

fn chars(s: &str) -> Vec<char> {
    s.chars().collect()
}

fn text(cs: &[char]) -> String {
    cs.iter().collect()
}

#[test]
fn parse_usize_agrees_with_std() {
    let max = usize::MAX.to_string();
    let over = format!("{}0", max);
    let cases = [
        "0", "42", "+7", "007", "", "+", "-1", "1 ", " 1", "12a", "x", &max, &over, "99999999999999999999999",
    ];
    for case in cases {
        let expected = match case.parse::<usize>() {
            Ok(n) => Ok(n),
            Err(e) => Err(match e.kind() {
                IntErrorKind::Empty => IntError::Empty,
                IntErrorKind::InvalidDigit => IntError::InvalidDigit,
                IntErrorKind::PosOverflow => IntError::PosOverflow,
                other => panic!("unexpected error kind {:?}", other),
            }),
        };
        assert_eq!(parse_usize(&chars(case)), expected, "case {:?}", case);
    }
}

#[test]
fn parse_usize_exact_values() {
    assert_eq!(parse_usize(&chars("1234")), Ok(1234));
    assert_eq!(parse_usize(&chars("")), Err(IntError::Empty));
    assert_eq!(parse_usize(&chars("1x")), Err(IntError::InvalidDigit));
}

#[test]
fn float_literal_agrees_with_std() {
    let cases = [
        "0", "1", "1.", ".5", "1.5", "+1.5", "-0.25", "1e5", "1E5", "1e+5", "1e-5", "1.5e3", ".5e3",
        "5.e3", "inf", "-inf", "+Infinity", "INF", "NaN", "-nan", "infin", "", ".", "+", "-", "e5",
        "1e", "1e+", "1.2.3", "1..2", " 1", "1 ", "1,5", "0x10", "1_000", "--1", "+-1", "1e5.5",
        "nana", "in", "12345678901234567890.5", "e", "E", "+.", "-.e1",
    ];
    for case in cases {
        assert_eq!(is_float_literal(&chars(case)), case.parse::<f64>().is_ok(), "case {:?}", case);
    }
}

#[test]
fn trimmed_split_and_words_agree_with_std() {
    let cases = ["", "  a b\t", "\u{3000}x\u{85}", "a\t\tb", "\tlead", "trail\t", ";;a; b;"];
    for case in cases {
        let cs = chars(case);
        assert_eq!(text(&trimmed(&cs)), case.trim());
        let pieces: Vec<String> = split_on(&cs, '\t').iter().map(|p| text(p)).collect();
        let expected: Vec<String> = case.split('\t').map(|p| p.to_string()).collect();
        assert_eq!(pieces, expected);
        let ws: Vec<String> = words(&cs).iter().map(|w| text(w)).collect();
        let expected: Vec<String> = case.split_whitespace().map(|w| w.to_string()).collect();
        assert_eq!(ws, expected);
    }
}

#[test]
fn numbered_nonblank_lines_skips_blank_lines() {
    let lines = numbered_nonblank_lines(&chars("a\n\n  \nb\r\nc\r\n \t\nd"));
    let got: Vec<(usize, String)> = lines.iter().map(|(n, l)| (*n, text(l))).collect();
    assert_eq!(
        got,
        vec![(1, "a".to_string()), (4, "b".to_string()), (5, "c".to_string()), (7, "d".to_string())]
    );
    assert!(numbered_nonblank_lines(&chars("")).is_empty());
    assert!(numbered_nonblank_lines(&chars("\n\n")).is_empty());
}

#[test]
fn flow_output_extension_values() {
    assert_eq!(flow_output_extension(1, 0), "csv");
    assert_eq!(flow_output_extension(10, 7), "007.csv");
    assert_eq!(flow_output_extension(10, 0), "000.csv");
    assert_eq!(flow_output_extension(2000, 1234), "1234.csv");
}

#[test]
fn flow_output_path_for_step_adds_the_extension() {
    let template = PathBuf::from("out/flow");
    assert_eq!(flow_output_path_for_step(&template, 1, 0), PathBuf::from("out/flow.csv"));
    assert_eq!(flow_output_path_for_step(&template, 5, 3), PathBuf::from("out/flow.003.csv"));
    let with_ext = PathBuf::from("flow.txt");
    assert_eq!(flow_output_path_for_step(&with_ext, 12, 11), PathBuf::from("flow.txt.011.csv"));
}
