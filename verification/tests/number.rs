use klattsch::number::{is_float_literal, note_to_midi, parse_i32};

fn chars(s: &str) -> Vec<char> {
    s.chars().collect()
}

#[test]
fn float_grammar_agrees_with_the_std_parser() {
    let cases = [
        "0", "120", "+30", "-0.5", ".5", "5.", "1e3", "1E-3", "+.5e+2", "inf", "-Infinity", "NaN",
        "nan", "infinity", "", ".", "+", "-", "e5", "1e", "1e+", "1.2.3", "0x10", "1_000", "abc",
        "--1", "+-1", " 1", "1 ", "INF", "infx", "3.14",
    ];
    for c in cases {
        assert_eq!(
            is_float_literal(&chars(c)),
            c.parse::<f32>().is_ok(),
            "disagreement on {c:?}"
        );
    }
}

#[test]
fn parse_i32_matches_the_std_parser() {
    let cases = [
        "0", "4", "-1", "+7", "2147483647", "-2147483648", "2147483648", "-2147483649", "", "-",
        "+", "1a", "007", " 1",
    ];
    for c in cases {
        assert_eq!(parse_i32(&chars(c)), c.parse::<i32>().ok(), "disagreement on {c:?}");
    }
}

#[test]
fn note_names_to_midi() {
    assert_eq!(note_to_midi(&chars("A4")), Some(69));
    assert_eq!(note_to_midi(&chars("C4")), Some(60));
    assert_eq!(note_to_midi(&chars("C#4")), Some(61));
    assert_eq!(note_to_midi(&chars("Bb4")), Some(70));
    assert_eq!(note_to_midi(&chars("C-1")), Some(0));
    assert_eq!(note_to_midi(&chars("H4")), None);
    assert_eq!(note_to_midi(&chars("C")), None);
    assert_eq!(note_to_midi(&chars("")), None);
}
