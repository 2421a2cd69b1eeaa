use klattsch::normalize::{fold_homoglyph, is_zero_width};
use klattsch::text::{chars_of, push_decimal, push_joined, push_str};

#[test]
fn decimal_numerals() {
    for n in [0u64, 7, 10, 99, 100, 48_000, u64::MAX] {
        let mut out = vec!['x'];
        push_decimal(&mut out, n);
        let s: String = out[1..].iter().collect();
        assert_eq!(s, n.to_string());
    }
}

#[test]
fn joining_strings() {
    let mut out = Vec::new();
    push_joined(&mut out, &["a".to_owned(), "bc".to_owned()], " -> ");
    assert_eq!(out.iter().collect::<String>(), "a -> bc");
    let mut out = Vec::new();
    push_joined(&mut out, &[], ", ");
    assert!(out.is_empty());
}

#[test]
fn chars_and_pushes() {
    assert_eq!(chars_of("añ"), vec!['a', 'ñ']);
    let mut out = vec!['<'];
    push_str(&mut out, "ok>");
    assert_eq!(out, vec!['<', 'o', 'k', '>']);
}

#[test]
fn character_helpers() {
    assert!(is_zero_width('\u{200B}'));
    assert!(is_zero_width('\u{FEFF}'));
    assert!(!is_zero_width('A'));
    assert_eq!(fold_homoglyph('\u{0410}'), 'A');
    assert_eq!(fold_homoglyph('x'), 'x');
}
