use klattsch::normalize::normalize;

#[test]
fn ascii_passes_through() {
    assert_eq!(normalize("HH AH L OW"), "HH AH L OW");
}

#[test]
fn strips_zero_width_joiner() {
    let s = format!("AH{}AH", '\u{200D}');
    assert_eq!(normalize(&s), "AHAH");
}

#[test]
fn folds_cyrillic_lookalikes() {
    // Cyrillic А (U+0410) and С (U+0421) should fold to Latin A and C.
    assert_eq!(normalize("\u{0410}\u{0421}"), "AC");
}

#[test]
fn nfkc_normalizes_compat_chars() {
    // Fullwidth A (U+FF21) should NFKC-fold to plain A.
    assert_eq!(normalize("\u{FF21}H"), "AH");
}
