use klattsch::phonemes::lookup_row;

#[test]
fn first_row_of_a_name_wins() {
    let table: &[(&str, u32)] = &[("AA", 1), ("B", 2), ("AA", 3)];
    assert_eq!(lookup_row(table, "AA"), Some(1));
    assert_eq!(lookup_row(table, "B"), Some(2));
    assert_eq!(lookup_row(table, "XYZZY"), None);
    assert_eq!(lookup_row::<u32>(&[], "AA"), None);
}
