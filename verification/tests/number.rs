use ui_base::number::has_at_most_decimal_places;

#[test]
fn decimal_validation_allows_drafts_but_limits_fraction_digits() {
    assert!(has_at_most_decimal_places("", 2));
    assert!(has_at_most_decimal_places("1.", 2));
    assert!(has_at_most_decimal_places("1.10", 2));
    assert!(!has_at_most_decimal_places("1.100", 2));
}

#[test]
fn decimal_places_count_every_character_after_the_first_point() {
    assert!(has_at_most_decimal_places("12", 0));
    assert!(has_at_most_decimal_places(".", 0));
    assert!(!has_at_most_decimal_places("1.5", 0));
    assert!(!has_at_most_decimal_places("1.2.3", 2));
    assert!(has_at_most_decimal_places("1.2.3", 3));
    assert!(has_at_most_decimal_places("0.éé", 2));
    assert!(!has_at_most_decimal_places("0.ééé", 2));
    assert!(has_at_most_decimal_places("1.23", usize::MAX));
}
