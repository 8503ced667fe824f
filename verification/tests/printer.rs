use exercises::printer::display_curr;

#[test]
fn small_positive_values_are_zero_padded() {
    assert_eq!(&display_curr(5, '£', 2), "£0.05");
    assert_eq!(&display_curr(3, '£', 2), "£0.03");
}

#[test]
fn negative_values_carry_a_leading_minus() {
    assert_eq!(&display_curr(-3, '£', 2), "-£0.03");
    assert_eq!(&display_curr(-3456, '£', 2), "-£34.56");
}

#[test]
fn values_split_at_the_decimal_point() {
    assert_eq!(&display_curr(3456, '£', 2), "£34.56");
    assert_eq!(&display_curr(1230, '£', 2), "£12.30");
}

#[test]
fn other_symbols_and_widths_are_respected() {
    assert_eq!(&display_curr(123456, 'T', 4), "T12.3456");
    assert_eq!(&display_curr(-1234560, 'T', 5), "-T12.34560");
}

#[test]
fn zero_decimal_places_end_with_the_point() {
    assert_eq!(&display_curr(7, '$', 0), "$7.");
}

#[test]
fn printing_inverts_parsing() {
    let (c, v) = exercises::parse::parse_money("-£123.45", 2).unwrap();
    assert_eq!(&display_curr(v, c, 2), "-£123.45");
}
