use exercises::greet::begins_with_w;

#[test]
fn names_starting_with_w_are_greeted() {
    assert!(begins_with_w("Wendy"));
    assert!(begins_with_w("walter"));
}

#[test]
fn other_names_are_not_greeted() {
    assert!(!begins_with_w("Bob"));
    assert!(!begins_with_w("aW"));
    assert!(!begins_with_w(""));
}
