use uclient::helpers::DeleteParams;

#[test]
fn the_three_modes_are_valid() {
    assert!(DeleteParams { mode: "erase".to_string() }.is_valid());
    assert!(DeleteParams { mode: "trash".to_string() }.is_valid());
    assert!(DeleteParams { mode: "restore".to_string() }.is_valid());
}

#[test]
fn a_mode_mentioning_a_word_is_valid() {
    assert!(DeleteParams { mode: "soft-trash".to_string() }.is_valid());
    assert!(DeleteParams { mode: "xerasey".to_string() }.is_valid());
}

#[test]
fn other_modes_are_invalid() {
    assert!(!DeleteParams { mode: "delete".to_string() }.is_valid());
    assert!(!DeleteParams { mode: "".to_string() }.is_valid());
    assert!(!DeleteParams { mode: "eras".to_string() }.is_valid());
}
