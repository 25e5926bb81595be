use typoena::render::wrap_text;

#[test]
fn wrap_text_treats_a_zero_width_as_one_column() {
    assert_eq!(wrap_text("ab c", 0), vec!["a", "b", "c"]);
}

#[test]
fn wrap_text_never_exceeds_the_width() {
    let msg = "pulled 1a2b3c4d - rebased onto origin/main, :gs to push the rest";
    for width in 1..40 {
        for line in wrap_text(msg, width) {
            assert!(!line.is_empty());
            assert!(line.chars().count() <= width, "{line:?} at {width}");
        }
    }
    assert_eq!(wrap_text("  many   spaces  ", 20), vec!["many spaces"]);
}
