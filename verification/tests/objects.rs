use typoena::objects::{pair_object, quote_object, text_object, word_object};

#[test]
fn inner_word_is_the_run_under_the_caret() {
    assert_eq!(word_object("foo bar", 1, false), (0, 3));
    assert_eq!(word_object("foo   bar", 4, false), (3, 6));
    assert_eq!(word_object("ab\ncd", 3, false), (3, 5));
    assert_eq!(word_object("foo bar", 99, false), (4, 7));
    assert_eq!(word_object("", 0, true), (0, 0));
}

#[test]
fn around_word_takes_trailing_blanks_else_leading_ones() {
    assert_eq!(word_object("foo bar", 1, true), (0, 4));
    assert_eq!(word_object("foo  bar", 6, true), (3, 8));
    assert_eq!(word_object("foo   bar", 4, true), (3, 6));
}

#[test]
fn a_caret_on_a_newline_joins_the_words_around_it() {
    assert_eq!(word_object("ab\ncd", 2, false), (0, 5));
}

#[test]
fn bracket_objects_nest() {
    let t = "f(a(b)c)";
    assert_eq!(pair_object(t, 4, b'(', b')', false), Some((4, 5)));
    assert_eq!(pair_object(t, 4, b'(', b')', true), Some((3, 6)));
    assert_eq!(pair_object(t, 6, b'(', b')', false), Some((2, 7)));
    assert_eq!(pair_object(t, 1, b'(', b')', false), Some((2, 7)));
    assert_eq!(pair_object(t, 7, b'(', b')', true), Some((1, 8)));
}

#[test]
fn bracket_objects_need_both_brackets() {
    assert_eq!(pair_object("ab", 0, b'(', b')', false), None);
    assert_eq!(pair_object("(ab", 1, b'(', b')', false), None);
    assert_eq!(pair_object("", 0, b'(', b')', false), None);
}

#[test]
fn quote_objects_pair_quotes_left_to_right() {
    let t = "say \"hi\" and \"yo\"";
    assert_eq!(quote_object(t, 5, b'"', false), Some((5, 7)));
    assert_eq!(quote_object(t, 5, b'"', true), Some((4, 8)));
    assert_eq!(quote_object(t, 10, b'"', false), Some((14, 16)));
    assert_eq!(quote_object(t, 17, b'"', false), None);
    assert_eq!(quote_object("\"a\nb\"", 1, b'"', false), None);
}

#[test]
fn text_object_dispatches_on_the_object_char() {
    let t = "x [a] {b} <c> 'd' `e`";
    assert_eq!(text_object(t, 3, ']', false), Some((3, 4)));
    assert_eq!(text_object(t, 7, 'B', true), Some((6, 9)));
    assert_eq!(text_object(t, 11, '>', false), Some((11, 12)));
    assert_eq!(text_object(t, 15, '\'', false), Some((15, 16)));
    assert_eq!(text_object(t, 19, '`', true), Some((18, 21)));
    assert_eq!(text_object(t, 0, 'w', false), Some((0, 1)));
    assert_eq!(text_object(t, 0, 'x', false), None);
    assert_eq!(text_object("(a)", 1, 'b', false), Some((1, 2)));
}
