use typoena::motions::{
    advance_chars, line_end, line_start, move_down, move_left, move_right, move_up, next_char,
    prev_char, word_back_pos, word_end_pos, word_forward_pos,
};

#[test]
fn normal_h_and_l_step_one_char() {
    let t = "abc";
    let c = move_left(t, 2);
    assert_eq!(c, 1);
    let c = move_left(t, c);
    assert_eq!(c, 0);
    assert_eq!(move_right(t, c), 1);
}

#[test]
fn h_and_l_stop_at_the_line_edges() {
    let t = "ab\ncd";
    assert_eq!(move_left(t, 3), 3);
    assert_eq!(move_right(t, 2), 2);
    assert_eq!(move_right(t, 1), 2);
    assert_eq!(move_right(t, 5), 5);
}

#[test]
fn word_forward_lands_on_next_word_start() {
    assert_eq!(word_forward_pos("foo bar", 0), 4);
    assert_eq!(word_forward_pos("foo  \n bar", 1), 7);
    assert_eq!(word_forward_pos("foo", 1), 3);
}

#[test]
fn word_back_goes_to_the_start_of_the_word_before() {
    assert_eq!(word_back_pos("foo bar", 6), 4);
    assert_eq!(word_back_pos("foo bar", 4), 0);
    assert_eq!(word_back_pos("foo  bar", 5), 0);
    assert_eq!(word_back_pos("foo", 0), 0);
}

#[test]
fn normal_hl_step_over_multibyte_chars() {
    let t = "aéb";
    let c = move_left(t, 3);
    assert_eq!(c, 1);
    let c = move_left(t, c);
    assert_eq!(c, 0);
    let c = move_right(t, c);
    assert_eq!(c, 1);
    assert_eq!(move_right(t, c), 3);
}

#[test]
fn char_steps_cross_whole_multibyte_chars() {
    let t = "aé€😀";
    assert_eq!(next_char(t, 0), 1);
    assert_eq!(next_char(t, 1), 3);
    assert_eq!(next_char(t, 3), 6);
    assert_eq!(next_char(t, 6), 10);
    assert_eq!(next_char(t, 10), 10);
    assert_eq!(prev_char(t, 10), 6);
    assert_eq!(prev_char(t, 6), 3);
    assert_eq!(prev_char(t, 1), 0);
    assert_eq!(prev_char(t, 0), 0);
}

#[test]
fn e_lands_on_the_last_char_of_an_accented_word() {
    assert_eq!(word_end_pos("café bar", 0), 3);
    assert_eq!(word_end_pos("café bar", 3), 8);
    assert_eq!(word_end_pos("ab", 1), 1);
    assert_eq!(word_end_pos("a   ", 0), 0);
}

#[test]
fn line_bounds_stop_at_newlines() {
    let t = "one\ntwo\n\nthree";
    assert_eq!(line_start(t, 5), 4);
    assert_eq!(line_start(t, 4), 4);
    assert_eq!(line_start(t, 2), 0);
    assert_eq!(line_end(t, 5), 7);
    assert_eq!(line_end(t, 8), 8);
    assert_eq!(line_end(t, 10), 14);
    assert_eq!(line_end(t, 20), 20);
}

#[test]
fn advance_counts_chars_and_clamps_to_the_end() {
    let t = "éé\nxxx";
    assert_eq!(advance_chars(t, 0, 1, 4), 2);
    assert_eq!(advance_chars(t, 0, 5, 4), 4);
    assert_eq!(advance_chars(t, 5, 0, 8), 5);
}

#[test]
fn vertical_move_keeps_char_column_across_accents() {
    let t = "éé\nxxx";
    let c = move_up(t, 7);
    assert!(t.is_char_boundary(c));
    assert_eq!(c, 4);
    assert_eq!(move_up(t, 5), 0);
    assert_eq!(move_down(t, 2), 6);
    assert_eq!(move_down(t, 6), 6);
    assert_eq!(move_up(t, 2), 2);
}
