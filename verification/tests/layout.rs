use typoena::layout::{
    adjust_scroll, caret_rc, gutter_cols, is_heading_at, layout, logical_lines,
    move_display_rows, scroll_to_reveal, text_cols, HALF_PAGE, ROWS, WRITE_COLS,
};

fn rows(text: &str, cols: usize) -> Vec<(usize, String)> {
    layout(text, cols).into_iter().map(|l| (l.start, l.text)).collect()
}

#[test]
fn gutter_is_two_digits_plus_separator_for_small_files() {
    let t = "one\ntwo\nthree";
    assert_eq!(logical_lines(t), 3);
    assert_eq!(gutter_cols(t, true), 3);
    assert_eq!(text_cols(t, true), WRITE_COLS - 3);
}

#[test]
fn gutter_widens_past_ninety_nine_lines() {
    let t = "x\n".repeat(120);
    assert_eq!(gutter_cols(&t, true), 4);
    assert_eq!(text_cols(&t, true), WRITE_COLS - 4);
}

#[test]
fn gutter_narrows_the_soft_wrap_width() {
    let t = "a".repeat(WRITE_COLS);
    let cols = text_cols(&t, true);
    assert!(cols < WRITE_COLS);
    let lay = layout(&t, cols);
    assert_eq!(lay[0].text.chars().count(), cols);
    assert!(lay.len() >= 2);
}

#[test]
fn line_numbers_off_reclaims_the_gutter_columns() {
    assert_eq!(gutter_cols("a\nb", false), 0);
    assert_eq!(text_cols("a\nb", false), WRITE_COLS);
}

#[test]
fn wrap_breaks_after_the_last_space_that_fits() {
    assert_eq!(rows("aaa bbb ccc", 8), vec![(0, "aaa bbb ".to_string()), (8, "ccc".to_string())]);
}

#[test]
fn an_overlong_word_is_hard_broken_at_the_column() {
    assert_eq!(
        rows("abcdefghij", 4),
        vec![(0, "abcd".to_string()), (4, "efgh".to_string()), (8, "ij".to_string())]
    );
}

#[test]
fn empty_lines_keep_a_row_and_offsets_count_the_newlines() {
    assert_eq!(
        rows("a\n\nb", 5),
        vec![(0, "a".to_string()), (2, String::new()), (3, "b".to_string())]
    );
    assert_eq!(rows("", 5), vec![(0, String::new())]);
}

#[test]
fn wrapping_counts_chars_but_offsets_are_bytes() {
    assert_eq!(rows("éé éé", 3), vec![(0, "éé ".to_string()), (5, "éé".to_string())]);
}

#[test]
fn the_caret_row_is_the_last_row_starting_at_or_before_it() {
    let t = "aaa bbb ccc";
    let lay = layout(t, 8);
    assert_eq!(caret_rc(t, &lay, 9), (1, 1));
    assert_eq!(caret_rc(t, &lay, 3), (0, 3));
    let t = "é\nxé";
    let lay = layout(t, 8);
    assert_eq!(caret_rc(t, &lay, 6), (1, 2));
}

#[test]
fn half_page_down_steps_display_rows_within_a_wrapped_line() {
    let t = "a".repeat(WRITE_COLS * 10);
    let cols = text_cols(&t, true);
    assert_eq!(move_display_rows(&t, 0, cols, HALF_PAGE as isize), cols * HALF_PAGE);
}

#[test]
fn half_page_up_is_the_inverse_within_a_wrapped_line() {
    let t = "a".repeat(WRITE_COLS * 10);
    let cols = text_cols(&t, true);
    assert_eq!(move_display_rows(&t, cols * HALF_PAGE, cols, -(HALF_PAGE as isize)), 0);
}

#[test]
fn half_page_clamps_at_both_ends() {
    let t = "a".repeat(WRITE_COLS * 3);
    let cols = text_cols(&t, true);
    assert_eq!(move_display_rows(&t, 0, cols, -(HALF_PAGE as isize)), 0);
    let c = move_display_rows(&t, 0, cols, HALF_PAGE as isize);
    let c = move_display_rows(&t, c, cols, HALF_PAGE as isize);
    assert!(c <= t.len());
    assert!(t.is_char_boundary(c));
    assert_eq!(c, cols * 3);
}

#[test]
fn display_row_moves_keep_the_column_on_multibyte_rows() {
    let t = "ééé ééé";
    assert_eq!(move_display_rows(t, 2, 4, 1), 9);
    assert_eq!(move_display_rows(t, 9, 4, -1), 2);
}

#[test]
fn the_viewport_follows_the_caret_row() {
    assert_eq!(adjust_scroll(false, 0, ROWS, 20), 1);
    assert_eq!(adjust_scroll(false, 5, 3, 20), 3);
    assert_eq!(adjust_scroll(false, 5, 10, 20), 5);
    assert_eq!(adjust_scroll(true, 10, 0, 15), 15 - ROWS);
    assert_eq!(adjust_scroll(true, 0, 0, 5), 0);
}

#[test]
fn reveal_bottom_aligns_a_row_below_the_viewport() {
    let t = vec!["x"; 20].join("\n");
    assert_eq!(scroll_to_reveal(&t, 10, 0, t.len()), 20 - ROWS);
    assert_eq!(scroll_to_reveal(&t, 10, 0, 0), 0);
    assert_eq!(scroll_to_reveal(&t, 10, 3, 99), 20 - ROWS);
}

#[test]
fn headings_are_one_to_six_hashes_and_a_space() {
    assert!(is_heading_at("# Title", 0));
    assert!(is_heading_at("x\n###### six", 2));
    assert!(!is_heading_at("####### seven", 0));
    assert!(!is_heading_at("#tag", 0));
    assert!(!is_heading_at("##", 0));
    assert!(!is_heading_at("text", 99));
}
