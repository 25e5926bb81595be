use typoena::edits::{
    apply_op, backspace, change_current_line, delete_at_caret, delete_current_line,
    delete_to_line_start, delete_word_before, paste_after, paste_before, register_lines,
    insert_snippet, snippet_advance, try_expand_snippet, word_before_caret, Op,
};
use typoena::snippets::{Snippet, Snippets};
use typoena::motions::{move_right, next_char, word_forward_pos};

#[test]
fn backspace_deletes_previous_char() {
    assert_eq!(backspace("hello", 5), ("hell".to_string(), 4));
    assert_eq!(backspace("hello", 0), ("hello".to_string(), 0));
}

#[test]
fn backspace_deletes_whole_multibyte_char() {
    assert_eq!(backspace("café", 5), ("caf".to_string(), 3));
}

#[test]
fn normal_x_deletes_char_under_caret() {
    assert_eq!(delete_at_caret("abc", 1), ("ac".to_string(), 1));
}

#[test]
fn delete_char_under_caret_removes_whole_multibyte() {
    assert_eq!(delete_at_caret("aéb", 1).0, "ab");
}

#[test]
fn x_at_the_line_end_steps_back_and_never_eats_a_newline() {
    assert_eq!(delete_at_caret("ab\ncd", 1), ("a\ncd".to_string(), 0));
    assert_eq!(delete_at_caret("ab\ncd", 2), ("ab\ncd".to_string(), 2));
    assert_eq!(delete_at_caret("a", 0), ("".to_string(), 0));
}

#[test]
fn yy_then_p_opens_a_copy_of_the_line_below() {
    let t = "foo\nbar";
    let reg = register_lines(t, 0, 1);
    assert_eq!(reg, "foo\n");
    let (t2, caret, end) = paste_after(t, 0, &reg, true, 1).unwrap();
    assert_eq!(t2, "foo\nfoo\nbar");
    assert_eq!((caret, end), (4, 7));
}

#[test]
fn yy_then_capital_p_pastes_the_line_above() {
    let t = "foo\nbar";
    let reg = register_lines(t, 4, 1);
    assert_eq!(reg, "bar\n");
    let (t2, caret, _) = paste_before(t, 4, &reg, true, 1).unwrap();
    assert_eq!(t2, "foo\nbar\nbar");
    assert_eq!(caret, 4);
}

#[test]
fn dd_then_p_moves_a_line_down() {
    let t = "one\ntwo\nthree";
    let reg = register_lines(t, 0, 1);
    let (t2, caret) = delete_current_line(t, 0);
    assert_eq!((t2.as_str(), caret), ("two\nthree", 0));
    let (t3, _, _) = paste_after(&t2, caret, &reg, true, 1).unwrap();
    assert_eq!(t3, "two\none\nthree");
}

#[test]
fn count_dd_captures_all_lines_for_paste() {
    let t = "a\nb\nc\nd";
    let reg = register_lines(t, 0, 3);
    assert_eq!(reg, "a\nb\nc\n");
    let mut cur = (t.to_string(), 0);
    for _ in 0..3 {
        cur = delete_current_line(&cur.0, cur.1);
    }
    assert_eq!(cur.0, "d");
    let (t2, _, _) = paste_after(&cur.0, cur.1, &reg, true, 1).unwrap();
    assert_eq!(t2, "d\na\nb\nc");
}

#[test]
fn dd_on_the_last_line_eats_the_newline_before_it() {
    assert_eq!(delete_current_line("one\ntwo", 5), ("one".to_string(), 0));
    assert_eq!(delete_current_line("only", 2), ("".to_string(), 0));
}

#[test]
fn x_then_p_replays_the_deleted_char_after_the_caret() {
    let t = "abc";
    let e = apply_op(t, Op::Delete, 0, next_char(t, 0));
    assert_eq!((e.text.as_str(), e.register.as_str(), e.caret), ("bc", "a", 0));
    let (t2, _, _) = paste_after(&e.text, e.caret, &e.register, e.linewise, 1).unwrap();
    assert_eq!(t2, "bac");
}

#[test]
fn yw_yanks_charwise_and_p_inserts_after_the_caret() {
    let t = "foo bar";
    let e = apply_op(t, Op::Yank, 0, word_forward_pos(t, 0));
    assert_eq!((e.text.as_str(), e.register.as_str(), e.caret), ("foo bar", "foo ", 0));
    let (t2, caret, end) = paste_after(&e.text, e.caret, &e.register, false, 1).unwrap();
    assert_eq!(t2, "ffoo oo bar");
    assert_eq!((caret, end), (4, 4));
}

#[test]
fn capital_p_pastes_a_char_before_the_caret() {
    let e = apply_op("abc", Op::Delete, 0, 1);
    let caret = move_right(&e.text, e.caret);
    let (t2, _, _) = paste_before(&e.text, caret, &e.register, false, 1).unwrap();
    assert_eq!(t2, "bac");
}

#[test]
fn paste_with_an_empty_register_is_a_noop() {
    assert_eq!(paste_after("abc", 0, "", false, 1), None);
    assert_eq!(paste_before("abc", 0, "", true, 1), None);
}

#[test]
fn a_counted_paste_repeats_the_register() {
    assert_eq!(paste_after("x", 0, "ab", false, 3), Some(("xababab".to_string(), 6, 6)));
    assert_eq!(paste_after("a\nb", 0, "z\n", true, 2), Some(("a\nz\nz\nb".to_string(), 2, 5)));
}

#[test]
fn operators_cover_the_range_in_either_order() {
    let e = apply_op("foo bar", Op::Change, 7, 4);
    assert_eq!((e.text.as_str(), e.register.as_str(), e.caret, e.insert), ("foo ", "bar", 4, true));
    let e = apply_op("foo bar", Op::Delete, 4, 99);
    assert_eq!((e.text.as_str(), e.caret, e.insert, e.linewise), ("foo ", 4, false, false));
}

#[test]
fn cc_clears_the_line_into_a_linewise_register() {
    let e = change_current_line("ab\ncd", 4);
    assert_eq!((e.text.as_str(), e.caret, e.register.as_str()), ("ab\n", 3, "cd\n"));
    assert!(e.linewise && e.insert);
}

#[test]
fn ctrl_w_deletes_the_word_before_the_caret() {
    assert_eq!(delete_word_before("foo bar  ", 9), ("foo ".to_string(), 4));
    assert_eq!(delete_word_before("foo\nbar", 4), ("foo\nbar".to_string(), 4));
    assert_eq!(delete_word_before("é", 2), ("".to_string(), 0));
}

#[test]
fn cmd_backspace_deletes_to_the_line_start_then_the_newline() {
    assert_eq!(delete_to_line_start("ab\ncd", 5), ("ab\n".to_string(), 3));
    assert_eq!(delete_to_line_start("ab\ncd", 3), ("abcd".to_string(), 2));
    assert_eq!(delete_to_line_start("ab", 0), ("ab".to_string(), 0));
}

#[test]
fn the_word_before_the_caret_is_the_snippet_trigger() {
    assert_eq!(word_before_caret("say hello", 9), Some((4, "hello")));
    assert_eq!(word_before_caret("say hello", 4), None);
    assert_eq!(word_before_caret("café", 5), Some((0, "café")));
    assert_eq!(word_before_caret("", 0), None);
}

fn library() -> Snippets {
    Snippets(vec![
        Snippet {
            name: "Date".to_string(),
            prefix: "dt".to_string(),
            body: "date: $1".to_string(),
            description: String::new(),
        },
        Snippet {
            name: "Link".to_string(),
            prefix: "ln".to_string(),
            body: "[$1]($2)$0".to_string(),
            description: String::new(),
        },
        Snippet {
            name: "Other date".to_string(),
            prefix: "dt".to_string(),
            body: "never".to_string(),
            description: String::new(),
        },
    ])
}

#[test]
fn a_snippet_expands_at_the_caret_onto_its_first_stop() {
    let e = insert_snippet("ab", 1, "x$1y$0");
    assert_eq!((e.text.as_str(), e.caret, e.stops), ("axyb", 2, vec![3]));
    let e = insert_snippet("", 0, "plain");
    assert_eq!((e.text.as_str(), e.caret, e.stops), ("plain", 5, vec![]));
    let e = insert_snippet("é", 2, "$2-$1");
    assert_eq!((e.text.as_str(), e.caret, e.stops), ("é-", 3, vec![2, 3]));
}

#[test]
fn tab_walks_the_pending_stops_in_order() {
    assert_eq!(snippet_advance("abc", &vec![1, 9]), Some((1, vec![9])));
    assert_eq!(snippet_advance("abc", &vec![9]), Some((3, vec![])));
    assert_eq!(snippet_advance("abc", &vec![]), None);
}

#[test]
fn tab_after_a_prefix_replaces_it_with_the_first_matching_snippet() {
    let lib = library();
    let e = try_expand_snippet("say dt", 6, &lib).unwrap();
    assert_eq!((e.text.as_str(), e.caret, e.stops), ("say date: ", 10, vec![10]));
    let e = try_expand_snippet("ln", 2, &lib).unwrap();
    assert_eq!((e.text.as_str(), e.caret, e.stops), ("[]()", 1, vec![3, 4]));
}

#[test]
fn tab_without_a_known_prefix_expands_nothing() {
    let lib = library();
    assert!(try_expand_snippet("say xy", 6, &lib).is_none());
    assert!(try_expand_snippet("say ", 4, &lib).is_none());
    assert!(try_expand_snippet("adt", 3, &lib).is_none());
    assert!(try_expand_snippet("", 0, &lib).is_none());
}
