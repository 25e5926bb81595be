use typoena::commands::{command_key, LineAction};
use typoena::edits::Op;
use typoena::layout::{HALF_PAGE, ROWS};
use typoena::normal::{
    after_dispatch, move_by, normal_key, record_dot, route_key, view_key, DotRecorder, InsertAt,
    Mode, NormalAction, Pending, Route, ViewAction,
};
use typoena::palette::Key;
use typoena::search::SearchNotice;

fn idle() -> Pending {
    Pending { count: 0, op: None, obj: None, g: false }
}

/// Feed `keys` to Normal mode, applying the motions to `caret` in `text`,
/// and give back the last action with the caret it left.
fn run(text: &str, mut caret: usize, keys: &[Key]) -> (NormalAction, usize) {
    let mut p = idle();
    let mut last = NormalAction::Nothing;
    for &k in keys {
        last = normal_key(&mut p, k);
        if let NormalAction::Motion(c, n) = last {
            if let Some((to, _)) = move_by(text, caret, "", c, n) {
                caret = to;
            }
        }
    }
    (last, caret)
}

fn chars(s: &str) -> Vec<Key> {
    s.chars().map(Key::Char).collect()
}

#[test]
fn h_and_l_through_the_normal_key_decisions() {
    assert_eq!(run("abc", 2, &chars("h")).1, 1);
    assert_eq!(run("abc", 2, &chars("hh")).1, 0);
    assert_eq!(run("abc", 2, &chars("hhl")).1, 1);
}

#[test]
fn h_and_l_keys_step_over_multibyte_chars() {
    // bytes: a(1) é(2) b(1); the caret starts on 'b' at byte 3
    assert_eq!(run("aéb", 3, &chars("h")).1, 1);
    assert_eq!(run("aéb", 3, &chars("hh")).1, 0);
    assert_eq!(run("aéb", 3, &chars("hhl")).1, 1);
    assert_eq!(run("aéb", 3, &chars("hhll")).1, 3);
}

#[test]
fn ctrl_n_p_move_by_a_line_in_normal_mode() {
    let t = "aa\nbb\ncc";
    let (last, top) = run(t, 7, &chars("gg"));
    assert_eq!((last, top), (NormalAction::Top, 7)); // the caller jumps to 0
    assert_eq!(run(t, 0, &[Key::Down]).1, 3); // start of "bb"
    assert_eq!(run(t, 0, &[Key::Down, Key::Down]).1, 6); // start of "cc"
    assert_eq!(run(t, 0, &[Key::Down, Key::Down, Key::Up]).1, 3);
}

#[test]
fn ctrl_n_takes_a_count_in_normal_mode() {
    let (last, caret) = run("aa\nbb\ncc", 0, &[Key::Char('2'), Key::Down]);
    assert_eq!(last, NormalAction::Motion('j', 2));
    assert_eq!(caret, 6); // start of "cc"
}

#[test]
fn counts_and_motions_combine() {
    assert_eq!(run("one two three four", 0, &chars("2w")).1, 8);
    assert_eq!(run("one two three", 0, &chars("$")).1, 13);
    assert_eq!(run("ab\ncd", 4, &chars("0")).1, 3);
    assert_eq!(run("ab\ncd\nef", 0, &chars("G")).1, 6);
    // A count of ten, not a zero motion.
    let mut p = idle();
    normal_key(&mut p, Key::Char('1'));
    normal_key(&mut p, Key::Char('0'));
    assert_eq!(p.count, 10);
    assert_eq!(normal_key(&mut p, Key::Char('l')), NormalAction::Motion('l', 10));
    assert_eq!(p, idle());
}

#[test]
fn operators_wait_for_their_motion() {
    let mut p = idle();
    assert_eq!(normal_key(&mut p, Key::Char('d')), NormalAction::Nothing);
    assert_eq!(p.op, Some(Op::Delete));
    assert_eq!(normal_key(&mut p, Key::Char('2')), NormalAction::Nothing);
    assert_eq!(normal_key(&mut p, Key::Char('w')), NormalAction::OpTo(Op::Delete, 'w', 2));
    assert_eq!(p, idle());
    // The count may come first too.
    let (last, _) = run("x", 0, &chars("3dd"));
    assert_eq!(last, NormalAction::DeleteLines(3));
    assert_eq!(run("x", 0, &chars("cc")).0, NormalAction::ChangeLine);
    assert_eq!(run("x", 0, &chars("2yy")).0, NormalAction::YankLines(2));
    // A mismatched doubling does nothing and abandons the operator.
    assert_eq!(run("x", 0, &chars("dc")).0, NormalAction::Nothing);
    assert_eq!(run("x", 0, &chars("d$")).0, NormalAction::OpTo(Op::Delete, '$', 1));
}

#[test]
fn text_objects_follow_i_or_a() {
    assert_eq!(run("x", 0, &chars("diw")).0, NormalAction::Object(Op::Delete, 'w', false));
    assert_eq!(run("x", 0, &chars("ca(")).0, NormalAction::Object(Op::Change, '(', true));
    assert_eq!(run("x", 0, &chars("yi\"")).0, NormalAction::Object(Op::Yank, '"', false));
}

#[test]
fn gr_enters_view_and_v_no_longer_does() {
    assert_eq!(run("hello", 0, &chars("gr")).0, NormalAction::View);
    assert_eq!(run("hello", 0, &chars("v")).0, NormalAction::Visual(false));
    assert_eq!(run("hello", 0, &chars("V")).0, NormalAction::Visual(true));
}

#[test]
fn entering_insert_and_the_command_line() {
    let cases = [
        ('i', InsertAt::Here),
        ('a', InsertAt::After),
        ('A', InsertAt::LineEnd),
        ('I', InsertAt::LineStart),
        ('o', InsertAt::Below),
        ('O', InsertAt::Above),
    ];
    for (c, at) in cases {
        assert_eq!(run("x", 0, &[Key::Char(c)]).0, NormalAction::Insert(at));
    }
    let mut p = idle();
    normal_key(&mut p, Key::Char('3'));
    assert_eq!(normal_key(&mut p, Key::Char(':')), NormalAction::CommandLine(':'));
    assert_eq!(p, idle());
    assert_eq!(run("x", 0, &chars("/")).0, NormalAction::CommandLine('/'));
}

#[test]
fn edits_carry_their_count() {
    assert_eq!(run("abc", 0, &chars("3x")).0, NormalAction::DeleteChars(3));
    assert_eq!(run("abc", 0, &chars("2p")).0, NormalAction::PasteAfter(2));
    assert_eq!(run("abc", 0, &chars("P")).0, NormalAction::PasteBefore(1));
    assert_eq!(run("abc", 0, &chars("u")).0, NormalAction::Undo);
}

#[test]
fn non_char_keys_abandon_what_was_pending() {
    let mut p = idle();
    normal_key(&mut p, Key::Char('d'));
    normal_key(&mut p, Key::Char('2'));
    assert_eq!(normal_key(&mut p, Key::Escape), NormalAction::Nothing);
    assert_eq!(p, idle());
    normal_key(&mut p, Key::Char('g'));
    assert_eq!(normal_key(&mut p, Key::HalfPageDown), NormalAction::HalfPage(true));
    assert_eq!(p, idle());
    assert_eq!(normal_key(&mut p, Key::Palette), NormalAction::OpenPalette);
    assert_eq!(normal_key(&mut p, Key::CommandPalette), NormalAction::OpenCommandPalette);
    assert_eq!(normal_key(&mut p, Key::Redo), NormalAction::Redo);
}

#[test]
fn move_by_counts_search_repeats() {
    let t = "ab ab ab ab";
    let (to, notice) = move_by(t, 3, "ab", 'n', 2).unwrap();
    assert_eq!((to, notice), (9, None)); // 2 matches forward
}

#[test]
fn move_by_n_without_a_search_notes_it() {
    let (to, notice) = move_by("alpha", 0, "", 'n', 1).unwrap();
    assert_eq!(to, 0);
    assert_eq!(notice, Some(SearchNotice::NoPrevious));
}

#[test]
fn only_motions_move() {
    assert!(move_by("abc", 0, "", 'x', 1).is_none());
    assert!(move_by("abc", 0, "", 'q', 1).is_none());
    assert_eq!(move_by("a\nb", 0, "", 'N', 1).unwrap().1, Some(SearchNotice::NoPrevious));
}

#[test]
fn ctrl_n_p_scroll_in_view_mode() {
    let mut top = 4;
    let mut g = false;
    assert_eq!(view_key(&mut top, &mut g, 40, Key::Down), ViewAction::Stay);
    assert_eq!(top, 5);
    view_key(&mut top, &mut g, 40, Key::Up);
    assert_eq!(top, 4);
    view_key(&mut top, &mut g, 40, Key::Char('j'));
    view_key(&mut top, &mut g, 40, Key::Char('k'));
    assert_eq!(top, 4);
}

#[test]
fn half_page_scrolls_viewport_in_view_mode() {
    let mut top = 0;
    let mut g = false;
    view_key(&mut top, &mut g, 40, Key::HalfPageDown);
    assert_eq!(top, HALF_PAGE);
    view_key(&mut top, &mut g, 40, Key::HalfPageUp);
    assert_eq!(top, 0);
    view_key(&mut top, &mut g, 40, Key::HalfPageUp); // never below the top
    assert_eq!(top, 0);
}

#[test]
fn view_mode_jumps_to_the_ends_and_leaves() {
    let mut top = 0;
    let mut g = false;
    view_key(&mut top, &mut g, 40, Key::Char('G'));
    assert_eq!(top, 40 - ROWS);
    view_key(&mut top, &mut g, 40, Key::Char(' '));
    assert_eq!(top, 40);
    view_key(&mut top, &mut g, 40, Key::Char('g'));
    assert!(g);
    view_key(&mut top, &mut g, 40, Key::Char('g'));
    assert_eq!((top, g), (0, false));
    let mut short = 7;
    view_key(&mut short, &mut g, 5, Key::Char('G')); // fewer rows than a screen
    assert_eq!(short, 0);
    assert_eq!(view_key(&mut top, &mut g, 40, Key::Escape), ViewAction::Leave);
    assert_eq!(view_key(&mut top, &mut g, 40, Key::Palette), ViewAction::OpenPalette);
}

fn line_after(keys: &[Key]) -> (String, LineAction) {
    let mut line = String::new();
    let mut last = LineAction::Stay;
    for &k in keys {
        last = command_key(&mut line, k);
    }
    (line, last)
}

#[test]
fn ctrl_w_deletes_the_last_word_of_the_command_line() {
    let mut keys = chars("sync now");
    keys.push(Key::DeleteWord);
    let (line, last) = line_after(&keys);
    assert_eq!(line, "sync ");
    assert!(matches!(last, LineAction::Stay)); // stays on the command line
}

#[test]
fn ctrl_w_on_a_one_word_command_does_not_cancel() {
    let (line, last) = line_after(&[Key::Char('w'), Key::DeleteWord]);
    assert_eq!(line, "");
    assert!(matches!(last, LineAction::Stay)); // unlike Backspace, does not exit
}

#[test]
fn cmd_backspace_clears_the_command_line() {
    let mut keys = chars("fmt");
    keys.push(Key::DeleteLine);
    let (line, last) = line_after(&keys);
    assert_eq!(line, "");
    assert!(matches!(last, LineAction::Stay));
}

#[test]
fn the_command_line_submits_cancels_and_hands_over() {
    let mut keys = chars("wq");
    keys.push(Key::Enter);
    let (line, last) = line_after(&keys);
    assert_eq!(line, "");
    match last {
        LineAction::Submit(l) => assert_eq!(l, "wq"),
        _ => panic!("expected a submitted line"),
    }
    assert!(matches!(line_after(&[Key::Backspace]).1, LineAction::Cancel));
    let (line, last) = line_after(&[Key::Char('x'), Key::Backspace]);
    assert_eq!(line, "");
    assert!(matches!(last, LineAction::Stay)); // erasing is not cancelling
    assert!(matches!(line_after(&[Key::Char('x'), Key::Escape]).1, LineAction::Cancel));
    assert!(matches!(line_after(&[Key::Char('x'), Key::Palette]).1, LineAction::OpenPalette));
}

/// Drive the recorder through `keys` as Normal and Insert mode would see
/// them (Insert only leaves on Esc), and give back what `.` would repeat.
fn dot_after(keys: &[Key]) -> Vec<Key> {
    let mut rec = DotRecorder { recording: None, dot: vec![] };
    let mut p = idle();
    let mut mode = Mode::Normal;
    for &k in keys {
        let before_mode = mode;
        let before_pending = p.op.is_some() || p.obj.is_some();
        if mode == Mode::Normal {
            if let NormalAction::Insert(_) = normal_key(&mut p, k) {
                mode = Mode::Insert;
            }
        } else if k == Key::Escape {
            mode = Mode::Normal;
        }
        record_dot(&mut rec, k, before_mode, before_pending, mode, p);
    }
    rec.dot
}

#[test]
fn dot_records_immediate_edits_operators_and_insert_sessions() {
    assert_eq!(dot_after(&chars("x")), chars("x"));
    assert_eq!(dot_after(&chars("dw")), chars("dw"));
    assert_eq!(dot_after(&chars("d2w")), chars("d2w"));
    assert_eq!(dot_after(&chars("ciw")), chars("ciw"));
    let mut keys = chars("ihi");
    keys.push(Key::Escape);
    assert_eq!(dot_after(&keys), keys);
}

#[test]
fn dot_ignores_pure_motions_and_yanks() {
    assert!(dot_after(&chars("wbe")).is_empty());
    assert!(dot_after(&chars("yy")).is_empty());
    assert_eq!(dot_after(&chars("xwl")), chars("x")); // a later motion keeps the last change
}

#[test]
fn modals_take_every_key_before_save_and_repeat() {
    for (mode, route) in [(Mode::Rest, Route::Rest), (Mode::Confirm, Route::Confirm), (Mode::About, Route::About)] {
        assert_eq!(route_key(mode, true, true, false, idle(), false, Key::Save), route);
        assert_eq!(route_key(mode, true, true, false, idle(), false, Key::Char('.')), route);
    }
}

#[test]
fn cmd_s_saves_from_any_mode_or_says_why_not() {
    for mode in [Mode::Normal, Mode::Insert, Mode::Palette, Mode::Command, Mode::View] {
        assert_eq!(route_key(mode, true, true, false, idle(), false, Key::Save), Route::SaveActive);
    }
    assert_eq!(route_key(Mode::Insert, false, true, false, idle(), false, Key::Save), Route::SavedNotice(true));
    assert_eq!(route_key(Mode::Normal, false, false, false, idle(), false, Key::Save), Route::SavedNotice(false));
}

#[test]
fn dot_repeats_only_from_a_clean_normal_state() {
    let dot = Key::Char('.');
    assert_eq!(route_key(Mode::Normal, false, true, false, idle(), false, dot), Route::RepeatDot);
    assert_eq!(route_key(Mode::Insert, false, true, false, idle(), false, dot), Route::Dispatch(Mode::Insert));
    assert_eq!(route_key(Mode::Normal, false, true, true, idle(), false, dot), Route::Dispatch(Mode::Normal));
    assert_eq!(route_key(Mode::Normal, false, true, false, idle(), true, dot), Route::Dispatch(Mode::Normal));
    let pending = Pending { count: 0, op: Some(Op::Delete), obj: None, g: false };
    assert_eq!(route_key(Mode::Normal, false, true, false, pending, false, dot), Route::Dispatch(Mode::Normal));
    assert_eq!(route_key(Mode::View, false, true, false, idle(), false, Key::Char('j')), Route::Dispatch(Mode::View));
}

#[test]
fn leaving_insert_ends_the_snippet_session_and_the_palette_aborts_a_recording() {
    let a = after_dispatch(Mode::Normal, true, false, Key::Escape);
    assert!(a.end_session && !a.abort_recording && a.record);
    let b = after_dispatch(Mode::Insert, true, false, Key::Char('x'));
    assert!(!b.end_session);
    let c = after_dispatch(Mode::Palette, false, true, Key::Palette);
    assert!(c.abort_recording && !c.record);
}
