use typoena::edits::insert_newline;
use typoena::insert::{insert_key, InsertLeave, InsertOutcome};
use typoena::modal::{
    cancelled_notice, confirm_key, help_key, request_delete, request_reboot, request_setup,
    request_update, rest_key, Confirm, Confirmed, Request, RestAction,
};
use typoena::palette::Key;
use typoena::snippets::{Snippet, Snippets};

fn link_library() -> Snippets {
    Snippets(vec![
        Snippet {
            name: "Link".into(),
            prefix: "link".into(),
            body: "[$1]($2)$0".into(),
            description: String::new(),
        },
        Snippet {
            name: "Todo".into(),
            prefix: "todo".into(),
            body: "- [ ] ".into(),
            description: String::new(),
        },
    ])
}

struct Session {
    text: String,
    caret: usize,
    stops: Vec<usize>,
    leave: InsertLeave,
}

fn press(s: &mut Session, lib: &Snippets, key: Key) {
    let InsertOutcome { text, caret, stops, leave } = insert_key(&s.text, s.caret, &s.stops, lib, key);
    s.text = text;
    s.caret = caret;
    s.stops = stops;
    s.leave = leave;
}

/// Type `keys` into an empty buffer in Insert mode.
fn typed(keys: &str, lib: &Snippets) -> Session {
    let mut s = Session { text: String::new(), caret: 0, stops: vec![], leave: InsertLeave::Stay };
    for c in keys.chars() {
        press(&mut s, lib, Key::Char(c));
    }
    s
}

#[test]
fn insert_builds_buffer_and_advances_caret() {
    let s = typed("hello", &Snippets(vec![]));
    assert_eq!(s.text, "hello");
    assert_eq!(s.caret, 5);
    assert_eq!(s.leave, InsertLeave::Stay);
}

#[test]
fn backspace_in_insert_mode_deletes_the_previous_char() {
    let lib = Snippets(vec![]);
    let mut s = typed("café", &lib);
    press(&mut s, &lib, Key::Backspace);
    assert_eq!(s.text, "caf");
    assert_eq!(s.caret, 3);
}

#[test]
fn enter_splits_the_line() {
    let lib = Snippets(vec![]);
    let mut s = typed("ab", &lib);
    press(&mut s, &lib, Key::Enter);
    press(&mut s, &lib, Key::Char('c'));
    assert_eq!(s.text, "ab\nc");
    assert_eq!(s.caret, 4);
}

#[test]
fn enter_in_a_blockquote_continues_the_marker() {
    let lib = Snippets(vec![]);
    let mut s = typed("> quote", &lib);
    press(&mut s, &lib, Key::Enter);
    press(&mut s, &lib, Key::Char('m'));
    assert_eq!(s.text, "> quote\n> m");
    assert_eq!(s.caret, 11);
}

#[test]
fn enter_on_an_empty_blockquote_exits_the_quote() {
    let lib = Snippets(vec![]);
    let mut s = typed("> quote", &lib);
    press(&mut s, &lib, Key::Enter); // -> "> quote\n> "
    press(&mut s, &lib, Key::Enter); // empty quote: drop the "> ", leaving a blank line
    assert_eq!(s.text, "> quote\n");
    assert_eq!(s.caret, 8);
}

#[test]
fn enter_in_a_nested_blockquote_keeps_the_depth() {
    let lib = Snippets(vec![]);
    let mut s = typed("> > deep", &lib);
    press(&mut s, &lib, Key::Enter);
    press(&mut s, &lib, Key::Char('x'));
    assert_eq!(s.text, "> > deep\n> > x");
}

#[test]
fn enter_continues_lists_and_numbers() {
    assert_eq!(insert_newline("- a", 3), ("- a\n- ".to_string(), 6));
    assert_eq!(insert_newline("  9. nine", 9), ("  9. nine\n  10. ".to_string(), 16));
    assert_eq!(insert_newline("* ", 2), ("".to_string(), 0)); // empty item: exits the list
    // Mid-line it is a plain newline.
    assert_eq!(insert_newline("- ab", 3), ("- a\nb".to_string(), 4));
    assert_eq!(insert_newline("plain", 5), ("plain\n".to_string(), 6));
}

#[test]
fn escape_enters_normal_and_steps_onto_last_char() {
    let lib = Snippets(vec![]);
    let mut s = typed("abc", &lib);
    press(&mut s, &lib, Key::Escape);
    assert_eq!(s.leave, InsertLeave::Normal);
    assert_eq!(s.caret, 2); // vim: caret drops onto the last inserted char
    let mut s = typed("x\n", &lib);
    press(&mut s, &lib, Key::Escape); // at a line start the caret stays
    assert_eq!(s.caret, 2);
}

#[test]
fn cmd_p_leaves_insert_like_esc() {
    let lib = Snippets(vec![]);
    let mut s = typed("hi", &lib);
    press(&mut s, &lib, Key::Palette);
    assert_eq!(s.leave, InsertLeave::Palette);
    assert_eq!(s.caret, 1); // dropped onto the last inserted char, as Esc does
    assert_eq!(s.text, "hi");
    let mut s = typed("hi", &lib);
    press(&mut s, &lib, Key::CommandPalette);
    assert_eq!(s.leave, InsertLeave::CommandPalette);
}

#[test]
fn half_page_is_a_noop_in_insert_mode() {
    let lib = Snippets(vec![]);
    let mut s = typed("ab", &lib);
    for k in [Key::HalfPageDown, Key::Up, Key::Down, Key::Redo] {
        press(&mut s, &lib, k);
        assert_eq!((s.text.as_str(), s.caret, s.leave), ("ab", 2, InsertLeave::Stay));
    }
}

#[test]
fn ctrl_w_and_cmd_backspace_delete_back() {
    let lib = Snippets(vec![]);
    let mut s = typed("one two", &lib);
    press(&mut s, &lib, Key::DeleteWord);
    assert_eq!((s.text.as_str(), s.caret), ("one ", 4));
    press(&mut s, &lib, Key::DeleteLine);
    assert_eq!((s.text.as_str(), s.caret), ("", 0));
}

#[test]
fn tab_expands_prefix_and_lands_on_first_stop() {
    let lib = link_library();
    let mut s = typed("link", &lib);
    press(&mut s, &lib, Key::Char('\t')); // expand
    assert_eq!(s.text, "[]()"); // trigger word replaced by the expansion
    assert_eq!(s.caret, 1); // caret on $1
    assert_eq!(s.stops, vec![3, 4]); // $2 then $0 pending
}

#[test]
fn tab_advances_stops_and_typing_shifts_pending_ones() {
    let lib = link_library();
    let mut s = typed("link", &lib);
    press(&mut s, &lib, Key::Char('\t'));
    for c in "url".chars() {
        press(&mut s, &lib, Key::Char(c)); // type at $1
    }
    assert_eq!(s.text, "[url]()");
    assert_eq!(s.stops, vec![6, 7]); // pending shifted by +3
    press(&mut s, &lib, Key::Char('\t')); // -> $2
    assert_eq!(s.caret, 6);
    assert_eq!(s.stops, vec![7]);
    for c in "http".chars() {
        press(&mut s, &lib, Key::Char(c));
    }
    assert_eq!(s.text, "[url](http)");
    press(&mut s, &lib, Key::Backspace); // a delete shifts them back
    assert_eq!(s.stops, vec![10]);
    press(&mut s, &lib, Key::Char('p'));
    press(&mut s, &lib, Key::Char('\t')); // -> $0 (end); session ends
    assert_eq!(s.caret, 11);
    assert!(s.stops.is_empty());
}

#[test]
fn tab_without_matching_prefix_inserts_spaces() {
    let lib = link_library();
    let mut s = typed("zzz", &lib);
    press(&mut s, &lib, Key::Char('\t'));
    assert_eq!(s.text, "zzz    ");
    assert_eq!(s.caret, 7);
    assert!(s.stops.is_empty());
}

#[test]
fn no_stop_snippet_expands_without_a_session() {
    let lib = link_library();
    let mut s = typed("todo", &lib);
    press(&mut s, &lib, Key::Char('\t'));
    assert_eq!(s.text, "- [ ] ");
    assert_eq!(s.caret, 6); // caret at the end, no session
    assert!(s.stops.is_empty());
}

#[test]
fn y_confirms_and_anything_else_cancels() {
    assert_eq!(confirm_key(Some(Confirm::Delete), Key::Char('y')), Confirmed::Proceed(Some(Confirm::Delete)));
    assert_eq!(confirm_key(Some(Confirm::Reboot), Key::Char('Y')), Confirmed::Proceed(Some(Confirm::Reboot)));
    assert_eq!(confirm_key(Some(Confirm::Setup), Key::Char('n')), Confirmed::Cancelled(Some(Confirm::Setup)));
    assert_eq!(confirm_key(None, Key::Escape), Confirmed::Cancelled(None));
    assert_eq!(cancelled_notice(Some(Confirm::Update)), "update cancelled");
    assert_eq!(cancelled_notice(Some(Confirm::PullCommit)), "pull cancelled");
    assert_eq!(cancelled_notice(None), "delete cancelled");
}

#[test]
fn the_rest_card_swallows_all_but_its_two_keys() {
    assert_eq!(rest_key(Key::FocusContinue), RestAction::Continue);
    assert_eq!(rest_key(Key::FocusQuit), RestAction::Quit);
    assert_eq!(rest_key(Key::Char('x')), RestAction::Swallow);
    assert_eq!(rest_key(Key::Escape), RestAction::Swallow);
}

#[test]
fn help_pages_turn_and_stop_at_the_ends() {
    assert_eq!(help_key(0, 3, Key::Char(' ')), Some(1));
    assert_eq!(help_key(2, 3, Key::Char('j')), Some(2)); // clamps at the last page
    assert_eq!(help_key(0, 3, Key::Char('k')), Some(0)); // and at the first
    assert_eq!(help_key(2, 3, Key::Up), Some(1));
    assert_eq!(help_key(1, 3, Key::Char('x')), Some(1));
    assert_eq!(help_key(1, 3, Key::Char('q')), None);
    assert_eq!(help_key(1, 3, Key::Enter), None);
}

#[test]
fn typing_a_char_then_backspace_gives_the_buffer_back() {
    let lib = Snippets(vec![]);
    for c in ['a', 'é', '€', '😀'] {
        let mut s = Session { text: "xy".into(), caret: 1, stops: vec![], leave: InsertLeave::Stay };
        press(&mut s, &lib, Key::Char(c));
        assert_eq!(s.caret, 1 + c.len_utf8());
        press(&mut s, &lib, Key::Backspace);
        assert_eq!((s.text.as_str(), s.caret), ("xy", 1));
    }
}

#[test]
fn destructive_requests_prompt_or_refuse_while_unsaved() {
    match request_setup(true) {
        Request::Refused(n) => assert_eq!(n, "unsaved changes - :w first"),
        _ => panic!("setup must refuse while dirty"),
    }
    assert!(matches!(request_setup(false), Request::Prompt(Confirm::Setup, ref t) if t == "reopen setup? y/n"));
    assert!(matches!(request_update(true), Request::Refused(_)));
    assert!(matches!(request_update(false), Request::Prompt(Confirm::Update, _)));
    match request_reboot(true) {
        Request::Refused(n) => assert_eq!(n, "unnamed buffer - name it first"),
        _ => panic!("reboot must refuse with an unnamed dirty buffer"),
    }
    assert!(matches!(request_reboot(false), Request::Prompt(Confirm::Reboot, ref t) if t == "reboot? y/n"));
    assert!(matches!(request_delete("/sd/repo/n.md"), Request::Prompt(Confirm::Delete, ref t) if t == "delete repo/n.md? y/n"));
    assert!(matches!(request_delete(""), Request::Refused(ref n) if n == "no file to delete"));
}
