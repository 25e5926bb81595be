use typoena::buffers::Scope;
use typoena::commands::{
    execute_command, format_buffer, parse_command, CommandKind, CommandNotice, CommandOutcome,
    Effect,
};
use typoena::edits::insert_char;
use typoena::layout::{caret_rc, layout};

/// Coarse kind of an [`Effect`], ignoring the `Save` payload, so the command
/// tests can assert intent without pinning path/scope/contents.
#[allow(dead_code)]
#[derive(Debug, PartialEq)]
enum Kind {
    Save,
    Load,
    Publish,
    Pull,
    Delete,
    SavePrefs,
}

fn kinds(effects: &[Effect]) -> Vec<Kind> {
    effects
        .iter()
        .map(|e| match e {
            Effect::Save { .. } => Kind::Save,
            Effect::Push => Kind::Publish,
            Effect::Pull { .. } => Kind::Pull,
        })
        .collect()
}

/// `:{cmd}<Enter>` over an empty tracked file, format-on-save on.
fn command(cmd: &str) -> CommandOutcome {
    execute_command(cmd, "", 0, "/sd/repo/notes.md", Scope::Repo, true)
}

#[test]
fn insert_accented_char_advances_by_utf8_len() {
    let (t, caret) = insert_char("", 0, 'é');
    assert_eq!(t, "é");
    assert_eq!(caret, 2);
}

#[test]
fn w_command_queues_a_save_of_the_buffer() {
    let out = command("w");
    assert_eq!(out.effects.len(), 1);
    match &out.effects[0] {
        Effect::Save { path, scope, contents } => {
            assert_eq!(path, "/sd/repo/notes.md");
            assert_eq!(*scope, Scope::Repo);
            assert_eq!(contents, "");
        }
        _ => panic!("expected a save"),
    }
}

#[test]
fn gp_command_saves_then_publishes() {
    assert_eq!(kinds(&command("gp").effects), vec![Kind::Save, Kind::Publish]);
}

#[test]
fn gl_command_signals_pull() {
    assert_eq!(kinds(&command("gl").effects), vec![Kind::Pull]);
    assert!(matches!(command("gl").effects[0], Effect::Pull { commit_dirty: false }));
}

#[test]
fn gp_formats_the_buffer_before_publishing() {
    let out = execute_command("gp", "hello   \nworld", 0, "/sd/repo/notes.md", Scope::Repo, true);
    assert_eq!(kinds(&out.effects), vec![Kind::Save, Kind::Publish]);
    assert_eq!(out.text, "hello\nworld");
}

#[test]
fn gp_is_refused_in_a_local_buffer() {
    let out = execute_command("gp", "dear diary", 0, "/sd/local/journal.md", Scope::Local, true);
    assert!(out.effects.is_empty());
    assert_eq!(out.notice.map(|n| n.message()), Some("Push unavailable (Local)".to_string()));
}

#[test]
fn format_on_save_off_leaves_the_buffer_untouched() {
    let out = execute_command("w", "hello   \nworld", 0, "/sd/repo/notes.md", Scope::Repo, false);
    assert_eq!(kinds(&out.effects), vec![Kind::Save]);
    assert_eq!(out.text, "hello   \nworld");
}

#[test]
fn format_on_save_keeps_the_caret_on_a_trailing_blank_line() {
    let text = "hello\n";
    let lay = layout(text, 60);
    assert_eq!(caret_rc(text, &lay, text.len()).0, 1, "precondition: caret on the blank row");
    let out = execute_command("w", text, text.len(), "/sd/repo/notes.md", Scope::Repo, true);
    assert_eq!(out.text, "hello\n", "trailing blank line survived format-on-save");
    let lay = layout(&out.text, 60);
    assert_eq!(caret_rc(&out.text, &lay, out.caret).0, 1, "caret stayed on the blank row");
}

#[test]
fn wq_and_x_alias_save_dropping_the_quit() {
    assert_eq!(kinds(&command("wq").effects), vec![Kind::Save]);
    assert_eq!(kinds(&command("x").effects), vec![Kind::Save]);
}

#[test]
fn fmt_stays_in_core_and_asks_the_host_for_nothing() {
    assert!(command("fmt").effects.is_empty());
}

#[test]
fn unknown_command_is_ignored() {
    let out = command("q");
    assert!(out.effects.is_empty());
    assert_eq!(out.kind, CommandKind::Unknown);
    assert!(out.notice.is_none());
}

#[test]
fn an_unnamed_buffer_has_nowhere_to_save() {
    let out = execute_command("w", "x", 0, "", Scope::Repo, true);
    assert!(out.effects.is_empty());
    assert_eq!(out.notice, Some(CommandNotice::NoFileName));
    assert_eq!(out.notice.unwrap().message(), "no file name");
}

#[test]
fn commands_are_read_trimmed_with_their_aliases() {
    assert_eq!(parse_command("  inbox ").0, CommandKind::Inbox);
    assert_eq!(parse_command("in").0, CommandKind::Inbox);
    assert_eq!(parse_command("old").0, CommandKind::Oldest);
    assert_eq!(parse_command("d").0, CommandKind::Delete);
    assert_eq!(parse_command("publish").0, CommandKind::Publish);
    assert_eq!(parse_command("focusdebug").0, CommandKind::FocusDebug);
    assert_eq!(parse_command("enew").0, CommandKind::EnewUsage);
    let (k, arg) = parse_command("enew notes/today.md ");
    assert_eq!((k, arg.as_str()), (CommandKind::Enew, "notes/today.md"));
    assert_eq!(command("enew").notice.unwrap().message(), "usage: :enew <file>");
}

#[test]
fn fmt_keeps_the_caret_on_its_line_and_column() {
    let (t, c) = format_buffer("a  \n\n\nbb   \ncc", 7);
    assert_eq!(t, "a\n\nbb\ncc");
    assert_eq!(c, 7);
    let (t, c) = format_buffer("x\n\n\n\ny", 5);
    assert_eq!((t.as_str(), c), ("x\n\ny", 3));
}
