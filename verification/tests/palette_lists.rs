use typoena::buffers::{commit_recent_cycle, cycle_recent, note_recent, Scope};
use typoena::filelist::{
    add_to_file_list, remove_from_file_list, set_file_list, set_file_list_joined,
};
use typoena::newfile::{current_folder_prefix, folder_completions, new_file_complete};
use typoena::palette::{
    command_filter, command_label, empty_list_message, list_window, cycle_pref, palette_command_matches, palette_command_mode,
    palette_label, palette_len, palette_matches, palette_run_command, palette_snippet_matches,
    palette_snippet_mode, rank_by_score, snippet_filter, snippet_haystack, snippet_label,
    CommandRun, Key, PaletteAction, PaletteCmd, PaletteState, PaletteStep, PALETTE_CMDS,
};
use typoena::prefs::Prefs;
use typoena::publish::{publish_caret, publish_target, retarget_list, PublishRefusal};
use typoena::snippets::Snippet;

fn strings(v: &[&str]) -> Vec<String> {
    v.iter().map(|s| s.to_string()).collect()
}

fn file_list(v: &[&str]) -> Vec<String> {
    set_file_list(&strings(v))
}

fn labels(files: &[String], idx: &[usize]) -> Vec<String> {
    idx.iter().map(|&i| palette_label(&files[i]).to_string()).collect()
}

fn defaults() -> Prefs {
    Prefs::parse("")
}

fn two_snippets() -> Vec<Snippet> {
    vec![
        Snippet {
            name: "Markdown link".into(),
            prefix: "link".into(),
            body: "[$1]($2)$0".into(),
            description: "Inline link".into(),
        },
        Snippet {
            name: "Book notes".into(),
            prefix: "booknotes".into(),
            body: "# $1".into(),
            description: "Reading fiche".into(),
        },
    ]
}

/// Type `q` into a freshly opened palette.
fn typed(q: &str, files: &Vec<String>, len: usize) -> PaletteState {
    let mut st = PaletteState::new();
    st.open_palette();
    for c in q.chars() {
        assert_eq!(st.palette_key(Key::Char(c), files, len), PaletteAction::Stay);
    }
    st
}

#[test]
fn set_file_list_sorts_and_dedups() {
    let files = file_list(&["/sd/repo/b.md", "/sd/repo/a.md", "/sd/repo/b.md"]);
    assert_eq!(files, vec!["/sd/repo/a.md", "/sd/repo/b.md"]);
}

#[test]
fn joined_file_list_sorts_dedups_and_survives_blank_lines() {
    let files = set_file_list_joined("/sd/repo/b.md\n\n/sd/repo/a.md\n/sd/repo/b.md\n");
    assert_eq!(files, vec!["/sd/repo/a.md", "/sd/repo/b.md"]);
    let files = add_to_file_list(&files, "/sd/repo/ab.md"); // lands between, sorted
    let files = add_to_file_list(&files, "/sd/repo/a.md"); // already known, no dup
    assert_eq!(files, vec!["/sd/repo/a.md", "/sd/repo/ab.md", "/sd/repo/b.md"]);
    let files = remove_from_file_list(&files, "/sd/repo/b.md");
    assert_eq!(files, vec!["/sd/repo/a.md", "/sd/repo/ab.md"]);
}

#[test]
fn file_list_orders_by_bytes() {
    // Upper case sorts before lower case, and a multibyte char after ASCII.
    let files = file_list(&["/sd/repo/é.md", "/sd/repo/b.md", "/sd/repo/B.md"]);
    assert_eq!(files, vec!["/sd/repo/B.md", "/sd/repo/b.md", "/sd/repo/é.md"]);
}

#[test]
fn short_query_lists_recents_only() {
    let files = file_list(&["/sd/repo/b.md", "/sd/repo/a.md", "/sd/repo/c.md"]);
    // No opens yet: below the search threshold there is nothing to show.
    assert!(palette_matches(&files, &vec![], "").is_empty());
    // Once c.md is opened it is the recents-only result.
    let recent = note_recent(&vec![], "/sd/repo/c.md");
    assert_eq!(labels(&files, &palette_matches(&files, &recent, "")), vec!["repo/c.md"]);
}

#[test]
fn two_char_query_reveals_the_full_file_list() {
    let files = file_list(&["/sd/repo/b.md", "/sd/repo/a.md", "/sd/repo/c.md"]);
    assert!(palette_matches(&files, &vec![], "m").is_empty()); // one char: recents only
    assert_eq!(
        labels(&files, &palette_matches(&files, &vec![], "md")),
        vec!["repo/a.md", "repo/b.md", "repo/c.md"]
    );
}

#[test]
fn recents_float_above_the_full_list_on_a_matching_query() {
    let files = file_list(&["/sd/repo/b.md", "/sd/repo/a.md", "/sd/repo/c.md"]);
    let recent = note_recent(&vec![], "/sd/repo/c.md");
    // "md" scores the three labels equally; the stable sort keeps the
    // recently-opened c.md in front of the sorted rest.
    assert_eq!(
        labels(&files, &palette_matches(&files, &recent, "md")),
        vec!["repo/c.md", "repo/a.md", "repo/b.md"]
    );
}

#[test]
fn a_query_filters_out_what_does_not_match() {
    let files = file_list(&["/sd/repo/notes.md", "/sd/repo/todo.md"]);
    let recent = note_recent(&vec![], "/sd/repo/todo.md");
    assert_eq!(
        labels(&files, &palette_matches(&files, &recent, "notes")),
        vec!["repo/notes.md"]
    );
}

#[test]
fn recents_not_on_the_card_are_skipped() {
    let files = file_list(&["/sd/repo/a.md"]);
    let recent = strings(&["/sd/repo/gone.md", "/sd/repo/a.md"]);
    assert_eq!(palette_matches(&files, &recent, ""), vec![0]);
}

#[test]
fn ranking_is_stable_and_descending() {
    let scored = vec![(0, 5), (1, 9), (2, 5), (3, 9), (4, 1)];
    assert_eq!(rank_by_score(&scored), vec![1, 3, 0, 2, 4]);
}

#[test]
fn note_recent_moves_to_the_front_without_duplicates() {
    let r = note_recent(&vec![], "a");
    let r = note_recent(&r, "b");
    let r = note_recent(&r, "a");
    assert_eq!(r, vec!["a", "b"]);
}

#[test]
fn note_recent_keeps_at_most_sixteen() {
    let mut r: Vec<String> = vec![];
    for i in 0..20 {
        r = note_recent(&r, &format!("/sd/repo/{i}.md"));
    }
    assert_eq!(r.len(), 16);
    assert_eq!(r[0], "/sd/repo/19.md");
    assert_eq!(r[15], "/sd/repo/4.md");
}

#[test]
fn cycle_recent_skips_the_note_on_screen_and_wraps() {
    let recent = strings(&["/sd/repo/a.md", "/sd/repo/b.md", "/sd/repo/c.md"]);
    let first = cycle_recent(&recent, "/sd/repo/a.md", Scope::Repo, None).unwrap();
    assert_eq!((first.0, first.1.as_str(), first.2), (1, "/sd/repo/b.md", Scope::Repo));
    let second = cycle_recent(&recent, "/sd/repo/b.md", Scope::Repo, Some(first.0)).unwrap();
    assert_eq!(second.1, "/sd/repo/c.md");
    let third = cycle_recent(&recent, "/sd/repo/c.md", Scope::Repo, Some(second.0)).unwrap();
    assert_eq!(third.1, "/sd/repo/a.md"); // wraps
    assert!(cycle_recent(&strings(&["/sd/repo/a.md"]), "/sd/repo/a.md", Scope::Repo, None)
        .is_none());
}

#[test]
fn committing_a_walk_moves_the_landing_note_to_the_front() {
    let recent = strings(&["/sd/repo/a.md", "/sd/repo/b.md"]);
    assert_eq!(commit_recent_cycle(&recent, true, "/sd/repo/b.md"), vec![
        "/sd/repo/b.md",
        "/sd/repo/a.md"
    ]);
    assert_eq!(commit_recent_cycle(&recent, false, "/sd/repo/b.md"), recent);
}

#[test]
fn ctrl_n_p_navigate_the_palette() {
    let files = file_list(&["/sd/repo/a.md", "/sd/repo/b.md", "/sd/repo/c.md"]);
    let prefs = defaults();
    let len = palette_len(&files, &vec![], &prefs, &vec![], "md");
    assert_eq!(len, 3); // the search threshold reached: all three match
    let mut st = typed("md", &files, 0);
    st.palette_key(Key::Down, &files, len);
    assert_eq!(st.sel, 1);
    st.palette_key(Key::Down, &files, len);
    st.palette_key(Key::Down, &files, len); // wraps past the last row to the top
    assert_eq!(st.sel, 0);
    st.palette_key(Key::Up, &files, len); // wraps back to the last row
    assert_eq!(st.sel, 2);
}

#[test]
fn half_page_keys_step_the_palette_selection_too() {
    let files = file_list(&["/sd/repo/a.md", "/sd/repo/b.md", "/sd/repo/c.md"]);
    let mut st = typed("md", &files, 3);
    st.palette_key(Key::HalfPageDown, &files, 3);
    st.palette_key(Key::HalfPageDown, &files, 3);
    st.palette_key(Key::HalfPageDown, &files, 3); // wraps past the last row to the top
    assert_eq!(st.sel, 0);
    st.palette_key(Key::HalfPageUp, &files, 3); // wraps back to the last row
    assert_eq!(st.sel, 2);
}

#[test]
fn editing_the_query_resets_the_selection_to_the_top() {
    let files = file_list(&["/sd/repo/a.md", "/sd/repo/b.md"]);
    let mut st = typed("md", &files, 2);
    st.palette_key(Key::HalfPageDown, &files, 2);
    assert_eq!(st.sel, 1);
    st.palette_key(Key::Char('a'), &files, 2); // a query edit resets the selection
    assert_eq!(st.sel, 0);
    assert_eq!(st.query, "mda");
}

#[test]
fn backspace_on_an_empty_query_closes_the_palette() {
    let files = file_list(&["/sd/repo/a.md"]);
    let mut st = typed("", &files, 0);
    assert_eq!(st.palette_key(Key::Backspace, &files, 0), PaletteAction::Close);
}

#[test]
fn esc_and_cmd_p_close_the_palette_and_enter_acts() {
    let files = file_list(&["/sd/repo/a.md"]);
    let mut st = typed("ab", &files, 0);
    assert_eq!(st.palette_key(Key::Enter, &files, 1), PaletteAction::Activate);
    assert_eq!(st.palette_key(Key::Escape, &files, 1), PaletteAction::Close);
    assert_eq!(st.query, "");
    let mut st = typed("ab", &files, 0);
    assert_eq!(st.palette_key(Key::Palette, &files, 1), PaletteAction::Close);
}

#[test]
fn ctrl_w_drops_the_last_word_of_the_query() {
    let files = file_list(&["/sd/repo/a.md"]);
    let mut st = typed("repo notes  ", &files, 0);
    st.palette_key(Key::DeleteWord, &files, 0);
    assert_eq!(st.query, "repo ");
    st.palette_key(Key::DeleteWord, &files, 0);
    assert_eq!(st.query, "");
    let mut st = typed("abc", &files, 0);
    st.palette_key(Key::DeleteLine, &files, 0);
    assert_eq!(st.query, "");
}

#[test]
fn leading_gt_switches_the_palette_to_command_mode() {
    assert!(palette_command_mode(">"));
    // Every command is offered on a bare `>`, in registry order.
    let m = palette_command_matches(&defaults(), ">");
    assert_eq!(m.len(), PALETTE_CMDS.len());
    assert_eq!(m, (0..PALETTE_CMDS.len()).collect::<Vec<_>>());
}

#[test]
fn backspacing_the_gt_returns_to_file_mode() {
    let files = file_list(&["/sd/repo/notes.md"]);
    let mut st = typed(">", &files, 0);
    assert!(palette_command_mode(&st.query));
    assert_eq!(st.palette_key(Key::Backspace, &files, 13), PaletteAction::Stay);
    assert!(!palette_command_mode(&st.query)); // still open, just file mode again
}

#[test]
fn command_filter_fuzzy_matches_the_label() {
    let matches = palette_command_matches(&defaults(), ">line");
    assert_eq!(matches.len(), 1);
    assert_eq!(PALETTE_CMDS[matches[0]], PaletteCmd::LineNumbers);
    assert_eq!(command_filter(">  line "), "line");
    assert_eq!(command_filter("line"), "");
    assert_eq!(snippet_filter("$ link"), "link");
}

#[test]
fn command_label_reflects_current_pref_state() {
    assert_eq!(command_label(PaletteCmd::LineNumbers, &defaults()), "line numbers: on");
    assert_eq!(command_label(PaletteCmd::ScrollMargin, &defaults()), "scroll margin: 2");
}

#[test]
fn theme_command_label_reflects_the_current_value() {
    assert_eq!(command_label(PaletteCmd::Theme, &defaults()), "theme: light");
    assert_eq!(command_label(PaletteCmd::AutoSync, &defaults()), "auto sync: 10m");
}

#[test]
fn command_labels_for_the_new_actions() {
    let p = defaults();
    assert_eq!(command_label(PaletteCmd::NewFile, &p), "new file...");
    assert_eq!(command_label(PaletteCmd::Format, &p), "format");
    assert_eq!(command_label(PaletteCmd::Push, &p), "push");
    assert_eq!(command_label(PaletteCmd::Update, &p), "update firmware");
}

#[test]
fn running_a_command_toggles_the_pref_live_and_queues_a_save_prefs() {
    let mut p = defaults();
    assert!(p.line_numbers);
    match palette_run_command(&mut p, ">line", 0) {
        CommandRun::Toggled(ch) => {
            assert!(!p.line_numbers); // applied live
            // The written TOML reflects the toggled state and round-trips.
            assert!(!Prefs::parse(&ch.contents).line_numbers);
        }
        _ => panic!("expected a toggle"),
    }
}

#[test]
fn running_a_command_confirms_the_new_state_on_the_snackbar() {
    let mut p = defaults();
    match palette_run_command(&mut p, ">save", 0) {
        CommandRun::Toggled(ch) => assert_eq!(ch.notice, "save on idle: off - saved"),
        _ => panic!("expected a toggle"),
    }
}

#[test]
fn running_the_theme_command_rotates_the_preset_and_queues_a_save_prefs() {
    let mut p = defaults();
    assert_eq!(p.theme, "light");
    assert!(matches!(palette_run_command(&mut p, ">theme", 0), CommandRun::Toggled(_)));
    assert_eq!(p.theme, "dark");
    palette_run_command(&mut p, ">theme", 0);
    assert_eq!(p.theme, "light"); // rotates back, wrapping
}

#[test]
fn running_the_auto_sync_command_walks_the_interval_presets() {
    let mut p = defaults();
    assert_eq!(p.auto_sync, "10m");
    for expected in ["15m", "30m", "2m"] {
        palette_run_command(&mut p, ">auto", 0);
        assert_eq!(p.auto_sync, expected);
    }
}

#[test]
fn the_scroll_margin_command_rotates_through_its_presets() {
    let mut p = defaults();
    for expected in [3, 0, 1, 2] {
        assert!(cycle_pref(&mut p, PaletteCmd::ScrollMargin).is_some());
        assert_eq!(p.scroll_margin, expected);
    }
}

#[test]
fn an_action_is_not_a_pref_to_cycle() {
    let mut p = defaults();
    assert!(cycle_pref(&mut p, PaletteCmd::Format).is_none());
    assert_eq!(p, defaults());
}

#[test]
fn a_no_match_command_query_runs_nothing() {
    let mut p = defaults();
    assert!(palette_command_matches(&p, ">zzzzz").is_empty());
    assert!(matches!(palette_run_command(&mut p, ">zzzzz", 0), CommandRun::Nothing));
    assert_eq!(p, defaults()); // nothing toggled
}

#[test]
fn format_ranks_the_action_above_format_on_save() {
    let mut p = defaults();
    let m = palette_command_matches(&p, ">format");
    assert_eq!(PALETTE_CMDS[m[0]], PaletteCmd::Format);
    assert!(matches!(
        palette_run_command(&mut p, ">format", 0),
        CommandRun::OneShot(PaletteCmd::Format)
    ));
    assert_eq!(p, defaults());
}

#[test]
fn ctrl_n_moves_the_command_selection_wrapping() {
    let files: Vec<String> = vec![];
    let n = palette_len(&files, &vec![], &defaults(), &vec![], ">");
    assert_eq!(n, PALETTE_CMDS.len());
    let mut st = typed(">", &files, 0);
    for _ in 0..n - 1 {
        st.palette_key(Key::Down, &files, n);
    }
    assert_eq!(st.sel, n - 1);
    st.palette_key(Key::Down, &files, n); // wraps back to the top
    assert_eq!(st.sel, 0);
    st.palette_key(Key::Up, &files, n); // and back to the bottom
    assert_eq!(st.sel, n - 1);
}

#[test]
fn settings_opens_the_palette_in_command_mode() {
    let mut st = PaletteState::new();
    st.open_settings();
    assert!(palette_command_mode(&st.query));
    assert_eq!(palette_command_matches(&defaults(), &st.query).len(), PALETTE_CMDS.len());
}

#[test]
fn new_file_command_opens_the_filename_input_step() {
    let files = file_list(&["/sd/repo/notes.md"]);
    let mut p = defaults();
    let mut st = typed(">new", &files, 0);
    assert!(matches!(palette_run_command(&mut p, &st.query, st.sel), CommandRun::NewFileStep));
    st.begin_new_file_step(&current_folder_prefix("/sd/repo/notes.md", Scope::Repo));
    assert_eq!(st.step, PaletteStep::NewFile);
    assert_eq!(st.query, "repo/"); // pre-filled with the active buffer's folder
}

#[test]
fn new_file_step_creates_the_typed_file() {
    let files = file_list(&["/sd/repo/notes.md"]);
    let mut st = PaletteState::new();
    st.begin_new_file_step("repo/");
    for c in "draft.md".chars() {
        st.palette_key(Key::Char(c), &files, 0);
    }
    assert_eq!(
        st.palette_key(Key::Enter, &files, 0),
        PaletteAction::Create("repo/draft.md".to_string())
    );
    assert_eq!(st.step, PaletteStep::List);
    assert_eq!(st.query, "");
}

#[test]
fn new_file_step_backspace_returns_to_the_command_list() {
    let files = file_list(&["/sd/repo/notes.md"]);
    let mut st = PaletteState::new();
    st.begin_new_file_step("");
    assert_eq!(st.palette_key(Key::Backspace, &files, 0), PaletteAction::Stay);
    assert_eq!(st.step, PaletteStep::List);
    assert!(palette_command_mode(&st.query)); // query restored to ">"
}

#[test]
fn new_file_step_empty_enter_stays_in_the_step() {
    let files = file_list(&["/sd/repo/notes.md"]);
    let mut st = PaletteState::new();
    st.begin_new_file_step("");
    assert_eq!(st.palette_key(Key::Enter, &files, 0), PaletteAction::Stay);
    assert_eq!(st.step, PaletteStep::NewFile);
    // A bare folder is no name either.
    st.begin_new_file_step("repo/notes/");
    assert_eq!(st.palette_key(Key::Enter, &files, 0), PaletteAction::Stay);
    assert_eq!(st.step, PaletteStep::NewFile);
}

#[test]
fn current_folder_prefix_is_the_active_files_folder_or_the_scope_root() {
    assert_eq!(current_folder_prefix("/sd/repo/notes/foo.md", Scope::Repo), "repo/notes/");
    assert_eq!(current_folder_prefix("", Scope::Repo), "repo/");
    assert_eq!(current_folder_prefix("", Scope::Local), "local/");
    assert_eq!(current_folder_prefix("nofolder", Scope::Repo), "");
}

#[test]
fn folder_completions_list_the_matching_folders_sorted() {
    let files = file_list(&[
        "/sd/repo/notes/a.md",
        "/sd/repo/Notes2/b.md",
        "/sd/repo/b.md",
        "/sd/local/j.md",
    ]);
    assert_eq!(folder_completions(&files, "repo/n"), vec!["repo/Notes2/", "repo/notes/"]);
    assert_eq!(folder_completions(&files, "re"), vec!["repo/", "repo/Notes2/", "repo/notes/"]);
    // The stem itself is not a completion.
    assert_eq!(folder_completions(&files, "REPO/"), vec!["repo/Notes2/", "repo/notes/"]);
    assert!(folder_completions(&files, "x").is_empty());
    // The scope roots exist even with no files.
    assert_eq!(folder_completions(&vec![], ""), vec!["local/", "repo/"]);
}

#[test]
fn tab_cycles_the_completions_and_back_to_the_stem() {
    let files = file_list(&["/sd/repo/notes/a.md", "/sd/repo/b.md"]);
    let mut q = "repo/".to_string();
    let mut c = None;
    new_file_complete(&mut q, &mut c, &files);
    assert_eq!(q, "repo/notes/");
    new_file_complete(&mut q, &mut c, &files);
    assert_eq!(q, "repo/"); // the extra slot restores the stem
    new_file_complete(&mut q, &mut c, &files);
    assert_eq!(q, "repo/notes/"); // and round again
    let mut q = "zz".to_string();
    let mut c = None;
    new_file_complete(&mut q, &mut c, &files);
    assert_eq!(q, "zz"); // nothing to complete
    assert!(c.is_none());
}

#[test]
fn tab_in_the_new_file_step_completes_and_typing_ends_the_cycle() {
    let files = file_list(&["/sd/repo/notes/a.md"]);
    let mut st = PaletteState::new();
    st.begin_new_file_step("repo/n");
    st.palette_key(Key::Char('\t'), &files, 0);
    assert_eq!(st.query, "repo/notes/");
    assert!(st.completion.is_some());
    st.palette_key(Key::Char('x'), &files, 0);
    assert_eq!(st.query, "repo/notes/x");
    assert!(st.completion.is_none());
}

#[test]
fn dollar_switches_the_palette_to_snippet_mode() {
    assert!(palette_snippet_mode("$"));
    assert!(!palette_command_mode("$"));
    // A bare `$` lists every snippet.
    assert_eq!(palette_snippet_matches(&two_snippets(), "$").len(), 2);
}

#[test]
fn snippet_filter_fuzzy_matches_name_prefix_and_description() {
    let snips = two_snippets();
    let m = palette_snippet_matches(&snips, "$link");
    assert_eq!(m.len(), 1);
    assert_eq!(snips[m[0]].name, "Markdown link");
    // A word only in the description ("fiche") finds the other one.
    let m = palette_snippet_matches(&snips, "$fiche");
    assert_eq!(m.len(), 1);
    assert_eq!(snips[m[0]].name, "Book notes");
}

#[test]
fn snippet_rows_and_haystacks() {
    let snips = two_snippets();
    assert_eq!(snippet_label(&snips[0]), "Markdown link [link]");
    assert_eq!(snippet_haystack(&snips[1]), "Book notes booknotes Reading fiche");
    assert_eq!(palette_len(&vec![], &vec![], &defaults(), &snips, "$book"), 1);
}

#[test]
fn publish_names_the_note_pub_md_or_says_why_not() {
    let files = strings(&["/sd/repo/a.md", "/sd/repo/b.pub.md"]);
    let none: Vec<String> = vec![];
    assert_eq!(publish_target("/sd/repo/a.md", Scope::Repo, &files, &none).ok(), Some(
        "/sd/repo/a.pub.md".to_string()
    ));
    assert!(matches!(publish_target("", Scope::Repo, &files, &none), Err(PublishRefusal::NoFile)));
    assert!(matches!(
        publish_target("/sd/local/j.md", Scope::Local, &files, &none),
        Err(PublishRefusal::Local)
    ));
    assert!(matches!(
        publish_target("/sd/repo/b.pub.md", Scope::Repo, &files, &none),
        Err(PublishRefusal::AlreadyPublished)
    ));
    assert!(matches!(
        publish_target("/sd/repo/c.txt", Scope::Repo, &files, &none),
        Err(PublishRefusal::NotMarkdown)
    ));
    match publish_target("/sd/repo/b.md", Scope::Repo, &files, &none) {
        Err(PublishRefusal::Exists(label)) => assert_eq!(label, "repo/b.pub.md"),
        _ => panic!("expected the name to be taken"),
    }
    let parked = strings(&["/sd/repo/a.pub.md"]);
    assert!(matches!(
        publish_target("/sd/repo/a.md", Scope::Repo, &files, &parked),
        Err(PublishRefusal::Exists(_))
    ));
}

#[test]
fn publishing_shifts_the_caret_past_retargeted_links_and_lists_the_rest() {
    assert_eq!(publish_caret(10, &vec![2, 5, 10, 30]), 18);
    assert_eq!(publish_caret(0, &vec![2]), 0);
    let files = strings(&["/sd/repo/a.md", "/sd/repo/a.pub.md", "/sd/repo/b.md", "/sd/repo/c.txt"]);
    let parked = strings(&["/sd/repo/b.md"]);
    assert_eq!(retarget_list(&files, "/sd/repo/a.pub.md", &parked), vec!["/sd/repo/a.md"]);
}

#[test]
fn flipping_a_boolean_pref_twice_gives_the_prefs_back() {
    for cmd in [PaletteCmd::SaveOnIdle, PaletteCmd::FormatOnSave, PaletteCmd::LineNumbers, PaletteCmd::OpenLastOnBoot] {
        let mut p = defaults();
        cycle_pref(&mut p, cmd);
        assert_ne!(p, defaults());
        cycle_pref(&mut p, cmd);
        assert_eq!(p, defaults());
    }
}

#[test]
fn one_enter_lands_an_unknown_preset_on_a_known_one() {
    let mut p = Prefs::parse("theme = \"sepia\"\nauto_sync = \"7m\"\nscroll_margin = 9\n");
    assert_eq!(p.theme, "sepia");
    cycle_pref(&mut p, PaletteCmd::Theme);
    assert_eq!(p.theme, "light");
    cycle_pref(&mut p, PaletteCmd::AutoSync);
    assert_eq!(p.auto_sync, "2m");
    cycle_pref(&mut p, PaletteCmd::ScrollMargin);
    assert_eq!(p.scroll_margin, 0);
}

#[test]
fn a_published_note_is_not_published_again() {
    let files: Vec<String> = vec![];
    let to = publish_target("/sd/repo/n.md", Scope::Repo, &files, &files).ok().unwrap();
    assert!(matches!(
        publish_target(&to, Scope::Repo, &files, &files),
        Err(PublishRefusal::AlreadyPublished)
    ));
}

#[test]
fn the_list_window_keeps_the_selection_on_screen() {
    assert_eq!(list_window(0, 20, 8), (0, 0));
    assert_eq!(list_window(7, 20, 8), (7, 0));
    assert_eq!(list_window(8, 20, 8), (8, 1));
    assert_eq!(list_window(30, 20, 8), (19, 12)); // clamped to the last row
}

#[test]
fn an_empty_list_says_why() {
    assert_eq!(empty_list_message("$x", false, false), "(no match)");
    assert_eq!(empty_list_message("$", true, false), "(no snippets)");
    assert_eq!(empty_list_message(">zz", false, false), "(no command)");
    assert_eq!(empty_list_message("", false, true), "(no files on card)");
    assert_eq!(empty_list_message("a", false, false), "(type to search)");
    assert_eq!(empty_list_message("ab", false, false), "(no match)");
}
