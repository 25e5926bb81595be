use typoena::palette::{
    date_prefix_len, friendly_filename, palette_label, CmdKind, PaletteCmd, PALETTE_CMDS,
};

#[test]
fn friendly_filename_drops_md_keeps_date_and_spaces_hyphens() {
    // Dated note: date kept intact, title de-hyphenated, `.md` dropped.
    assert_eq!(
        friendly_filename("2026-07-21-je-dois-parler.md"),
        "2026-07-21 je dois parler"
    );
    // Plain hyphenated name.
    assert_eq!(friendly_filename("standup-notes.md"), "standup notes");
    // No hyphens, `.md` still dropped.
    assert_eq!(friendly_filename("notes.md"), "notes");
    // Non-markdown extension is preserved (only `.md` is dropped).
    assert_eq!(friendly_filename("my-config.toml"), "my config.toml");
    // A bare date is left whole.
    assert_eq!(friendly_filename("2026-07-21.md"), "2026-07-21");
    // The scratch-buffer placeholder is untouched.
    assert_eq!(friendly_filename("[no name]"), "[no name]");
    // A leading number that is NOT a full date de-hyphenates normally.
    assert_eq!(friendly_filename("2026-notes.md"), "2026 notes");
}

#[test]
fn palette_label_drops_the_card_prefix_only() {
    assert_eq!(palette_label("/sd/repo/notes.md"), "repo/notes.md");
    assert_eq!(palette_label("/sd/local/journal.md"), "local/journal.md");
    assert_eq!(palette_label("/other/x.md"), "/other/x.md");
    assert_eq!(palette_label("/sd"), "/sd");
    assert_eq!(palette_label("/sd/"), "");
}

#[test]
fn date_prefix_needs_a_full_date_then_a_dash_or_the_end() {
    assert_eq!(date_prefix_len("2026-07-21-title"), 10);
    assert_eq!(date_prefix_len("2026-07-21"), 10);
    assert_eq!(date_prefix_len("2026-07-21x"), 0);
    assert_eq!(date_prefix_len("2026-07-2"), 0);
    assert_eq!(date_prefix_len("2026_07-21"), 0);
    assert_eq!(date_prefix_len("2026-07-21é"), 0);
    assert_eq!(date_prefix_len(""), 0);
}

#[test]
fn friendly_filename_handles_non_ascii_titles() {
    assert_eq!(friendly_filename("2026-07-21-été-à-paris.md"), "2026-07-21 été à paris");
    assert_eq!(friendly_filename(".md"), "");
}

#[test]
fn command_kinds_split_actions_params_and_toggles() {
    assert_eq!(PaletteCmd::NewFile.kind(), CmdKind::Param);
    for c in [
        PaletteCmd::Format,
        PaletteCmd::Push,
        PaletteCmd::Setup,
        PaletteCmd::Reboot,
        PaletteCmd::Update,
    ] {
        assert_eq!(c.kind(), CmdKind::OneShot);
    }
    for c in [
        PaletteCmd::SaveOnIdle,
        PaletteCmd::FormatOnSave,
        PaletteCmd::LineNumbers,
        PaletteCmd::ScrollMargin,
        PaletteCmd::OpenLastOnBoot,
        PaletteCmd::Theme,
        PaletteCmd::AutoSync,
    ] {
        assert_eq!(c.kind(), CmdKind::Toggle);
    }
    assert_eq!(PALETTE_CMDS.len(), 13);
    assert_eq!(PALETTE_CMDS[0], PaletteCmd::NewFile);
    assert_eq!(PALETTE_CMDS[12], PaletteCmd::AutoSync);
}
