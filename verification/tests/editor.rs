use typoena::buffers::{resolve_path, Scope};
use typoena::fuzzy::fuzzy_score;
use typoena::prefs::{next_option, Prefs, AUTO_SYNC_OPTIONS, THEME_OPTIONS};
use typoena::render::wrap_text;
use typoena::snippets::{parse_snippet_body, strip_stop_labels};
use typoena::tables::format_markdown;

#[test]
fn format_keeps_at_most_one_trailing_blank_line() {
    // The writer's trailing blank line (pressed Enter to open the next line) is
    // kept; a run of them collapses to one; a note with none gains none.
    assert_eq!(format_markdown("hello\n"), "hello\n"); // one blank kept
    assert_eq!(format_markdown("hello\n\n\n"), "hello\n"); // extras collapsed to one
    assert_eq!(format_markdown("hello"), "hello"); // none added
}

#[test]
fn wrap_text_packs_words_and_splits_overlong_tokens() {
    // Short message: one line.
    assert_eq!(wrap_text("saved", 15), vec!["saved"]);
    // Word-wraps on the space, keeping the actionable tail.
    assert_eq!(
        wrap_text("save FAILED - retry :w", 15),
        vec!["save FAILED -", "retry :w"]
    );
    // A token longer than the width is hard-split rather than truncated.
    assert_eq!(
        wrap_text("supercalifragilistic", 8),
        vec!["supercal", "ifragili", "stic"]
    );
    assert!(wrap_text("", 15).is_empty());
}

#[test]
fn resolve_path_maps_prefixes_and_bare_names() {
    assert_eq!(
        resolve_path("/sd/local/j.md", Scope::Repo),
        ("/sd/local/j.md".to_string(), Scope::Local)
    );
    assert_eq!(
        resolve_path("/sd/repo/n.md", Scope::Local),
        ("/sd/repo/n.md".to_string(), Scope::Repo)
    );
    // A leading `local/` or `repo/` segment selects scope (the palette label
    // form), independent of the current buffer's scope.
    assert_eq!(
        resolve_path("local/j.md", Scope::Repo),
        ("/sd/local/j.md".to_string(), Scope::Local)
    );
    assert_eq!(
        resolve_path("repo/n.md", Scope::Local),
        ("/sd/repo/n.md".to_string(), Scope::Repo)
    );
    // The `/sd` prefix is optional: `/repo/x` and `/local/x` (leading slash,
    // no `/sd`) resolve into the same scopes as their `/sd/…` spellings.
    assert_eq!(
        resolve_path("/repo/n.md", Scope::Local),
        ("/sd/repo/n.md".to_string(), Scope::Repo)
    );
    assert_eq!(
        resolve_path("/local/j.md", Scope::Repo),
        ("/sd/local/j.md".to_string(), Scope::Local)
    );
    // A bare name lands in the current buffer's scope directory.
    assert_eq!(
        resolve_path("draft.md", Scope::Local),
        ("/sd/local/draft.md".to_string(), Scope::Local)
    );
    assert_eq!(
        resolve_path("draft.md", Scope::Repo),
        ("/sd/repo/draft.md".to_string(), Scope::Repo)
    );
}

#[test]
fn fuzzy_score_matches_subsequence_case_insensitively() {
    assert!(fuzzy_score("notes", "repo/notes.md").is_some());
    assert!(fuzzy_score("NOTES", "repo/notes.md").is_some()); // case-insensitive
    assert!(fuzzy_score("rpnm", "repo/notes.md").is_some()); // scattered subsequence
    assert!(fuzzy_score("xyz", "repo/notes.md").is_none()); // not a subsequence
    assert_eq!(fuzzy_score("", "anything"), Some(0)); // empty query matches all
}

#[test]
fn fuzzy_score_space_matches_any_separator() {
    assert!(fuzzy_score("la conv", "repo/la-convergence.md").is_some()); // space finds '-'
    assert!(fuzzy_score("notes md", "repo/notes.md").is_some()); // space finds '.'
    assert!(fuzzy_score("repo notes", "repo/notes.md").is_some()); // space finds '/'
    assert!(fuzzy_score("la conv", "repo/laconvergence.md").is_none()); // still needs a separator
}

#[test]
fn fuzzy_score_ranks_word_boundaries_above_midword() {
    // "no" after the "/" boundary in repo/notes beats a mid-word hit.
    let boundary = fuzzy_score("no", "repo/notes.md").unwrap();
    let midword = fuzzy_score("no", "cannotes.md").unwrap();
    assert!(boundary > midword, "{boundary} !> {midword}");
}

#[test]
fn prefs_default_matches_the_documented_defaults() {
    let p = Prefs::default();
    assert!(p.save_on_idle);
    assert!(p.format_on_save);
    assert!(p.line_numbers);
    assert!(p.open_last_on_boot);
    assert_eq!(p.theme, "light");
    assert_eq!(p.auto_sync, "10m");
}

#[test]
fn prefs_parse_falls_back_to_defaults_for_missing_keys() {
    // Only one key present; the rest stay at their defaults.
    let p = Prefs::parse("line_numbers = false\n");
    assert!(!p.line_numbers);
    assert!(p.save_on_idle); // untouched -> default
    assert!(p.format_on_save);
    assert_eq!(p.auto_sync, "10m");
}

#[test]
fn prefs_parse_reads_all_keys_and_ignores_comments_and_junk() {
    let src = "\
        # a header comment\n\
        save_on_idle = false   # trailing comment\n\
        format_on_save = false\n\
        line_numbers = false\n\
        open_last_on_boot = false\n\
        auto_sync = \"2m\"\n\
        bogus_key = whatever\n\
        not a pair\n";
    let p = Prefs::parse(src);
    assert!(!p.save_on_idle);
    assert!(!p.format_on_save);
    assert!(!p.line_numbers);
    assert!(!p.open_last_on_boot);
    assert_eq!(p.auto_sync, "2m");
}

#[test]
fn prefs_parse_keeps_default_on_an_unparseable_bool() {
    // A typo in a bool value leaves that key at its default, not `false`.
    let p = Prefs::parse("save_on_idle = yes\n");
    assert!(p.save_on_idle); // "yes" isn't a TOML bool -> default (true)
}

#[test]
fn prefs_to_toml_round_trips_through_parse() {
    let p = Prefs {
        save_on_idle: false,
        format_on_save: true,
        line_numbers: false,
        open_last_on_boot: false,
        theme: "dark".into(),
        auto_sync: "5m".into(),
        ..Prefs::default()
    };
    assert_eq!(Prefs::parse(&p.to_toml()), p);
}

#[test]
fn prefs_parse_reads_theme_and_auto_sync_strings() {
    let p = Prefs::parse("theme = \"dark\"\nauto_sync = \"15m\"\n");
    assert_eq!(p.theme, "dark");
    assert_eq!(p.auto_sync, "15m");
}

#[test]
fn empty_prefs_file_yields_defaults() {
    assert_eq!(Prefs::parse(""), Prefs::default());
}

#[test]
fn next_option_rotates_and_wraps() {
    assert_eq!(next_option("light", &THEME_OPTIONS), "dark");
    assert_eq!(next_option("dark", &THEME_OPTIONS), "light"); // wraps
    assert_eq!(next_option("10m", &AUTO_SYNC_OPTIONS), "15m");
    assert_eq!(next_option("30m", &AUTO_SYNC_OPTIONS), "2m"); // wraps
}

#[test]
fn next_option_snaps_an_unknown_value_to_the_head() {
    // A hand-typed value outside the preset list lands on the first option.
    assert_eq!(next_option("sepia", &THEME_OPTIONS), "light");
    assert_eq!(next_option("7m", &AUTO_SYNC_OPTIONS), "2m");
}

#[test]
fn strip_labels_reduces_placeholders_to_bare_stops() {
    assert_eq!(strip_stop_labels("# ${1:Titre}"), "# $1");
    assert_eq!(strip_stop_labels("${2}"), "$2");
    assert_eq!(strip_stop_labels("[$1]($2)$0"), "[$1]($2)$0"); // plain stops untouched
    assert_eq!(strip_stop_labels("price: $ and ${3:x}"), "price: $ and $3"); // lone $ kept
}

#[test]
fn parse_body_extracts_literal_and_visit_order() {
    let (lit, stops) = parse_snippet_body("[$1]($2)$0");
    assert_eq!(lit, "[]()");
    assert_eq!(stops, vec![1, 3, 4]); // $1, $2, then $0 (end) last
}

#[test]
fn parse_body_appends_implicit_final_stop_when_no_zero() {
    let (lit, stops) = parse_snippet_body("# $1\n## $2");
    assert_eq!(lit, "# \n## ");
    assert_eq!(stops, vec![2, 6, 6]); // $1, $2, implicit rest at the end
}

#[test]
fn parse_body_no_stops_has_empty_visit_list() {
    let (lit, stops) = parse_snippet_body("- [ ] ");
    assert_eq!(lit, "- [ ] ");
    assert!(stops.is_empty());
}

#[test]
fn fuzzy_scores_ignore_query_case_and_stay_within_sixteen_per_char() {
    for (q, t) in [("notes", "repo/notes.md"), ("rnm", "repo/notes.md"), ("x", "a")] {
        assert_eq!(fuzzy_score(&q.to_ascii_uppercase(), t), fuzzy_score(q, t));
        if let Some(s) = fuzzy_score(q, t) {
            let m = q.chars().count() as i32;
            assert!(m <= s && s <= 16 * m);
        }
    }
}
