use typoena::buffers::{relative_link_path, resolve_link_target, span_str, Scope};

#[test]
fn relative_link_drops_the_shared_directories() {
    assert_eq!(relative_link_path("/sd/repo/a.md", "/sd/repo/b.md"), "b.md");
    assert_eq!(relative_link_path("/sd/repo/notes/a.md", "/sd/repo/b.md"), "../b.md");
    assert_eq!(relative_link_path("/sd/repo/a.md", "/sd/repo/notes/b.md"), "notes/b.md");
    assert_eq!(relative_link_path("/sd/repo/a.md", "/sd/local/j.md"), "../local/j.md");
    assert_eq!(relative_link_path("", "/sd/repo/x.md"), "repo/x.md");
}

#[test]
fn link_targets_resolve_against_the_linking_file() {
    assert_eq!(
        resolve_link_target("/sd/repo/a.md", Scope::Repo, "../local/j.md"),
        Some(("/sd/local/j.md".to_string(), Scope::Local))
    );
    assert_eq!(
        resolve_link_target("/sd/repo/a.md", Scope::Repo, "./b.md"),
        Some(("/sd/repo/b.md".to_string(), Scope::Repo))
    );
    assert_eq!(
        resolve_link_target("/sd/repo/a.md", Scope::Local, "repo/x.md"),
        Some(("/sd/repo/x.md".to_string(), Scope::Repo))
    );
    // Out of both scopes, or above the card: nothing to open.
    assert_eq!(resolve_link_target("/sd/repo/a.md", Scope::Repo, "../../x.md"), None);
    assert_eq!(resolve_link_target("/sd/repo/a.md", Scope::Repo, "../../../x.md"), None);
    assert_eq!(resolve_link_target("/sd/repo/a.md", Scope::Repo, "../conf.toml"), None);
    // A from-path with no directory cannot anchor a relative target.
    assert_eq!(resolve_link_target("a.md", Scope::Repo, "b.md"), None);
}

#[test]
fn a_written_link_resolves_back_to_its_target() {
    let files = [
        "/sd/repo/a.md",
        "/sd/repo/notes/deep/b.md",
        "/sd/local/journal.md",
        "/sd/local/2026/07/j.md",
        "/sd/repo/x.md",
    ];
    for from in files.iter().copied().chain([""]) {
        for to in files {
            let rel = relative_link_path(from, to);
            let scope = if to.starts_with("/sd/repo/") { Scope::Repo } else { Scope::Local };
            assert_eq!(
                resolve_link_target(from, Scope::Local, &rel),
                Some((to.to_string(), scope)),
                "{from} -> {rel}"
            );
        }
    }
}

#[test]
fn span_str_slices_on_char_boundaries_or_gives_nothing() {
    assert_eq!(span_str("héllo", 0, 3), "hé");
    assert_eq!(span_str("héllo", 3, 6), "llo");
    assert_eq!(span_str("héllo", 0, 2), "");
    assert_eq!(span_str("abc", 2, 1), "");
    assert_eq!(span_str("abc", 1, 5), "");
    assert_eq!(span_str("abc", 3, 3), "");
}
