use typoena::conf::{ensure_dot_git, expand_remote_url, Conf, Field};

#[test]
fn parse_render_round_trip() {
    let c = Conf {
        wifi_ssid: "Freebox-1234".into(),
        wifi_pass: "s3cret with spaces=and=equals".into(),
        remote_url: "https://github.com/typoena/notes.git".into(),
        gh_user: "jcalixte".into(),
        pat: "github_pat_abc".into(),
        author_name: "Julien Calixte".into(),
        author_email: "j@example.com".into(),
    };
    assert_eq!(Conf::parse(&c.render()), c);
}

#[test]
fn parse_skips_comments_blanks_unknown_and_malformed() {
    let body = "# header\n\nTW_WIFI_SSID=net\nTW_FUTURE_KEY=x\nnot a kv line\nTW_GH_USER=me\n";
    let c = Conf::parse(body);
    assert_eq!(c.wifi_ssid, "net");
    assert_eq!(c.gh_user, "me");
    assert_eq!(c.wifi_pass, "");
}

#[test]
fn parse_value_verbatim_after_first_equals() {
    let c = Conf::parse("TW_WIFI_PASS= pass=with=equals \n");
    assert_eq!(c.wifi_pass, " pass=with=equals ");
}

#[test]
fn parse_strips_trailing_cr_only() {
    let c = Conf::parse("TW_WIFI_SSID=net\r\nTW_GH_USER=me\r\n");
    assert_eq!(c.wifi_ssid, "net");
    assert_eq!(c.gh_user, "me");
}

#[test]
fn missing_required_reports_blank_required_fields() {
    let mut c = Conf::default();
    assert_eq!(
        c.missing_required(),
        vec![Field::WifiSsid, Field::RemoteUrl, Field::GhUser, Field::Pat]
    );
    c.wifi_ssid = "net".into();
    c.remote_url = "you/notes".into();
    c.gh_user = "you".into();
    c.pat = "tok".into();
    assert!(c.missing_required().is_empty());
    // Author + wifi pass are never required.
    assert_eq!(c.author_name, "");
}

#[test]
fn expand_remote_url_shorthands() {
    for (input, want) in [
        ("you/notes", "https://github.com/you/notes.git"),
        ("you/notes.git", "https://github.com/you/notes.git"),
        ("github.com/you/notes", "https://github.com/you/notes.git"),
        ("git@github.com:you/notes", "https://github.com/you/notes.git"),
        (
            "ssh://git@github.com:22/you/notes",
            "https://github.com/you/notes.git",
        ),
        (
            "https://github.com/you/notes.git",
            "https://github.com/you/notes.git",
        ),
        ("http://gitea.local/you/notes", "http://gitea.local/you/notes"),
        ("nonsense", "nonsense"),
        ("you/notes/", "https://github.com/you/notes.git"),
    ] {
        assert_eq!(expand_remote_url(input), want, "input: {input}");
    }
}

#[test]
fn get_and_get_mut_address_the_field_by_its_key() {
    let mut c = Conf::new();
    *c.get_mut(Field::GhUser) = "me".to_string();
    assert_eq!(c.get(Field::GhUser), "me");
    assert_eq!(c.gh_user, "me");
    assert_eq!(c.get(Field::Pat), "");
    assert_eq!(Field::Pat.conf_key(), "TW_PAT");
    assert!(Field::Pat.secret());
    assert!(Field::Pat.required());
    assert!(!Field::AuthorName.required());
}

#[test]
fn render_then_parse_keeps_every_field() {
    let mut c = Conf::new();
    for (i, f) in Field::ALL.iter().enumerate() {
        *c.get_mut(*f) = format!("value {i}");
    }
    // The remote is expanded on parse, so give it its expanded form.
    c.remote_url = "https://github.com/you/notes.git".into();
    assert_eq!(Conf::parse(&c.render()), c);
}

#[test]
fn ensure_dot_git_adds_the_suffix_once() {
    assert_eq!(ensure_dot_git("you/notes"), "you/notes.git");
    assert_eq!(ensure_dot_git("you/notes.git"), "you/notes.git");
    assert_eq!(ensure_dot_git("/you/notes"), "you/notes.git");
}

#[test]
fn an_input_without_a_slash_is_returned_as_typed() {
    assert_eq!(expand_remote_url("git@host:notes"), "git@host:notes");
    assert_eq!(expand_remote_url("  notes/ "), "notes");
}

#[test]
fn expanding_twice_changes_nothing_and_paths_become_https() {
    for input in ["you/notes", "github.com/you/notes/", "git@host:you/notes", "ssh://git@h:22/a/b", "https://x/y", "plain", ""] {
        let once = expand_remote_url(input);
        assert_eq!(expand_remote_url(&once), once);
        if input.trim_end_matches('/').contains('/') {
            assert!(once.starts_with("https://") || once.starts_with("http://"));
        }
    }
}

#[test]
fn ignored_lines_and_appended_assignments() {
    let body = "TW_GH_USER=me\nTW_PAT=tok\n";
    let base = Conf::parse(body);
    for first in ["# comment", "", "garbage", "TW_UNKNOWN=1"] {
        assert_eq!(Conf::parse(&format!("{first}\n{body}")), base);
    }
    let r = Conf::parse(&format!("{body}TW_PAT= a=b \n"));
    assert_eq!(r.get(Field::Pat), " a=b ");
    assert_eq!(r.get(Field::GhUser), "me");
}

#[test]
fn a_rendered_config_reads_back_with_its_remote_expanded() {
    let mut c = Conf::new();
    *c.get_mut(Field::RemoteUrl) = "you/notes".to_string();
    *c.get_mut(Field::GhUser) = "me".to_string();
    let back = Conf::parse(&c.render());
    assert_eq!(back.get(Field::RemoteUrl), "https://github.com/you/notes.git");
    assert_eq!(back.get(Field::GhUser), "me");
}
