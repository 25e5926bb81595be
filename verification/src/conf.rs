//! `typoena.conf` — the device runtime config on the SD card.
//!
//! One flat `KEY=value` file carrying the seven `TW_*` values (Wi-Fi, git
//! remote, GitHub user + token, commit author). This module is the schema:
//! field list, required-ness, parse, render, and the remote-URL shorthand
//! expansion.

use vstd::prelude::*;
use crate::text;

verus! {

broadcast use vstd::string::group_string_axioms;

/// One config field. Order is the file order and the wizard's edit order.
#[derive(Clone, Copy, PartialEq, Eq, Debug, Structural)]
pub enum Field {
    WifiSsid,
    WifiPass,
    RemoteUrl,
    GhUser,
    Pat,
    AuthorName,
    AuthorEmail,
}

/// Every field, in file order.
pub open spec fn all_fields() -> Seq<Field> {
    seq![
        Field::WifiSsid,
        Field::WifiPass,
        Field::RemoteUrl,
        Field::GhUser,
        Field::Pat,
        Field::AuthorName,
        Field::AuthorEmail,
    ]
}

/// The `typoena.conf` key of a field.
pub open spec fn key_of(f: Field) -> Seq<char> {
    match f {
        Field::WifiSsid => "TW_WIFI_SSID"@,
        Field::WifiPass => "TW_WIFI_PASS"@,
        Field::RemoteUrl => "TW_REMOTE_URL"@,
        Field::GhUser => "TW_GH_USER"@,
        Field::Pat => "TW_PAT"@,
        Field::AuthorName => "TW_AUTHOR_NAME"@,
        Field::AuthorEmail => "TW_AUTHOR_EMAIL"@,
    }
}

/// The wizard's prompt label of a field.
pub open spec fn label_of(f: Field) -> Seq<char> {
    match f {
        Field::WifiSsid => "Wi-Fi network"@,
        Field::WifiPass => "Wi-Fi password"@,
        Field::RemoteUrl => "Git remote URL"@,
        Field::GhUser => "GitHub user"@,
        Field::Pat => "GitHub token"@,
        Field::AuthorName => "Commit author name"@,
        Field::AuthorEmail => "Commit author email"@,
    }
}

pub open spec fn is_secret(f: Field) -> bool {
    f == Field::WifiPass || f == Field::Pat
}

pub open spec fn is_required(f: Field) -> bool {
    f == Field::WifiSsid || f == Field::RemoteUrl || f == Field::GhUser || f == Field::Pat
}

impl Field {
    pub const ALL: [Field; 7] = [
        Field::WifiSsid,
        Field::WifiPass,
        Field::RemoteUrl,
        Field::GhUser,
        Field::Pat,
        Field::AuthorName,
        Field::AuthorEmail,
    ];

    /// The `typoena.conf` key this field reads/writes.
    pub fn conf_key(self) -> (r: &'static str)
        ensures
            r@ == key_of(self),
    {
        match self {
            Field::WifiSsid => "TW_WIFI_SSID",
            Field::WifiPass => "TW_WIFI_PASS",
            Field::RemoteUrl => "TW_REMOTE_URL",
            Field::GhUser => "TW_GH_USER",
            Field::Pat => "TW_PAT",
            Field::AuthorName => "TW_AUTHOR_NAME",
            Field::AuthorEmail => "TW_AUTHOR_EMAIL",
        }
    }

    /// Human label (wizard / installer prompt text).
    pub fn label(self) -> (r: &'static str)
        ensures
            r@ == label_of(self),
    {
        match self {
            Field::WifiSsid => "Wi-Fi network",
            Field::WifiPass => "Wi-Fi password",
            Field::RemoteUrl => "Git remote URL",
            Field::GhUser => "GitHub user",
            Field::Pat => "GitHub token",
            Field::AuthorName => "Commit author name",
            Field::AuthorEmail => "Commit author email",
        }
    }

    /// Masked when displayed.
    pub fn secret(self) -> (r: bool)
        ensures
            r == is_secret(self),
    {
        matches!(self, Field::WifiPass | Field::Pat)
    }

    /// Required for a working device. TW_WIFI_PASS may be legitimately empty
    /// (open network); TW_AUTHOR_* have runtime defaults.
    pub fn required(self) -> (r: bool)
        ensures
            r == is_required(self),
    {
        matches!(self, Field::WifiSsid | Field::RemoteUrl | Field::GhUser | Field::Pat)
    }
}

/// A parsed (or under-construction) `typoena.conf`.
#[derive(Clone, PartialEq, Eq, Debug)]
pub struct Conf {
    pub wifi_ssid: String,
    pub wifi_pass: String,
    pub remote_url: String,
    pub gh_user: String,
    pub pat: String,
    pub author_name: String,
    pub author_email: String,
}

impl Conf {
    /// The text of field `f`.
    pub open spec fn value(&self, f: Field) -> Seq<char> {
        match f {
            Field::WifiSsid => self.wifi_ssid@,
            Field::WifiPass => self.wifi_pass@,
            Field::RemoteUrl => self.remote_url@,
            Field::GhUser => self.gh_user@,
            Field::Pat => self.pat@,
            Field::AuthorName => self.author_name@,
            Field::AuthorEmail => self.author_email@,
        }
    }

    /// Every field blank.
    pub fn new() -> (c: Conf)
        ensures
            forall|f: Field| #[trigger] c.value(f) == Seq::<char>::empty(),
    {
        Conf {
            wifi_ssid: String::new(),
            wifi_pass: String::new(),
            remote_url: String::new(),
            gh_user: String::new(),
            pat: String::new(),
            author_name: String::new(),
            author_email: String::new(),
        }
    }

    pub fn get(&self, f: Field) -> (r: &str)
        ensures
            r@ == self.value(f),
    {
        match f {
            Field::WifiSsid => self.wifi_ssid.as_str(),
            Field::WifiPass => self.wifi_pass.as_str(),
            Field::RemoteUrl => self.remote_url.as_str(),
            Field::GhUser => self.gh_user.as_str(),
            Field::Pat => self.pat.as_str(),
            Field::AuthorName => self.author_name.as_str(),
            Field::AuthorEmail => self.author_email.as_str(),
        }
    }

    pub fn get_mut(&mut self, f: Field) -> (r: &mut String)
        ensures
            *r == *old(self).value_string(f),
            final(self).value(f) == final(r)@,
            forall|g: Field| g != f ==> #[trigger] final(self).value(g) == old(self).value(g),
    {
        match f {
            Field::WifiSsid => &mut self.wifi_ssid,
            Field::WifiPass => &mut self.wifi_pass,
            Field::RemoteUrl => &mut self.remote_url,
            Field::GhUser => &mut self.gh_user,
            Field::Pat => &mut self.pat,
            Field::AuthorName => &mut self.author_name,
            Field::AuthorEmail => &mut self.author_email,
        }
    }

    /// The `String` holding field `f`.
    pub open spec fn value_string(&self, f: Field) -> &String {
        match f {
            Field::WifiSsid => &self.wifi_ssid,
            Field::WifiPass => &self.wifi_pass,
            Field::RemoteUrl => &self.remote_url,
            Field::GhUser => &self.gh_user,
            Field::Pat => &self.pat,
            Field::AuthorName => &self.author_name,
            Field::AuthorEmail => &self.author_email,
        }
    }
}

impl Default for Conf {
    fn default() -> (c: Conf)
        ensures
            forall|f: Field| #[trigger] c.value(f) == Seq::<char>::empty(),
    {
        Conf::new()
    }
}

/// The fields whose keys are distinct, so a line sets at most one of them.
pub proof fn lemma_keys_distinct(f: Field, g: Field)
    requires
        f != g,
    ensures
        key_of(f) != key_of(g),
{
    reveal_strlit("TW_WIFI_SSID");
    reveal_strlit("TW_WIFI_PASS");
    reveal_strlit("TW_REMOTE_URL");
    reveal_strlit("TW_GH_USER");
    reveal_strlit("TW_PAT");
    reveal_strlit("TW_AUTHOR_NAME");
    reveal_strlit("TW_AUTHOR_EMAIL");
    if key_of(f).len() == key_of(g).len() {
        assert(key_of(f)[8] != key_of(g)[8]);
    }
}

/// The field whose key is `k`, if any.
fn field_for_key(k: &[char]) -> (r: Option<Field>)
    ensures
        r matches Some(f) ==> key_of(f) == k@,
        r is None ==> forall|f: Field| key_of(f) != k@,
{
    if text::chars_eq_str(k, "TW_WIFI_SSID") {
        Some(Field::WifiSsid)
    } else if text::chars_eq_str(k, "TW_WIFI_PASS") {
        Some(Field::WifiPass)
    } else if text::chars_eq_str(k, "TW_REMOTE_URL") {
        Some(Field::RemoteUrl)
    } else if text::chars_eq_str(k, "TW_GH_USER") {
        Some(Field::GhUser)
    } else if text::chars_eq_str(k, "TW_PAT") {
        Some(Field::Pat)
    } else if text::chars_eq_str(k, "TW_AUTHOR_NAME") {
        Some(Field::AuthorName)
    } else if text::chars_eq_str(k, "TW_AUTHOR_EMAIL") {
        Some(Field::AuthorEmail)
    } else {
        None
    }
}

/// The key and value a config line assigns: `None` for a `#` comment or a
/// line with no `=`; otherwise the trimmed text before the first `=` and
/// everything after it, verbatim. One trailing `\r` is dropped first.
pub open spec fn line_assignment(line: Seq<char>) -> Option<(Seq<char>, Seq<char>)> {
    let l = text::strip_cr(line);
    if text::starts_with(text::trim_start(l), seq!['#']) {
        None
    } else {
        match text::find(l, '=') {
            None => None,
            Some(i) => Some((text::trim(l.take(i as int)), l.skip(i as int + 1))),
        }
    }
}

/// The value the last of `lines` that assigns `key` gives it; empty when no
/// line does.
pub open spec fn assigned(lines: Seq<Seq<char>>, key: Seq<char>) -> Seq<char>
    decreases lines.len(),
{
    if lines.len() == 0 {
        Seq::empty()
    } else {
        match line_assignment(lines.last()) {
            Some(kv) => if kv.0 == key {
                kv.1
            } else {
                assigned(lines.drop_last(), key)
            },
            None => assigned(lines.drop_last(), key),
        }
    }
}

fn line_assignment_exec(line: &[char]) -> (r: Option<(Vec<char>, Vec<char>)>)
    ensures
        r is Some <==> line_assignment(line@) is Some,
        r matches Some((k, v)) ==> line_assignment(line@) == Some((k@, v@)),
{
    let mut l = text::slice_of(line, 0, line.len());
    if l.len() > 0 && l[l.len() - 1] == '\r' {
        l.pop();
    }
    assert(l@ == text::strip_cr(line@));
    let ts = text::trim_start_exec(&l);
    proof {
        text::lemma_starts_with_one(ts@, '#');
    }
    if ts.len() > 0 && ts[0] == '#' {
        return None;
    }
    proof {
        text::lemma_find(l@, '=');
    }
    match text::find_char(&l, '=') {
        None => None,
        Some(i) => {
            assert(i < l.len());
            let k0 = text::slice_of(&l, 0, i);
            let k = text::trim_exec(&k0);
            let v = text::slice_of(&l, i + 1, l.len());
            Some((k, v))
        },
    }
}

/// The config a `typoena.conf` body describes: each field holds what the last
/// line assigning its key gave it, or stays empty.
pub open spec fn parsed_value(body: Seq<char>, f: Field) -> Seq<char> {
    assigned(text::lines_of(body), key_of(f))
}

/// The blank required fields of `c` among `fs`, in order.
pub open spec fn missing_among(c: Conf, fs: Seq<Field>) -> Seq<Field>
    decreases fs.len(),
{
    if fs.len() == 0 {
        Seq::empty()
    } else {
        let rest = missing_among(c, fs.drop_last());
        if is_required(fs.last()) && text::trim(c.value(fs.last())).len() == 0 {
            rest.push(fs.last())
        } else {
            rest
        }
    }
}

fn all_fields_vec() -> (r: Vec<Field>)
    ensures
        r@ == all_fields(),
{
    let r = vec![
        Field::WifiSsid,
        Field::WifiPass,
        Field::RemoteUrl,
        Field::GhUser,
        Field::Pat,
        Field::AuthorName,
        Field::AuthorEmail,
    ];
    assert(r@ == all_fields());
    r
}

impl Conf {
    /// Required fields still blank.
    pub fn missing_required(&self) -> (r: Vec<Field>)
        ensures
            r@ == missing_among(*self, all_fields()),
    {
        let all = all_fields_vec();
        let mut r: Vec<Field> = Vec::new();
        let mut i: usize = 0;
        while i < all.len()
            invariant
                all@ == all_fields(),
                i <= all.len(),
                r@ == missing_among(*self, all@.take(i as int)),
            decreases all.len() - i,
        {
            let f = all[i];
            assert(all@.take(i + 1).drop_last() == all@.take(i as int));
            let v = text::chars_of(self.get(f));
            let t = text::trim_exec(&v);
            if f.required() && t.len() == 0 {
                r.push(f);
            }
            i += 1;
        }
        assert(all@.take(all.len() as int) == all@);
        r
    }

    /// Parse a `typoena.conf` body. Unknown keys and malformed lines are
    /// ignored (forward compatibility), `#` comments and blank lines skipped.
    /// Values are taken verbatim after the first `=`; only a trailing `\r` is
    /// stripped so a CRLF-edited card still parses.
    pub fn parse(body: &str) -> (c: Conf)
        ensures
            forall|f: Field| #[trigger] c.value(f) == parsed_value(body@, f),
    {
        let chars = text::chars_of(body);
        let lines = text::lines_exec(&chars);
        let ghost ls = text::views(lines@);
        let mut c = Conf::new();
        let mut i: usize = 0;
        assert(ls.take(0) == Seq::<Seq<char>>::empty());
        while i < lines.len()
            invariant
                ls == text::views(lines@),
                ls == text::lines_of(body@),
                i <= lines.len(),
                forall|f: Field| #[trigger] c.value(f) == assigned(ls.take(i as int), key_of(f)),
            decreases lines.len() - i,
        {
            let ghost before_c = c;
            assert(ls.take(i + 1).drop_last() == ls.take(i as int));
            assert(ls.take(i + 1).last() == lines@[i as int]@);
            match line_assignment_exec(&lines[i]) {
                Some((k, v)) => {
                    match field_for_key(&k) {
                        Some(f) => {
                            *c.get_mut(f) = text::string_of(&v);
                            assert forall|g: Field| #[trigger] c.value(g) == assigned(
                                ls.take(i + 1),
                                key_of(g),
                            ) by {
                                if g != f {
                                    lemma_keys_distinct(f, g);
                                    assert(c.value(g) == before_c.value(g));
                                }
                            }
                        },
                        None => {},
                    }
                },
                None => {},
            }
            i += 1;
        }
        assert(ls.take(lines.len() as int) == ls);
        c
    }
}

/// `path` with its leading `/`s dropped and a `.git` suffix ensured.
pub open spec fn with_dot_git(path: Seq<char>) -> Seq<char> {
    let p = text::trim_start_char(path, '/');
    if text::ends_with(p, ".git"@) {
        p
    } else {
        p + ".git"@
    }
}

fn dot_git_chars(path: &[char]) -> (r: Vec<char>)
    ensures
        r@ == with_dot_git(path@),
{
    let mut p = text::trim_start_char_exec(path, '/');
    if !text::ends_with_str(&p, ".git") {
        text::extend_str(&mut p, ".git");
    }
    p
}

/// `path` with its leading `/`s dropped and a `.git` suffix added unless it
/// already ends in one.
pub fn ensure_dot_git(path: &str) -> (r: String)
    ensures
        r@ == with_dot_git(path@),
{
    let v = text::chars_of(path);
    text::string_of(&dot_git_chars(&v))
}

/// The canonical HTTPS clone URL a remote-URL shorthand stands for; see
/// [`expand_remote_url`].
pub open spec fn expanded_remote(input: Seq<char>) -> Seq<char> {
    let s = text::trim_end_char(text::trim(input), '/');
    if text::starts_with(s, "https://"@) || text::starts_with(s, "http://"@) {
        s
    } else if !s.contains('/') {
        s
    } else if text::starts_with(s, "git@"@) && text::find(s.skip(4), ':') is Some {
        let rest = s.skip(4);
        "https://"@ + text::before(rest, ':') + seq!['/'] + with_dot_git(text::after(rest, ':'))
    } else if text::starts_with(s, "ssh://"@) && text::find(ssh_rest(s), '/') is Some {
        let rest = ssh_rest(s);
        "https://"@ + text::before(text::before(rest, '/'), ':') + seq!['/'] + with_dot_git(
            text::after(rest, '/'),
        )
    } else if text::before(s, '/').contains('.') {
        "https://"@ + with_dot_git(s)
    } else {
        "https://github.com/"@ + with_dot_git(s)
    }
}

/// What follows `ssh://` and an optional `git@` user.
pub open spec fn ssh_rest(s: Seq<char>) -> Seq<char> {
    let rest = s.skip(6);
    if text::starts_with(rest, "git@"@) {
        rest.skip(4)
    } else {
        rest
    }
}

fn expand_chars(input: &[char]) -> (r: Vec<char>)
    ensures
        r@ == expanded_remote(input@),
{
    proof {
        reveal_strlit("git@");
        reveal_strlit("ssh://");
    }
    let t = text::trim_exec(input);
    let s = text::trim_end_char_exec(&t, '/');
    if text::starts_with_str(&s, "https://") || text::starts_with_str(&s, "http://") {
        return s;
    }
    if !text::contains_char(&s, '/') {
        return s;
    }
    if text::starts_with_str(&s, "git@") {
        let rest = text::slice_of(&s, 4, s.len());
        match text::split_once_exec(&rest, ':') {
            Some((host, path)) => {
                let mut out = text::chars_of("https://");
                text::extend(&mut out, &host);
                out.push('/');
                let p = dot_git_chars(&path);
                text::extend(&mut out, &p);
                assert(out@ == "https://"@ + text::before(s@.skip(4), ':') + seq!['/']
                    + with_dot_git(text::after(s@.skip(4), ':')));
                return out;
            },
            None => {},
        }
    }
    if text::starts_with_str(&s, "ssh://") {
        let rest0 = text::slice_of(&s, 6, s.len());
        let rest = if text::starts_with_str(&rest0, "git@") {
            text::slice_of(&rest0, 4, rest0.len())
        } else {
            rest0
        };
        assert(rest@ == ssh_rest(s@));
        match text::split_once_exec(&rest, '/') {
            Some((host_port, path)) => {
                let host = text::before_exec(&host_port, ':');
                let mut out = text::chars_of("https://");
                text::extend(&mut out, &host);
                out.push('/');
                let p = dot_git_chars(&path);
                text::extend(&mut out, &p);
                return out;
            },
            None => {},
        }
    }
    let first = text::before_exec(&s, '/');
    let p = dot_git_chars(&s);
    let mut out = if text::contains_char(&first, '.') {
        text::chars_of("https://")
    } else {
        text::chars_of("https://github.com/")
    };
    text::extend(&mut out, &p);
    out
}

/// Expand remote-URL shorthand to the canonical HTTPS clone URL. The device's
/// libgit2 speaks HTTPS only, so everything funnels there:
///
/// - `you/notes`             → `https://github.com/you/notes.git`
/// - `you/notes.git`         → `https://github.com/you/notes.git`
/// - `github.com/you/notes`  → `https://github.com/you/notes.git` (any host)
/// - `git@host:you/notes`    → `https://host/you/notes.git`
/// - `ssh://git@host[:port]/you/notes` → `https://host/you/notes.git` (the ssh
///   port is dropped; it isn't the web port)
/// - full `http(s)://…` URLs pass through untouched.
///
/// Inputs with no `/` at all can't be a repo path — returned as typed so the
/// clone fails loudly rather than guessing.
pub fn expand_remote_url(input: &str) -> (r: String)
    ensures
        r@ == expanded_remote(input@),
{
    let v = text::chars_of(input);
    let out = expand_chars(&v);
    text::string_of(&out)
}

/// The four comment lines heading a rendered config, each without its `\n`.
pub open spec fn header_lines() -> Seq<Seq<char>> {
    seq![
        "# Typoena runtime config."@,
        "# Plaintext secrets on removable media: keep the card safe. TW_PAT is a"@,
        "# GitHub-App user token (Sign in with GitHub) or a fine-grained PAT scoped"@,
        "# to contents:write on just the notes repo."@,
    ]
}

/// The value a rendered config writes for `f`: the remote expanded, every
/// other field verbatim.
pub open spec fn rendered_value(c: Conf, f: Field) -> Seq<char> {
    if f == Field::RemoteUrl {
        expanded_remote(c.remote_url@)
    } else {
        c.value(f)
    }
}

/// `KEY=value` for `f`, newline-terminated.
pub open spec fn field_line(c: Conf, f: Field) -> Seq<char> {
    key_of(f) + seq!['='] + rendered_value(c, f) + seq!['\n']
}

/// A rendered config: the header comments, then one line per field in file
/// order.
pub open spec fn rendered(c: Conf) -> Seq<char> {
    header_lines()[0] + seq!['\n'] + header_lines()[1] + seq!['\n'] + header_lines()[2] + seq![
        '\n',
    ] + header_lines()[3] + seq!['\n'] + field_line(c, Field::WifiSsid) + field_line(
        c,
        Field::WifiPass,
    ) + field_line(c, Field::RemoteUrl) + field_line(c, Field::GhUser) + field_line(c, Field::Pat)
        + field_line(c, Field::AuthorName) + field_line(c, Field::AuthorEmail)
}

impl Conf {
    fn push_field_line(&self, out: &mut Vec<char>, f: Field)
        ensures
            final(out)@ == old(out)@ + field_line(*self, f),
    {
        text::extend_str(out, f.conf_key());
        out.push('=');
        match f {
            Field::RemoteUrl => {
                let e = expand_remote_url(self.remote_url.as_str());
                text::extend_str(out, e.as_str());
            },
            _ => text::extend_str(out, self.get(f)),
        }
        out.push('\n');
    }

    /// Render the `typoena.conf` body. The remote is written expanded
    /// (`expand_remote_url`) — the firmware clones/pushes exactly what's
    /// here, and its libgit2 speaks HTTPS only.
    pub fn render(&self) -> (r: String)
        ensures
            r@ == rendered(*self),
    {
        let mut out: Vec<char> = Vec::new();
        text::extend_str(&mut out, "# Typoena runtime config.");
        out.push('\n');
        text::extend_str(
            &mut out,
            "# Plaintext secrets on removable media: keep the card safe. TW_PAT is a",
        );
        out.push('\n');
        text::extend_str(
            &mut out,
            "# GitHub-App user token (Sign in with GitHub) or a fine-grained PAT scoped",
        );
        out.push('\n');
        text::extend_str(&mut out, "# to contents:write on just the notes repo.");
        out.push('\n');
        self.push_field_line(&mut out, Field::WifiSsid);
        self.push_field_line(&mut out, Field::WifiPass);
        self.push_field_line(&mut out, Field::RemoteUrl);
        self.push_field_line(&mut out, Field::GhUser);
        self.push_field_line(&mut out, Field::Pat);
        self.push_field_line(&mut out, Field::AuthorName);
        self.push_field_line(&mut out, Field::AuthorEmail);
        assert(out@ =~= rendered(*self));
        text::string_of(&out)
    }
}

/// The lines of a rendered config, without their `\n`s.
pub open spec fn rendered_lines(c: Conf) -> Seq<Seq<char>> {
    header_lines() + seq![
        field_line_text(c, Field::WifiSsid),
        field_line_text(c, Field::WifiPass),
        field_line_text(c, Field::RemoteUrl),
        field_line_text(c, Field::GhUser),
        field_line_text(c, Field::Pat),
        field_line_text(c, Field::AuthorName),
        field_line_text(c, Field::AuthorEmail),
    ]
}

/// `KEY=value` for `f`, without its `\n`.
pub open spec fn field_line_text(c: Conf, f: Field) -> Seq<char> {
    key_of(f) + seq!['='] + rendered_value(c, f)
}

/// A config whose every value survives being written one per line: no line
/// break inside, no trailing `\r`, and a remote already in expanded form.
pub open spec fn round_trips(c: Conf) -> bool {
    &&& forall|f: Field| #[trigger] text::plain_line(c.value(f))
    &&& expanded_remote(c.remote_url@) == c.remote_url@
}

proof fn lemma_key_shape(f: Field)
    ensures
        key_of(f).len() > 0,
        key_of(f)[0] == 'T',
        !key_of(f).contains('\n'),
        !key_of(f).contains('='),
        !text::is_ws(key_of(f).last()),
{
    reveal_strlit("TW_WIFI_SSID");
    reveal_strlit("TW_WIFI_PASS");
    reveal_strlit("TW_REMOTE_URL");
    reveal_strlit("TW_GH_USER");
    reveal_strlit("TW_PAT");
    reveal_strlit("TW_AUTHOR_NAME");
    reveal_strlit("TW_AUTHOR_EMAIL");
}

proof fn lemma_field_line(c: Conf, f: Field)
    requires
        renders_plain(c),
    ensures
        text::plain_line(field_line_text(c, f)),
        line_assignment(field_line_text(c, f)) == Some((key_of(f), rendered_value(c, f))),
{
    let k = key_of(f);
    let v = rendered_value(c, f);
    let l = field_line_text(c, f);
    lemma_key_shape(f);
    assert(text::plain_line(v));
    assert(l == k + seq!['='] + v);
    assert(l[k.len() as int] == '=');
    if l.contains('\n') {
        let j = choose|j: int| 0 <= j < l.len() && l[j] == '\n';
        if j < k.len() {
            assert(k[j] == l[j]);
        } else if j > k.len() {
            assert(v[j - k.len() - 1] == l[j]);
        }
    }
    if v.len() > 0 {
        assert(l.last() == v.last());
    }
    assert(text::strip_cr(l) == l);
    assert(l[0] == 'T');
    text::lemma_lead(l, text::ws_pred(), 0);
    assert(text::trim_start(l) == l);
    text::lemma_starts_with_one(l, '#');
    assert forall|j: int| 0 <= j < k.len() implies l[j] != '=' by {
        assert(l[j] == k[j]);
    }
    text::lemma_find_unique(l, '=', k.len() as int);
    assert(l.take(k.len() as int) == k);
    assert(l.skip(k.len() as int + 1) == v);
    text::lemma_lead(k, text::ws_pred(), 0);
    assert(text::trim_start(k) == k);
    text::lemma_trail(k, text::ws_pred(), 0);
    assert(text::trim_end(k) == k);
}

proof fn lemma_header_line(i: int)
    requires
        0 <= i < 4,
    ensures
        text::plain_line(header_lines()[i]),
        line_assignment(header_lines()[i]) is None,
{
    reveal_strlit("# Typoena runtime config.");
    reveal_strlit("# Plaintext secrets on removable media: keep the card safe. TW_PAT is a");
    reveal_strlit("# GitHub-App user token (Sign in with GitHub) or a fine-grained PAT scoped");
    reveal_strlit("# to contents:write on just the notes repo.");
    let l = header_lines()[i];
    assert(text::strip_cr(l) == l);
    text::lemma_lead(l, text::ws_pred(), 0);
    assert(text::trim_start(l) == l);
    text::lemma_starts_with_one(l, '#');
}

proof fn lemma_assigned_step(ls: Seq<Seq<char>>, l: Seq<char>, key: Seq<char>)
    ensures
        line_assignment(l) is None ==> assigned(ls.push(l), key) == assigned(ls, key),
        line_assignment(l) matches Some(kv) ==> assigned(ls.push(l), key) == if kv.0 == key {
            kv.1
        } else {
            assigned(ls, key)
        },
{
    assert(ls.push(l).drop_last() == ls);
    assert(ls.push(l).last() == l);
}

proof fn lemma_assigned_fields(c: Conf, f: Field, j: int)
    requires
        0 <= j <= 7,
        renders_plain(c),
        assigned(header_lines(), key_of(f)) == Seq::<char>::empty(),
    ensures
        assigned(rendered_lines(c).take(4 + j), key_of(f)) == if exists|m: int|
            0 <= m < j && all_fields()[m] == f {
            rendered_value(c, f)
        } else {
            Seq::<char>::empty()
        },
    decreases j,
{
    let ls = rendered_lines(c);
    let fs = all_fields();
    if j == 0 {
        assert(ls.take(4) == header_lines());
    } else {
        lemma_assigned_fields(c, f, j - 1);
        let g = fs[j - 1];
        lemma_field_line(c, g);
        let acc = ls.take(4 + j - 1);
        lemma_assigned_step(acc, field_line_text(c, g), key_of(f));
        assert(ls.take(4 + j) == acc.push(field_line_text(c, g)));
        if g != f {
            lemma_keys_distinct(g, f);
            if exists|m: int| 0 <= m < j && fs[m] == f {
                let m = choose|m: int| 0 <= m < j && fs[m] == f;
                assert(m < j - 1);
            }
        } else {
            assert(fs[j - 1] == f);
        }
    }
}

proof fn lemma_header_assigned(key: Seq<char>)
    ensures
        assigned(header_lines(), key) == Seq::<char>::empty(),
{
    lemma_header_line(0);
    lemma_header_line(1);
    lemma_header_line(2);
    lemma_header_line(3);
    let h = header_lines();
    let e = Seq::<Seq<char>>::empty();
    assert(assigned(e, key) == Seq::<char>::empty());
    lemma_assigned_step(e, h[0], key);
    lemma_assigned_step(e.push(h[0]), h[1], key);
    lemma_assigned_step(e.push(h[0]).push(h[1]), h[2], key);
    lemma_assigned_step(e.push(h[0]).push(h[1]).push(h[2]), h[3], key);
    assert(h =~= e.push(h[0]).push(h[1]).push(h[2]).push(h[3]));
}

#[verifier::spinoff_prover]
#[verifier::rlimit(40)]
proof fn lemma_rendered_lines(c: Conf)
    requires
        renders_plain(c),
    ensures
        text::lines_of(rendered(c)) == rendered_lines(c),
{
    let ls = rendered_lines(c);
    assert forall|i: int| 0 <= i < ls.len() implies text::plain_line(#[trigger] ls[i]) by {
        if i < 4 {
            lemma_header_line(i);
        } else {
            lemma_field_line(c, all_fields()[i - 4]);
        }
    }
    text::lemma_lines_of_joined(ls);
    lemma_joined_prefixes(ls, 0);
    lemma_joined_prefixes(ls, 1);
    lemma_joined_prefixes(ls, 2);
    lemma_joined_prefixes(ls, 3);
    lemma_joined_prefixes(ls, 4);
    lemma_joined_prefixes(ls, 5);
    lemma_joined_prefixes(ls, 6);
    lemma_joined_prefixes(ls, 7);
    lemma_joined_prefixes(ls, 8);
    lemma_joined_prefixes(ls, 9);
    lemma_joined_prefixes(ls, 10);
    lemma_joined_prefixes(ls, 11);
    assert(ls.take(11) == ls);
    let r = rendered(c);
    assert(text::joined(ls) =~= r);
}

proof fn lemma_joined_prefixes(ls: Seq<Seq<char>>, k: int)
    requires
        0 <= k <= ls.len(),
    ensures
        text::joined(ls.take(k)) == if k == 0 {
            Seq::<char>::empty()
        } else {
            text::joined(ls.take(k - 1)) + ls[k - 1] + seq!['\n']
        },
{
    if k > 0 {
        text::lemma_joined_push(ls.take(k - 1), ls[k - 1]);
        assert(ls.take(k) == ls.take(k - 1).push(ls[k - 1]));
    } else {
        assert(ls.take(0) == Seq::<Seq<char>>::empty());
    }
}

/// Every value a rendered config writes fits on one line (no `\n`, no
/// trailing `\r` that reading would strip).
pub open spec fn renders_plain(c: Conf) -> bool {
    forall|f: Field| #[trigger] text::plain_line(rendered_value(c, f))
}

/// Reading a rendered config back gives what was written: the remote
/// expanded, every other field verbatim (the header comments assign nothing).
pub proof fn lemma_render_parse(c: Conf)
    requires
        renders_plain(c),
    ensures
        forall|f: Field| #[trigger] parsed_value(rendered(c), f) == rendered_value(c, f),
{
    lemma_rendered_lines(c);
    assert forall|f: Field| #[trigger] parsed_value(rendered(c), f) == rendered_value(c, f) by {
        lemma_header_assigned(key_of(f));
        lemma_assigned_fields(c, f, 7);
        assert(rendered_lines(c).take(11) == rendered_lines(c));
        let fs = all_fields();
        assert(exists|m: int| 0 <= m < 7 && fs[m] == f) by {
            match f {
                Field::WifiSsid => assert(fs[0] == f),
                Field::WifiPass => assert(fs[1] == f),
                Field::RemoteUrl => assert(fs[2] == f),
                Field::GhUser => assert(fs[3] == f),
                Field::Pat => assert(fs[4] == f),
                Field::AuthorName => assert(fs[5] == f),
                Field::AuthorEmail => assert(fs[6] == f),
            }
        }
    }
}


/// What is written for a field reads back as that field, for every config
/// whose values fit on one line and whose remote is already expanded.
pub proof fn lemma_render_parse_round_trip(c: Conf)
    requires
        round_trips(c),
    ensures
        forall|f: Field| #[trigger] parsed_value(rendered(c), f) == c.value(f),
{
    assert forall|f: Field| #[trigger] text::plain_line(rendered_value(c, f)) by {
        assert(text::plain_line(c.value(f)));
    }
    lemma_render_parse(c);
    assert forall|f: Field| #[trigger] parsed_value(rendered(c), f) == c.value(f) by {
        assert(parsed_value(rendered(c), f) == rendered_value(c, f));
    }
}


/// A line that reading skips: a comment, one with no `=`, or one whose key
/// is no field's (as it reads once a trailing `\r` is dropped).
pub open spec fn ignored_line(l: Seq<char>) -> bool {
    match line_assignment(text::strip_cr(l)) {
        None => true,
        Some(kv) => forall|f: Field| #[trigger] key_of(f) != kv.0,
    }
}

proof fn lemma_assigned_cons(x: Seq<char>, ls: Seq<Seq<char>>, key: Seq<char>)
    requires
        line_assignment(x) matches Some(kv) ==> kv.0 != key,
    ensures
        assigned(seq![x] + ls, key) == assigned(ls, key),
    decreases ls.len(),
{
    let xs = seq![x] + ls;
    if ls.len() == 0 {
        assert(xs == seq![x]);
        assert(xs.drop_last() == Seq::<Seq<char>>::empty());
        assert(xs.last() == x);
        assert(assigned(Seq::<Seq<char>>::empty(), key) == Seq::<char>::empty());
    } else {
        lemma_assigned_cons(x, ls.drop_last(), key);
        assert(xs.last() == ls.last());
        assert(xs.drop_last() == seq![x] + ls.drop_last());
        assert(xs.len() > 0);
    }
}

/// A skipped first line changes nothing: comments, blank, malformed and
/// unknown-key lines are ignored, so an older firmware reads a newer file.
pub proof fn lemma_ignored_first_line(l: Seq<char>, body: Seq<char>)
    requires
        !l.contains('\n'),
        ignored_line(l),
    ensures
        forall|f: Field| #[trigger] parsed_value(l + seq!['\n'] + body, f) == parsed_value(body, f),
{
    text::lemma_lines_of_cons(l, body);
    assert forall|f: Field| #[trigger] parsed_value(l + seq!['\n'] + body, f) == parsed_value(
        body,
        f,
    ) by {
        lemma_assigned_cons(text::strip_cr(l), text::lines_of(body), key_of(f));
    }
}

proof fn lemma_lines_of_append(a: Seq<char>, b: Seq<char>)
    requires
        a.len() == 0 || a.last() == '\n',
    ensures
        text::lines_of(a + b) == text::lines_of(a) + text::lines_of(b),
    decreases a.len(),
{
    if a.len() == 0 {
        assert(a + b == b);
        assert(text::lines_of(a) + text::lines_of(b) == text::lines_of(b));
    } else {
        text::lemma_find(a, '\n');
        let i = text::find(a, '\n').unwrap() as int;
        let h = a.take(i);
        let t = a.skip(i + 1);
        assert(!h.contains('\n')) by {
            if h.contains('\n') {
                let j = choose|j: int| 0 <= j < h.len() && h[j] == '\n';
                assert(a[j] == '\n');
            }
        }
        assert(a == h + seq!['\n'] + t);
        assert(a + b == h + seq!['\n'] + (t + b));
        text::lemma_lines_of_cons(h, t);
        text::lemma_lines_of_cons(h, t + b);
        if t.len() > 0 {
            assert(t.last() == a.last());
        }
        lemma_lines_of_append(t, b);
        assert(seq![text::strip_cr(h)] + (text::lines_of(t) + text::lines_of(b)) == (seq![
            text::strip_cr(h),
        ] + text::lines_of(t)) + text::lines_of(b));
    }
}

proof fn lemma_assignment_line(f: Field, v: Seq<char>)
    requires
        text::plain_line(v),
    ensures
        text::plain_line(key_of(f) + seq!['='] + v),
        line_assignment(key_of(f) + seq!['='] + v) == Some((key_of(f), v)),
{
    let k = key_of(f);
    let l = k + seq!['='] + v;
    lemma_key_shape(f);
    assert(l[k.len() as int] == '=');
    if l.contains('\n') {
        let j = choose|j: int| 0 <= j < l.len() && l[j] == '\n';
        if j < k.len() {
            assert(k[j] == l[j]);
        } else if j > k.len() {
            assert(v[j - k.len() - 1] == l[j]);
        }
    }
    if v.len() > 0 {
        assert(l.last() == v.last());
    }
    assert(text::strip_cr(l) == l);
    assert(l[0] == 'T');
    text::lemma_lead(l, text::ws_pred(), 0);
    assert(text::trim_start(l) == l);
    text::lemma_starts_with_one(l, '#');
    assert forall|j: int| 0 <= j < k.len() implies l[j] != '=' by {
        assert(l[j] == k[j]);
    }
    text::lemma_find_unique(l, '=', k.len() as int);
    assert(l.take(k.len() as int) == k);
    assert(l.skip(k.len() as int + 1) == v);
    text::lemma_lead(k, text::ws_pred(), 0);
    assert(text::trim_start(k) == k);
    text::lemma_trail(k, text::ws_pred(), 0);
    assert(text::trim_end(k) == k);
}

/// A `KEY=value` line appended to a body sets that field to the value,
/// verbatim after the first `=` (so `=` and spaces survive), and leaves
/// every other field as the body had it: the last line for a key wins.
pub proof fn lemma_appended_assignment(body: Seq<char>, f: Field, v: Seq<char>)
    requires
        body.len() == 0 || body.last() == '\n',
        text::plain_line(v),
    ensures
        parsed_value(body + key_of(f) + seq!['='] + v + seq!['\n'], f) == v,
        forall|g: Field|
            g != f ==> #[trigger] parsed_value(body + key_of(f) + seq!['='] + v + seq!['\n'], g)
                == parsed_value(body, g),
{
    let line = key_of(f) + seq!['='] + v;
    lemma_assignment_line(f, v);
    let tail = line + seq!['\n'];
    assert(body + key_of(f) + seq!['='] + v + seq!['\n'] == body + tail);
    lemma_lines_of_append(body, tail);
    text::lemma_lines_of_cons(line, Seq::<char>::empty());
    assert(line + seq!['\n'] + Seq::<char>::empty() == tail);
    assert(text::lines_of(Seq::<char>::empty()) == Seq::<Seq<char>>::empty());
    let ls = text::lines_of(body);
    assert(text::lines_of(tail) == seq![line]);
    assert(text::lines_of(body + tail) == ls.push(line));
    lemma_assigned_step(ls, line, key_of(f));
    assert forall|g: Field| g != f implies #[trigger] parsed_value(body + tail, g) == parsed_value(
        body,
        g,
    ) by {
        lemma_keys_distinct(f, g);
        lemma_assigned_step(ls, line, key_of(g));
    }
}


/// No whitespace anywhere in `s`.
pub open spec fn no_ws(s: Seq<char>) -> bool {
    forall|i: int| 0 <= i < s.len() ==> !text::is_ws(#[trigger] s[i])
}

proof fn lemma_trim_id(s: Seq<char>)
    requires
        s.len() == 0 || (!text::is_ws(s[0]) && !text::is_ws(s.last())),
    ensures
        text::trim(s) == s,
{
    assert(text::lead(s, text::ws_pred()) == 0);
    assert(s.skip(0) == s);
    assert(text::trail(s, text::ws_pred()) == 0);
    assert(s.take(s.len() as int) == s);
}

proof fn lemma_no_trailing_slash(s: Seq<char>)
    requires
        s.len() == 0 || s.last() != '/',
    ensures
        text::trim_end_char(s, '/') == s,
{
    assert(text::trail(s, text::eq_pred('/')) == 0);
    assert(s.take(s.len() as int) == s);
}

proof fn lemma_dot_git_last(p: Seq<char>)
    ensures
        with_dot_git(p).len() > 0,
        with_dot_git(p).last() == 't',
{
    reveal_strlit(".git");
    let q = text::trim_start_char(p, '/');
    if text::ends_with(q, ".git"@) {
        assert(q.skip(q.len() - 4) == ".git"@);
        assert(q.last() == q.skip(q.len() - 4)[3]);
    }
}

proof fn lemma_https_prefixed(x: Seq<char>)
    requires
        x.len() > 0,
        x.last() == 't',
    ensures
        expanded_remote("https://"@ + x) == "https://"@ + x,
        text::starts_with("https://"@ + x, "https://"@),
{
    reveal_strlit("https://");
    let e = "https://"@ + x;
    assert(e[0] == 'h');
    assert(e.last() == 't');
    lemma_trim_id(e);
    lemma_no_trailing_slash(e);
    assert(e.take(8) == "https://"@);
}

/// Every remote that names a path (a `/` once the trailing ones are
/// dropped) ends up an HTTP(S) URL: the device's libgit2 speaks HTTPS only.
pub proof fn lemma_slashed_remote_is_http(input: Seq<char>)
    requires
        text::trim_end_char(text::trim(input), '/').contains('/'),
    ensures
        text::starts_with(expanded_remote(input), "https://"@) || text::starts_with(
            expanded_remote(input),
            "http://"@,
        ),
{
    reveal_strlit("https://");
    reveal_strlit("https://github.com/");
    let s = text::trim_end_char(text::trim(input), '/');
    if !(text::starts_with(s, "https://"@) || text::starts_with(s, "http://"@)) {
        let e = expanded_remote(input);
        assert(e.take(8) == "https://"@);
    }
}

/// Expanding an expanded remote changes nothing (for a remote typed
/// without whitespace).
pub proof fn lemma_expand_idempotent(input: Seq<char>)
    requires
        no_ws(input),
    ensures
        expanded_remote(expanded_remote(input)) == expanded_remote(input),
{
    reveal_strlit("https://");
    reveal_strlit("https://github.com/");
    let s0 = text::trim(input);
    if input.len() > 0 {
        assert(!text::is_ws(input[0]));
        assert(!text::is_ws(input[input.len() - 1]));
    }
    lemma_trim_id(input);
    let s = text::trim_end_char(s0, '/');
    text::lemma_trail_bounds(input, text::eq_pred('/'));
    assert(s == input.take(input.len() - text::trail(input, text::eq_pred('/'))));
    let e = expanded_remote(input);
    if e == s {
        if s.len() > 0 {
            assert(s[0] == input[0]);
            assert(s.last() == input[s.len() - 1]);
            assert(!text::is_ws(s.last()));
            assert(s.last() != '/');
        }
        lemma_trim_id(s);
        lemma_no_trailing_slash(s);
    } else if text::starts_with(s, "git@"@) && text::find(s.skip(4), ':') is Some {
        let rest = s.skip(4);
        let x = text::before(rest, ':') + seq!['/'] + with_dot_git(text::after(rest, ':'));
        lemma_dot_git_last(text::after(rest, ':'));
        assert(e == "https://"@ + x);
        lemma_https_prefixed(x);
    } else if text::starts_with(s, "ssh://"@) && text::find(ssh_rest(s), '/') is Some {
        let rest = ssh_rest(s);
        let x = text::before(text::before(rest, '/'), ':') + seq!['/'] + with_dot_git(
            text::after(rest, '/'),
        );
        lemma_dot_git_last(text::after(rest, '/'));
        assert(e == "https://"@ + x);
        lemma_https_prefixed(x);
    } else if text::before(s, '/').contains('.') {
        lemma_dot_git_last(s);
        lemma_https_prefixed(with_dot_git(s));
    } else {
        let x = "github.com/"@ + with_dot_git(s);
        reveal_strlit("github.com/");
        assert("https://github.com/"@ == "https://"@ + "github.com/"@);
        lemma_dot_git_last(s);
        assert(x.last() == 't');
        assert(e == "https://"@ + x);
        lemma_https_prefixed(x);
    }
}

} // verus!
