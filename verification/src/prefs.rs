//! `.typoena.toml` preferences: parsing, serialisation, and option cycling.

use vstd::prelude::*;
use crate::text;

verus! {

broadcast use vstd::string::group_string_axioms;

/// The git-tracked preferences file, read at boot and rewritten when a palette
/// `>` command changes a pref.
pub const PREFS_PATH: &'static str = "/sd/repo/.typoena.toml";

/// Editor preferences, mirroring the git-tracked [`PREFS_PATH`] TOML. Every key
/// falls back to its default, so a missing, empty, or partial file still
/// yields a full, usable `Prefs`.
#[derive(Debug, Clone, PartialEq, Eq)]
pub struct Prefs {
    /// Auto-save the active buffer on the idle typing-pause.
    pub save_on_idle: bool,
    /// Run `:fmt` on the buffer before an explicit `:w`/`:gp` persist.
    pub format_on_save: bool,
    /// Show the absolute line-number gutter.
    pub line_numbers: bool,
    /// Boot into the file that was active when the device powered off.
    pub open_last_on_boot: bool,
    /// Panel colour polarity: `"light"` or `"dark"`.
    pub theme: String,
    /// Max-staleness cap for opportunistic auto-push, as a duration string.
    pub auto_sync: String,
    /// Rows of context kept above and below the caret (vim's `scrolloff`).
    pub scroll_margin: usize,
    /// Experimental fast partial-refresh waveform; off by default.
    pub fast_partial: bool,
    /// The device timezone, as a POSIX TZ string; empty leaves the clock at UTC.
    pub timezone: String,
}

impl Default for Prefs {
    fn default() -> (p: Prefs)
        ensures
            p.save_on_idle,
            p.format_on_save,
            p.line_numbers,
            p.open_last_on_boot,
            p.theme@ == "light"@,
            p.auto_sync@ == "10m"@,
            p.scroll_margin == 2,
            !p.fast_partial,
            p.timezone@ == Seq::<char>::empty(),
    {
        Prefs {
            save_on_idle: true,
            format_on_save: true,
            line_numbers: true,
            open_last_on_boot: true,
            theme: text::string_of(&text::chars_of("light")),
            auto_sync: text::string_of(&text::chars_of("10m")),
            scroll_margin: 2,
            fast_partial: false,
            timezone: String::new(),
        }
    }
}

/// A TOML boolean literal.
pub open spec fn bool_literal(v: Seq<char>) -> Option<bool> {
    if v == "true"@ {
        Some(true)
    } else if v == "false"@ {
        Some(false)
    } else {
        None
    }
}

/// The `key = value` pair a prefs line holds: the text before any `#`,
/// trimmed, split at its first `=`, both sides trimmed.
pub open spec fn pref_pair(line: Seq<char>) -> Option<(Seq<char>, Seq<char>)> {
    let l = text::trim(text::before(line, '#'));
    match text::find(l, '=') {
        Some(i) => Some((text::trim(l.take(i as int)), text::trim(l.skip(i as int + 1)))),
        None => None,
    }
}

/// How a key's value is read.
pub enum PrefKind {
    Bool,
    Text,
    Count,
}

/// Whether `v` is a value a key of `kind` takes (an unparseable value leaves
/// the key as it was).
pub open spec fn accepts(kind: PrefKind, v: Seq<char>) -> bool {
    match kind {
        PrefKind::Bool => bool_literal(v) is Some,
        PrefKind::Text => true,
        PrefKind::Count => text::parse_usize(v) is Some,
    }
}

/// The value of the last line of `lines` that sets `key` to something `kind`
/// accepts.
pub open spec fn last_set(lines: Seq<Seq<char>>, key: Seq<char>, kind: PrefKind) -> Option<
    Seq<char>,
>
    decreases lines.len(),
{
    if lines.len() == 0 {
        None
    } else {
        match pref_pair(lines.last()) {
            Some(kv) => if kv.0 == key && accepts(kind, kv.1) {
                Some(kv.1)
            } else {
                last_set(lines.drop_last(), key, kind)
            },
            None => last_set(lines.drop_last(), key, kind),
        }
    }
}

/// A string pref's stored form: its value with surrounding `"`s removed.
pub open spec fn unquote(v: Seq<char>) -> Seq<char> {
    text::trim_end_char(text::trim_start_char(v, '"'), '"')
}

/// The boolean pref `key` of a prefs file, `default` when unset.
pub open spec fn bool_pref(src: Seq<char>, key: Seq<char>, default: bool) -> bool {
    match last_set(text::lines_of(src), key, PrefKind::Bool) {
        Some(v) => v == "true"@,
        None => default,
    }
}

/// The string pref `key` of a prefs file, `default` when unset.
pub open spec fn text_pref(src: Seq<char>, key: Seq<char>, default: Seq<char>) -> Seq<char> {
    match last_set(text::lines_of(src), key, PrefKind::Text) {
        Some(v) => unquote(v),
        None => default,
    }
}

/// The count pref `key` of a prefs file, `default` when unset.
pub open spec fn count_pref(src: Seq<char>, key: Seq<char>, default: nat) -> nat {
    match last_set(text::lines_of(src), key, PrefKind::Count) {
        Some(v) => text::parse_usize(v).unwrap(),
        None => default,
    }
}

/// The prefs a file describes, key by key.
pub open spec fn parsed_from(p: Prefs, src: Seq<char>) -> bool {
    &&& p.save_on_idle == bool_pref(src, "save_on_idle"@, true)
    &&& p.format_on_save == bool_pref(src, "format_on_save"@, true)
    &&& p.line_numbers == bool_pref(src, "line_numbers"@, true)
    &&& p.open_last_on_boot == bool_pref(src, "open_last_on_boot"@, true)
    &&& p.theme@ == text_pref(src, "theme"@, "light"@)
    &&& p.auto_sync@ == text_pref(src, "auto_sync"@, "10m"@)
    &&& p.scroll_margin == count_pref(src, "scroll_margin"@, 2)
    &&& p.fast_partial == bool_pref(src, "fast_partial"@, false)
    &&& p.timezone@ == text_pref(src, "timezone"@, Seq::empty())
}

/// Parse a TOML boolean literal, or `None` for anything else (so a typo leaves
/// the key at its default rather than silently reading as `false`).
pub fn parse_bool(v: &str) -> (r: Option<bool>)
    ensures
        r == bool_literal(v@),
{
    let c = text::chars_of(v);
    if text::chars_eq_str(&c, "true") {
        Some(true)
    } else if text::chars_eq_str(&c, "false") {
        Some(false)
    } else {
        None
    }
}

fn pref_pair_exec(line: &[char]) -> (r: Option<(Vec<char>, Vec<char>)>)
    ensures
        r is Some <==> pref_pair(line@) is Some,
        r matches Some((k, v)) ==> pref_pair(line@) == Some((k@, v@)),
{
    let b = text::before_exec(line, '#');
    let l = text::trim_exec(&b);
    match text::split_once_exec(&l, '=') {
        Some((k, v)) => {
            proof {
                text::lemma_find(l@, '=');
            }
            let k = text::trim_exec(&k);
            let v = text::trim_exec(&v);
            Some((k, v))
        },
        None => None,
    }
}

proof fn lemma_last_set_step(
    ls: Seq<Seq<char>>,
    l: Seq<char>,
    key: Seq<char>,
    kind: PrefKind,
)
    ensures
        last_set(ls.push(l), key, kind) == match pref_pair(l) {
            Some(kv) => if kv.0 == key && accepts(kind, kv.1) {
                Some(kv.1)
            } else {
                last_set(ls, key, kind)
            },
            None => last_set(ls, key, kind),
        },
{
    assert(ls.push(l).drop_last() == ls);
    assert(ls.push(l).last() == l);
}

/// The nine keys differ pairwise.
proof fn lemma_pref_keys_distinct()
    ensures
        "save_on_idle"@ != "format_on_save"@,
        "save_on_idle"@ != "line_numbers"@,
        "save_on_idle"@ != "open_last_on_boot"@,
        "save_on_idle"@ != "theme"@,
        "save_on_idle"@ != "auto_sync"@,
        "save_on_idle"@ != "scroll_margin"@,
        "save_on_idle"@ != "fast_partial"@,
        "save_on_idle"@ != "timezone"@,
        "format_on_save"@ != "line_numbers"@,
        "format_on_save"@ != "open_last_on_boot"@,
        "format_on_save"@ != "theme"@,
        "format_on_save"@ != "auto_sync"@,
        "format_on_save"@ != "scroll_margin"@,
        "format_on_save"@ != "fast_partial"@,
        "format_on_save"@ != "timezone"@,
        "line_numbers"@ != "open_last_on_boot"@,
        "line_numbers"@ != "theme"@,
        "line_numbers"@ != "auto_sync"@,
        "line_numbers"@ != "scroll_margin"@,
        "line_numbers"@ != "fast_partial"@,
        "line_numbers"@ != "timezone"@,
        "open_last_on_boot"@ != "theme"@,
        "open_last_on_boot"@ != "auto_sync"@,
        "open_last_on_boot"@ != "scroll_margin"@,
        "open_last_on_boot"@ != "fast_partial"@,
        "open_last_on_boot"@ != "timezone"@,
        "theme"@ != "auto_sync"@,
        "theme"@ != "scroll_margin"@,
        "theme"@ != "fast_partial"@,
        "theme"@ != "timezone"@,
        "auto_sync"@ != "scroll_margin"@,
        "auto_sync"@ != "fast_partial"@,
        "auto_sync"@ != "timezone"@,
        "scroll_margin"@ != "fast_partial"@,
        "scroll_margin"@ != "timezone"@,
        "fast_partial"@ != "timezone"@,
{
    reveal_strlit("save_on_idle");
    reveal_strlit("format_on_save");
    reveal_strlit("line_numbers");
    reveal_strlit("open_last_on_boot");
    reveal_strlit("theme");
    reveal_strlit("auto_sync");
    reveal_strlit("scroll_margin");
    reveal_strlit("fast_partial");
    reveal_strlit("timezone");
    assert("save_on_idle"@.len() != "format_on_save"@.len());
    assert("save_on_idle"@[0] != "line_numbers"@[0]);
    assert("save_on_idle"@.len() != "open_last_on_boot"@.len());
    assert("save_on_idle"@.len() != "theme"@.len());
    assert("save_on_idle"@.len() != "auto_sync"@.len());
    assert("save_on_idle"@.len() != "scroll_margin"@.len());
    assert("save_on_idle"@[0] != "fast_partial"@[0]);
    assert("save_on_idle"@.len() != "timezone"@.len());
    assert("format_on_save"@.len() != "line_numbers"@.len());
    assert("format_on_save"@.len() != "open_last_on_boot"@.len());
    assert("format_on_save"@.len() != "theme"@.len());
    assert("format_on_save"@.len() != "auto_sync"@.len());
    assert("format_on_save"@.len() != "scroll_margin"@.len());
    assert("format_on_save"@.len() != "fast_partial"@.len());
    assert("format_on_save"@.len() != "timezone"@.len());
    assert("line_numbers"@.len() != "open_last_on_boot"@.len());
    assert("line_numbers"@.len() != "theme"@.len());
    assert("line_numbers"@.len() != "auto_sync"@.len());
    assert("line_numbers"@.len() != "scroll_margin"@.len());
    assert("line_numbers"@[0] != "fast_partial"@[0]);
    assert("line_numbers"@.len() != "timezone"@.len());
    assert("open_last_on_boot"@.len() != "theme"@.len());
    assert("open_last_on_boot"@.len() != "auto_sync"@.len());
    assert("open_last_on_boot"@.len() != "scroll_margin"@.len());
    assert("open_last_on_boot"@.len() != "fast_partial"@.len());
    assert("open_last_on_boot"@.len() != "timezone"@.len());
    assert("theme"@.len() != "auto_sync"@.len());
    assert("theme"@.len() != "scroll_margin"@.len());
    assert("theme"@.len() != "fast_partial"@.len());
    assert("theme"@.len() != "timezone"@.len());
    assert("auto_sync"@.len() != "scroll_margin"@.len());
    assert("auto_sync"@.len() != "fast_partial"@.len());
    assert("auto_sync"@.len() != "timezone"@.len());
    assert("scroll_margin"@.len() != "fast_partial"@.len());
    assert("scroll_margin"@.len() != "timezone"@.len());
    assert("fast_partial"@.len() != "timezone"@.len());
}

/// Every pref of `p` as `lines` leave it, starting from the defaults.
spec fn tracks(p: Prefs, ls: Seq<Seq<char>>) -> bool {
    &&& p.save_on_idle == match last_set(ls, "save_on_idle"@, PrefKind::Bool) {
        Some(v) => v == "true"@,
        None => true,
    }
    &&& p.format_on_save == match last_set(ls, "format_on_save"@, PrefKind::Bool) {
        Some(v) => v == "true"@,
        None => true,
    }
    &&& p.line_numbers == match last_set(ls, "line_numbers"@, PrefKind::Bool) {
        Some(v) => v == "true"@,
        None => true,
    }
    &&& p.open_last_on_boot == match last_set(ls, "open_last_on_boot"@, PrefKind::Bool) {
        Some(v) => v == "true"@,
        None => true,
    }
    &&& p.theme@ == match last_set(ls, "theme"@, PrefKind::Text) {
        Some(v) => unquote(v),
        None => "light"@,
    }
    &&& p.auto_sync@ == match last_set(ls, "auto_sync"@, PrefKind::Text) {
        Some(v) => unquote(v),
        None => "10m"@,
    }
    &&& p.scroll_margin == match last_set(ls, "scroll_margin"@, PrefKind::Count) {
        Some(v) => text::parse_usize(v).unwrap(),
        None => 2,
    }
    &&& p.fast_partial == match last_set(ls, "fast_partial"@, PrefKind::Bool) {
        Some(v) => v == "true"@,
        None => false,
    }
    &&& p.timezone@ == match last_set(ls, "timezone"@, PrefKind::Text) {
        Some(v) => unquote(v),
        None => Seq::<char>::empty(),
    }
}

fn unquote_exec(v: &[char]) -> (r: String)
    ensures
        r@ == unquote(v@),
{
    let a = text::trim_start_char_exec(v, '"');
    let b = text::trim_end_char_exec(&a, '"');
    text::string_of(&b)
}

proof fn lemma_step_all(ls: Seq<Seq<char>>, l: Seq<char>)
    ensures
        forall|key: Seq<char>, kind: PrefKind|
            #![trigger last_set(ls.push(l), key, kind)]
            last_set(ls.push(l), key, kind) == match pref_pair(l) {
                Some(kv) => if kv.0 == key && accepts(kind, kv.1) {
                    Some(kv.1)
                } else {
                    last_set(ls, key, kind)
                },
                None => last_set(ls, key, kind),
            },
{
    assert forall|key: Seq<char>, kind: PrefKind|
        #![trigger last_set(ls.push(l), key, kind)]
        last_set(ls.push(l), key, kind) == match pref_pair(l) {
            Some(kv) => if kv.0 == key && accepts(kind, kv.1) {
                Some(kv.1)
            } else {
                last_set(ls, key, kind)
            },
            None => last_set(ls, key, kind),
        } by {
        lemma_last_set_step(ls, l, key, kind);
    }
}

impl Prefs {
    /// Parse a [`PREFS_PATH`] file, falling back to the default for any
    /// missing or unrecognized key. Flat `key = value` pairs (bool, count, or
    /// quoted string) with `#` comments; an unparseable value leaves its key
    /// at the default.
    pub fn parse(src: &str) -> (p: Prefs)
        ensures
            parsed_from(p, src@),
    {
        let chars = text::chars_of(src);
        let lines = text::lines_exec(&chars);
        let ghost ls = text::views(lines@);
        let mut p = Prefs::default();
        let mut i: usize = 0;
        proof {
            lemma_pref_keys_distinct();
        }
        assert(ls.take(0) == Seq::<Seq<char>>::empty());
        while i < lines.len()
            invariant
                ls == text::views(lines@),
                ls == text::lines_of(src@),
                i <= lines.len(),
                tracks(p, ls.take(i as int)),
            decreases lines.len() - i,
        {
            proof {
                lemma_pref_keys_distinct();
                assert(ls.take(i + 1) == ls.take(i as int).push(lines@[i as int]@));
                lemma_step_all(ls.take(i as int), lines@[i as int]@);
                reveal_strlit("true");
                reveal_strlit("false");
            }
            match pref_pair_exec(&lines[i]) {
                Some((k, v)) => {
                    if text::chars_eq_str(&k, "save_on_idle") {
                        let b = parse_bool(text::string_of(&v).as_str());
                        if let Some(b) = b {
                            p.save_on_idle = b;
                        }
                    } else if text::chars_eq_str(&k, "format_on_save") {
                        let b = parse_bool(text::string_of(&v).as_str());
                        if let Some(b) = b {
                            p.format_on_save = b;
                        }
                    } else if text::chars_eq_str(&k, "line_numbers") {
                        let b = parse_bool(text::string_of(&v).as_str());
                        if let Some(b) = b {
                            p.line_numbers = b;
                        }
                    } else if text::chars_eq_str(&k, "open_last_on_boot") {
                        let b = parse_bool(text::string_of(&v).as_str());
                        if let Some(b) = b {
                            p.open_last_on_boot = b;
                        }
                    } else if text::chars_eq_str(&k, "theme") {
                        p.theme = unquote_exec(&v);
                    } else if text::chars_eq_str(&k, "auto_sync") {
                        p.auto_sync = unquote_exec(&v);
                    } else if text::chars_eq_str(&k, "scroll_margin") {
                        if let Some(n) = text::parse_usize_exec(&v) {
                            p.scroll_margin = n;
                        }
                    } else if text::chars_eq_str(&k, "fast_partial") {
                        let b = parse_bool(text::string_of(&v).as_str());
                        if let Some(b) = b {
                            p.fast_partial = b;
                        }
                    } else if text::chars_eq_str(&k, "timezone") {
                        p.timezone = unquote_exec(&v);
                    }
                },
                None => {},
            }
            i += 1;
        }
        assert(ls.take(lines.len() as int) == ls);
        p
    }
}

/// `true` / `false`, as `{}` formats a `bool`.
pub open spec fn bool_text(b: bool) -> Seq<char> {
    if b {
        "true"@
    } else {
        "false"@
    }
}

/// `key = value`.
pub open spec fn plain_entry(key: Seq<char>, value: Seq<char>) -> Seq<char> {
    key + " = "@ + value
}

/// `key = "value"`.
pub open spec fn quoted_entry(key: Seq<char>, value: Seq<char>) -> Seq<char> {
    key + " = \""@ + value + seq!['"']
}

/// The lines of a serialized prefs file, without their `\n`s.
pub open spec fn toml_lines(p: Prefs) -> Seq<Seq<char>> {
    seq![
        "# Typoena editor preferences \u{2014} hand-editable, git-tracked."@,
        "# Edit here, or change live from the command palette (Cmd-Shift-P)."@,
        plain_entry("save_on_idle"@, bool_text(p.save_on_idle)),
        plain_entry("format_on_save"@, bool_text(p.format_on_save)),
        plain_entry("line_numbers"@, bool_text(p.line_numbers)),
        plain_entry("open_last_on_boot"@, bool_text(p.open_last_on_boot)),
        quoted_entry("theme"@, p.theme@),
        quoted_entry("auto_sync"@, p.auto_sync@),
        plain_entry("scroll_margin"@, text::dec(p.scroll_margin as nat)),
        "# Experimental fast partial-refresh waveform \u{2014} leave false unless"@,
        "# validating the custom LUT on a bench device (see Prefs::fast_partial)."@,
        plain_entry("fast_partial"@, bool_text(p.fast_partial)),
        "# POSIX TZ (e.g. CET-1CEST,M3.5.0,M10.5.0/3); empty = UTC."@,
        quoted_entry("timezone"@, p.timezone@),
    ]
}

fn push_line(out: &mut Vec<char>, line: &[char], Ghost(ls): Ghost<Seq<Seq<char>>>)
    requires
        old(out)@ == text::joined(ls),
    ensures
        final(out)@ == text::joined(ls.push(line@)),
{
    text::extend(out, line);
    out.push('\n');
    proof {
        text::lemma_joined_push(ls, line@);
    }
}

fn bool_chars(b: bool) -> (r: Vec<char>)
    ensures
        r@ == bool_text(b),
{
    if b {
        text::chars_of("true")
    } else {
        text::chars_of("false")
    }
}

fn plain_entry_exec(key: &str, value: &[char]) -> (r: Vec<char>)
    ensures
        r@ == plain_entry(key@, value@),
{
    let mut r = text::chars_of(key);
    text::extend_str(&mut r, " = ");
    text::extend(&mut r, value);
    r
}

fn quoted_entry_exec(key: &str, value: &str) -> (r: Vec<char>)
    ensures
        r@ == quoted_entry(key@, value@),
{
    let mut r = text::chars_of(key);
    text::extend_str(&mut r, " = \"");
    text::extend_str(&mut r, value);
    r.push('"');
    r
}

impl Prefs {
    /// Serialize back to the [`PREFS_PATH`] form, with a header comment
    /// pointing at both edit paths. Ends in a newline like a normal text file.
    pub fn to_toml(&self) -> (r: String)
        ensures
            r@ == text::joined(toml_lines(*self)),
    {
        let ghost ls = toml_lines(*self);
        let mut out: Vec<char> = Vec::new();
        assert(ls.take(0) =~= Seq::<Seq<char>>::empty());
        let l0 = text::chars_of("# Typoena editor preferences \u{2014} hand-editable, git-tracked.");
        push_line(&mut out, &l0, Ghost(ls.take(0)));
        assert(ls.take(0).push(l0@) =~= ls.take(1));
        let l1 = text::chars_of("# Edit here, or change live from the command palette (Cmd-Shift-P).");
        push_line(&mut out, &l1, Ghost(ls.take(1)));
        assert(ls.take(1).push(l1@) =~= ls.take(2));
        let l2 = plain_entry_exec("save_on_idle", &bool_chars(self.save_on_idle));
        push_line(&mut out, &l2, Ghost(ls.take(2)));
        assert(ls.take(2).push(l2@) =~= ls.take(3));
        let l3 = plain_entry_exec("format_on_save", &bool_chars(self.format_on_save));
        push_line(&mut out, &l3, Ghost(ls.take(3)));
        assert(ls.take(3).push(l3@) =~= ls.take(4));
        let l4 = plain_entry_exec("line_numbers", &bool_chars(self.line_numbers));
        push_line(&mut out, &l4, Ghost(ls.take(4)));
        assert(ls.take(4).push(l4@) =~= ls.take(5));
        let l5 = plain_entry_exec("open_last_on_boot", &bool_chars(self.open_last_on_boot));
        push_line(&mut out, &l5, Ghost(ls.take(5)));
        assert(ls.take(5).push(l5@) =~= ls.take(6));
        let l6 = quoted_entry_exec("theme", self.theme.as_str());
        push_line(&mut out, &l6, Ghost(ls.take(6)));
        assert(ls.take(6).push(l6@) =~= ls.take(7));
        let l7 = quoted_entry_exec("auto_sync", self.auto_sync.as_str());
        push_line(&mut out, &l7, Ghost(ls.take(7)));
        assert(ls.take(7).push(l7@) =~= ls.take(8));
        let mut n: Vec<char> = Vec::new();
        text::push_dec(&mut n, self.scroll_margin);
        assert(n@ == text::dec(self.scroll_margin as nat));
        let l8 = plain_entry_exec("scroll_margin", &n);
        push_line(&mut out, &l8, Ghost(ls.take(8)));
        assert(ls.take(8).push(l8@) =~= ls.take(9));
        let l9 = text::chars_of(
            "# Experimental fast partial-refresh waveform \u{2014} leave false unless",
        );
        push_line(&mut out, &l9, Ghost(ls.take(9)));
        assert(ls.take(9).push(l9@) =~= ls.take(10));
        let l10 = text::chars_of(
            "# validating the custom LUT on a bench device (see Prefs::fast_partial).",
        );
        push_line(&mut out, &l10, Ghost(ls.take(10)));
        assert(ls.take(10).push(l10@) =~= ls.take(11));
        let l11 = plain_entry_exec("fast_partial", &bool_chars(self.fast_partial));
        push_line(&mut out, &l11, Ghost(ls.take(11)));
        assert(ls.take(11).push(l11@) =~= ls.take(12));
        let l12 = text::chars_of("# POSIX TZ (e.g. CET-1CEST,M3.5.0,M10.5.0/3); empty = UTC.");
        push_line(&mut out, &l12, Ghost(ls.take(12)));
        assert(ls.take(12).push(l12@) =~= ls.take(13));
        let l13 = quoted_entry_exec("timezone", self.timezone.as_str());
        push_line(&mut out, &l13, Ghost(ls.take(13)));
        assert(ls.take(13).push(l13@) =~= ls);
        text::string_of(&out)
    }
}

/// A string pref that survives being written quoted on one line: no line
/// break or `#` inside, and no `"` at either end.
pub open spec fn quotable(v: Seq<char>) -> bool {
    &&& !v.contains('\n')
    &&& !v.contains('#')
    &&& !(v.len() > 0 && v[0] == '"')
    &&& !(v.len() > 0 && v.last() == '"')
}

/// A key as the serializer writes it: non-empty, no `#`, `=` or line break,
/// and no whitespace at either end.
spec fn plain_key(k: Seq<char>) -> bool {
    &&& k.len() > 0
    &&& !k.contains('#')
    &&& !k.contains('=')
    &&& !k.contains('\n')
    &&& !text::is_ws(k[0])
    &&& !text::is_ws(k.last())
}

/// A value as an entry holds it: non-empty, no `#` or line break, and no
/// whitespace at either end.
spec fn plain_value(v: Seq<char>) -> bool {
    &&& v.len() > 0
    &&& !v.contains('#')
    &&& !v.contains('\n')
    &&& !text::is_ws(v[0])
    &&& !text::is_ws(v.last())
}

proof fn lemma_entry_pair(k: Seq<char>, v: Seq<char>)
    requires
        plain_key(k),
        plain_value(v),
    ensures
        pref_pair(plain_entry(k, v)) == Some((k, v)),
        text::plain_line(plain_entry(k, v)),
{
    reveal_strlit(" = ");
    let l = plain_entry(k, v);
    let n = k.len() as int;
    assert(l == k + seq![' ', '=', ' '] + v);
    assert(l[n] == ' ' && l[n + 1] == '=' && l[n + 2] == ' ');
    assert forall|j: int| 0 <= j < l.len() implies l[j] != '#' && l[j] != '\n' by {
        if j < n {
            assert(l[j] == k[j]);
        } else if j >= n + 3 {
            assert(l[j] == v[j - n - 3]);
        }
    }
    text::lemma_find_none(l, '#');
    assert(text::before(l, '#') == l);
    text::lemma_lead(l, text::ws_pred(), 0);
    assert(l.skip(0) == l);
    assert(l.last() == v.last());
    text::lemma_trail(l, text::ws_pred(), 0);
    assert(l.take(l.len() as int) == l);
    assert(text::trim(l) == l);
    assert forall|j: int| 0 <= j < n + 1 implies l[j] != '=' by {
        if j < n {
            assert(l[j] == k[j]);
        }
    }
    text::lemma_find_unique(l, '=', n + 1);
    let a = l.take(n + 1);
    assert(a == k.push(' '));
    text::lemma_lead(a, text::ws_pred(), 0);
    assert(a.skip(0) == a);
    assert(a[n - 1] == k.last());
    text::lemma_trail(a, text::ws_pred(), 1);
    assert(a.take(n) == k);
    let b = l.skip(n + 2);
    assert(b == seq![' '] + v);
    text::lemma_lead(b, text::ws_pred(), 1);
    assert(b.skip(1) == v);
    text::lemma_trail(v, text::ws_pred(), 0);
    assert(v.take(v.len() as int) == v);
    if l.contains('\n') {
        let j = choose|j: int| 0 <= j < l.len() && l[j] == '\n';
        assert(l[j] != '\n');
    }
}

proof fn lemma_comment_pair(l: Seq<char>)
    requires
        l.len() > 0,
        l[0] == '#',
    ensures
        pref_pair(l) is None,
{
    text::lemma_find_unique(l, '#', 0);
    assert(text::before(l, '#') == Seq::<char>::empty());
    text::lemma_lead(Seq::<char>::empty(), text::ws_pred(), 0);
    text::lemma_trail(Seq::<char>::empty(), text::ws_pred(), 0);
    text::lemma_find_none(text::trim(Seq::<char>::empty()), '=');
}

proof fn lemma_unquote(x: Seq<char>)
    requires
        quotable(x),
    ensures
        unquote(seq!['"'] + x + seq!['"']) == x,
{
    let q = seq!['"'] + x + seq!['"'];
    if x.len() == 0 {
        text::lemma_lead(q, text::eq_pred('"'), 2);
        let a = q.skip(2);
        assert(a == Seq::<char>::empty());
        text::lemma_trail(a, text::eq_pred('"'), 0);
        assert(a.take(0) == x);
    } else {
        assert(q[1] == x[0]);
        text::lemma_lead(q, text::eq_pred('"'), 1);
        let a = q.skip(1);
        assert(a == x + seq!['"']);
        assert(a[a.len() - 2] == x.last());
        text::lemma_trail(a, text::eq_pred('"'), 1);
        assert(a.take(a.len() - 1) == x);
    }
}

proof fn lemma_last_set_unique(
    ls: Seq<Seq<char>>,
    key: Seq<char>,
    kind: PrefKind,
    j: int,
    v: Seq<char>,
)
    requires
        0 <= j < ls.len(),
        pref_pair(ls[j]) == Some((key, v)),
        accepts(kind, v),
        forall|i: int|
            0 <= i < ls.len() && i != j ==> (#[trigger] pref_pair(ls[i]) is None
                || pref_pair(ls[i]).unwrap().0 != key),
    ensures
        last_set(ls, key, kind) == Some(v),
    decreases ls.len(),
{
    let t = ls.drop_last();
    if j < ls.len() - 1 {
        assert forall|i: int| 0 <= i < t.len() && i != j implies (#[trigger] pref_pair(t[i]) is None
            || pref_pair(t[i]).unwrap().0 != key) by {
            assert(t[i] == ls[i]);
        }
        assert(t[j] == ls[j]);
        lemma_last_set_unique(t, key, kind, j, v);
        assert(pref_pair(ls[ls.len() - 1]) is None || pref_pair(ls.last()).unwrap().0 != key);
    }
}

proof fn lemma_bool_text(b: bool)
    ensures
        plain_value(bool_text(b)),
        bool_literal(bool_text(b)) == Some(b),
        (bool_text(b) == "true"@) == b,
{
    reveal_strlit("true");
    reveal_strlit("false");
}

proof fn lemma_quoted_value(x: Seq<char>)
    requires
        quotable(x),
    ensures
        plain_value(seq!['"'] + x + seq!['"']),
{
    let q = seq!['"'] + x + seq!['"'];
    assert forall|j: int| 0 <= j < q.len() implies q[j] != '#' && q[j] != '\n' by {
        if 0 < j < q.len() - 1 {
            assert(q[j] == x[j - 1]);
        }
    }
    if q.contains('#') {
        let j = choose|j: int| 0 <= j < q.len() && q[j] == '#';
        assert(q[j] != '#');
    }
    if q.contains('\n') {
        let j = choose|j: int| 0 <= j < q.len() && q[j] == '\n';
        assert(q[j] != '\n');
    }
}

proof fn lemma_quoted_entry(k: Seq<char>, x: Seq<char>)
    ensures
        quoted_entry(k, x) == plain_entry(k, seq!['"'] + x + seq!['"']),
{
    reveal_strlit(" = \"");
    reveal_strlit(" = ");
    assert(" = \""@ =~= " = "@ + seq!['"']);
    assert(quoted_entry(k, x) =~= plain_entry(k, seq!['"'] + x + seq!['"']));
}

proof fn lemma_plain_value_digits(d: Seq<char>)
    requires
        d.len() > 0,
        forall|j: int| 0 <= j < d.len() ==> text::is_digit(#[trigger] d[j]),
    ensures
        plain_value(d),
{
    assert(text::is_digit(d[0]) && text::is_digit(d.last()));
    if d.contains('#') {
        let j = choose|j: int| 0 <= j < d.len() && d[j] == '#';
        assert(text::is_digit(d[j]));
    }
    if d.contains('\n') {
        let j = choose|j: int| 0 <= j < d.len() && d[j] == '\n';
        assert(text::is_digit(d[j]));
    }
}

proof fn lemma_key_save_on_idle()
    ensures
        plain_key("save_on_idle"@),
{
    reveal_strlit("save_on_idle");
    let k = "save_on_idle"@;
    if k.contains('#') || k.contains('=') || k.contains('\n') {
        let j = choose|j: int| 0 <= j < k.len() && (k[j] == '#' || k[j] == '=' || k[j] == '\n');
    }
}

proof fn lemma_key_format_on_save()
    ensures
        plain_key("format_on_save"@),
{
    reveal_strlit("format_on_save");
    let k = "format_on_save"@;
    if k.contains('#') || k.contains('=') || k.contains('\n') {
        let j = choose|j: int| 0 <= j < k.len() && (k[j] == '#' || k[j] == '=' || k[j] == '\n');
    }
}

proof fn lemma_key_line_numbers()
    ensures
        plain_key("line_numbers"@),
{
    reveal_strlit("line_numbers");
    let k = "line_numbers"@;
    if k.contains('#') || k.contains('=') || k.contains('\n') {
        let j = choose|j: int| 0 <= j < k.len() && (k[j] == '#' || k[j] == '=' || k[j] == '\n');
    }
}

proof fn lemma_key_open_last_on_boot()
    ensures
        plain_key("open_last_on_boot"@),
{
    reveal_strlit("open_last_on_boot");
    let k = "open_last_on_boot"@;
    if k.contains('#') || k.contains('=') || k.contains('\n') {
        let j = choose|j: int| 0 <= j < k.len() && (k[j] == '#' || k[j] == '=' || k[j] == '\n');
    }
}

proof fn lemma_key_theme()
    ensures
        plain_key("theme"@),
{
    reveal_strlit("theme");
    let k = "theme"@;
    if k.contains('#') || k.contains('=') || k.contains('\n') {
        let j = choose|j: int| 0 <= j < k.len() && (k[j] == '#' || k[j] == '=' || k[j] == '\n');
    }
}

proof fn lemma_key_auto_sync()
    ensures
        plain_key("auto_sync"@),
{
    reveal_strlit("auto_sync");
    let k = "auto_sync"@;
    if k.contains('#') || k.contains('=') || k.contains('\n') {
        let j = choose|j: int| 0 <= j < k.len() && (k[j] == '#' || k[j] == '=' || k[j] == '\n');
    }
}

proof fn lemma_key_scroll_margin()
    ensures
        plain_key("scroll_margin"@),
{
    reveal_strlit("scroll_margin");
    let k = "scroll_margin"@;
    if k.contains('#') || k.contains('=') || k.contains('\n') {
        let j = choose|j: int| 0 <= j < k.len() && (k[j] == '#' || k[j] == '=' || k[j] == '\n');
    }
}

proof fn lemma_key_fast_partial()
    ensures
        plain_key("fast_partial"@),
{
    reveal_strlit("fast_partial");
    let k = "fast_partial"@;
    if k.contains('#') || k.contains('=') || k.contains('\n') {
        let j = choose|j: int| 0 <= j < k.len() && (k[j] == '#' || k[j] == '=' || k[j] == '\n');
    }
}

proof fn lemma_key_timezone()
    ensures
        plain_key("timezone"@),
{
    reveal_strlit("timezone");
    let k = "timezone"@;
    if k.contains('#') || k.contains('=') || k.contains('\n') {
        let j = choose|j: int| 0 <= j < k.len() && (k[j] == '#' || k[j] == '=' || k[j] == '\n');
    }
}

proof fn lemma_comment_line_0()
    ensures
        text::plain_line("# Typoena editor preferences \u{2014} hand-editable, git-tracked."@),
        pref_pair("# Typoena editor preferences \u{2014} hand-editable, git-tracked."@) is None,
{
    reveal_strlit("# Typoena editor preferences \u{2014} hand-editable, git-tracked.");
    let l = "# Typoena editor preferences \u{2014} hand-editable, git-tracked."@;
    lemma_comment_pair(l);
    if l.contains('\n') {
        let j = choose|j: int| 0 <= j < l.len() && l[j] == '\n';
    }
}

proof fn lemma_comment_line_1()
    ensures
        text::plain_line("# Edit here, or change live from the command palette (Cmd-Shift-P)."@),
        pref_pair("# Edit here, or change live from the command palette (Cmd-Shift-P)."@) is None,
{
    reveal_strlit("# Edit here, or change live from the command palette (Cmd-Shift-P).");
    let l = "# Edit here, or change live from the command palette (Cmd-Shift-P)."@;
    lemma_comment_pair(l);
    if l.contains('\n') {
        let j = choose|j: int| 0 <= j < l.len() && l[j] == '\n';
    }
}

proof fn lemma_comment_line_9()
    ensures
        text::plain_line("# Experimental fast partial-refresh waveform \u{2014} leave false unless"@),
        pref_pair("# Experimental fast partial-refresh waveform \u{2014} leave false unless"@) is None,
{
    reveal_strlit("# Experimental fast partial-refresh waveform \u{2014} leave false unless");
    let l = "# Experimental fast partial-refresh waveform \u{2014} leave false unless"@;
    lemma_comment_pair(l);
    if l.contains('\n') {
        let j = choose|j: int| 0 <= j < l.len() && l[j] == '\n';
    }
}

proof fn lemma_comment_line_10()
    ensures
        text::plain_line("# validating the custom LUT on a bench device (see Prefs::fast_partial)."@),
        pref_pair("# validating the custom LUT on a bench device (see Prefs::fast_partial)."@) is None,
{
    reveal_strlit("# validating the custom LUT on a bench device (see Prefs::fast_partial).");
    let l = "# validating the custom LUT on a bench device (see Prefs::fast_partial)."@;
    lemma_comment_pair(l);
    if l.contains('\n') {
        let j = choose|j: int| 0 <= j < l.len() && l[j] == '\n';
    }
}

proof fn lemma_comment_line_12()
    ensures
        text::plain_line("# POSIX TZ (e.g. CET-1CEST,M3.5.0,M10.5.0/3); empty = UTC."@),
        pref_pair("# POSIX TZ (e.g. CET-1CEST,M3.5.0,M10.5.0/3); empty = UTC."@) is None,
{
    reveal_strlit("# POSIX TZ (e.g. CET-1CEST,M3.5.0,M10.5.0/3); empty = UTC.");
    let l = "# POSIX TZ (e.g. CET-1CEST,M3.5.0,M10.5.0/3); empty = UTC."@;
    lemma_comment_pair(l);
    if l.contains('\n') {
        let j = choose|j: int| 0 <= j < l.len() && l[j] == '\n';
    }
}

/// What each serialized line holds, and that each reads back whole.
proof fn lemma_toml_lines(p: Prefs)
    requires
        quotable(p.theme@),
        quotable(p.auto_sync@),
        quotable(p.timezone@),
    ensures
        forall|i: int| 0 <= i < toml_lines(p).len() ==> text::plain_line(#[trigger] toml_lines(p)[i]),
        pref_pair(toml_lines(p)[0]) is None,
        pref_pair(toml_lines(p)[1]) is None,
        pref_pair(toml_lines(p)[2]) == Some(("save_on_idle"@, bool_text(p.save_on_idle))),
        pref_pair(toml_lines(p)[3]) == Some(("format_on_save"@, bool_text(p.format_on_save))),
        pref_pair(toml_lines(p)[4]) == Some(("line_numbers"@, bool_text(p.line_numbers))),
        pref_pair(toml_lines(p)[5]) == Some(("open_last_on_boot"@, bool_text(p.open_last_on_boot))),
        pref_pair(toml_lines(p)[6]) == Some(("theme"@, seq!['"'] + p.theme@ + seq!['"'])),
        pref_pair(toml_lines(p)[7]) == Some(("auto_sync"@, seq!['"'] + p.auto_sync@ + seq!['"'])),
        pref_pair(toml_lines(p)[8]) == Some(("scroll_margin"@, text::dec(p.scroll_margin as nat))),
        pref_pair(toml_lines(p)[9]) is None,
        pref_pair(toml_lines(p)[10]) is None,
        pref_pair(toml_lines(p)[11]) == Some(("fast_partial"@, bool_text(p.fast_partial))),
        pref_pair(toml_lines(p)[12]) is None,
        pref_pair(toml_lines(p)[13]) == Some(("timezone"@, seq!['"'] + p.timezone@ + seq!['"'])),
{
    let ls = toml_lines(p);
    lemma_key_save_on_idle();
    lemma_key_format_on_save();
    lemma_key_line_numbers();
    lemma_key_open_last_on_boot();
    lemma_key_theme();
    lemma_key_auto_sync();
    lemma_key_scroll_margin();
    lemma_key_fast_partial();
    lemma_key_timezone();
    lemma_comment_line_0();
    lemma_comment_line_1();
    lemma_comment_line_9();
    lemma_comment_line_10();
    lemma_comment_line_12();
    lemma_bool_text(p.save_on_idle);
    lemma_bool_text(p.format_on_save);
    lemma_bool_text(p.line_numbers);
    lemma_bool_text(p.open_last_on_boot);
    lemma_bool_text(p.fast_partial);
    text::lemma_dec_parse(p.scroll_margin as nat);
    let d = text::dec(p.scroll_margin as nat);
    lemma_plain_value_digits(d);
    lemma_quoted_value(p.theme@);
    lemma_quoted_value(p.auto_sync@);
    lemma_quoted_value(p.timezone@);
    lemma_quoted_entry("theme"@, p.theme@);
    lemma_quoted_entry("auto_sync"@, p.auto_sync@);
    lemma_quoted_entry("timezone"@, p.timezone@);
    lemma_entry_pair("save_on_idle"@, bool_text(p.save_on_idle));
    lemma_entry_pair("format_on_save"@, bool_text(p.format_on_save));
    lemma_entry_pair("line_numbers"@, bool_text(p.line_numbers));
    lemma_entry_pair("open_last_on_boot"@, bool_text(p.open_last_on_boot));
    lemma_entry_pair("theme"@, seq!['"'] + p.theme@ + seq!['"']);
    lemma_entry_pair("auto_sync"@, seq!['"'] + p.auto_sync@ + seq!['"']);
    lemma_entry_pair("scroll_margin"@, d);
    lemma_entry_pair("fast_partial"@, bool_text(p.fast_partial));
    lemma_entry_pair("timezone"@, seq!['"'] + p.timezone@ + seq!['"']);
    assert forall|i: int| 0 <= i < ls.len() implies text::plain_line(#[trigger] ls[i]) by {
    }
}

/// A prefs file written by [`Prefs::to_toml`] reads back as the same prefs,
/// whenever each string pref can be written quoted on one line.
pub proof fn lemma_to_toml_parse_round_trip(p: Prefs)
    requires
        quotable(p.theme@),
        quotable(p.auto_sync@),
        quotable(p.timezone@),
    ensures
        parsed_from(p, text::joined(toml_lines(p))),
{
    let ls = toml_lines(p);
    lemma_toml_lines(p);
    text::lemma_lines_of_joined(ls);
    lemma_pref_keys_distinct();
    lemma_bool_text(p.save_on_idle);
    lemma_bool_text(p.format_on_save);
    lemma_bool_text(p.line_numbers);
    lemma_bool_text(p.open_last_on_boot);
    lemma_bool_text(p.fast_partial);
    text::lemma_dec_parse(p.scroll_margin as nat);
    lemma_unquote(p.theme@);
    lemma_unquote(p.auto_sync@);
    lemma_unquote(p.timezone@);
    lemma_last_set_unique(ls, "save_on_idle"@, PrefKind::Bool, 2, bool_text(p.save_on_idle));
    lemma_last_set_unique(ls, "format_on_save"@, PrefKind::Bool, 3, bool_text(p.format_on_save));
    lemma_last_set_unique(ls, "line_numbers"@, PrefKind::Bool, 4, bool_text(p.line_numbers));
    lemma_last_set_unique(
        ls,
        "open_last_on_boot"@,
        PrefKind::Bool,
        5,
        bool_text(p.open_last_on_boot),
    );
    lemma_last_set_unique(ls, "theme"@, PrefKind::Text, 6, seq!['"'] + p.theme@ + seq!['"']);
    lemma_last_set_unique(
        ls,
        "auto_sync"@,
        PrefKind::Text,
        7,
        seq!['"'] + p.auto_sync@ + seq!['"'],
    );
    lemma_last_set_unique(
        ls,
        "scroll_margin"@,
        PrefKind::Count,
        8,
        text::dec(p.scroll_margin as nat),
    );
    lemma_last_set_unique(ls, "fast_partial"@, PrefKind::Bool, 11, bool_text(p.fast_partial));
    lemma_last_set_unique(
        ls,
        "timezone"@,
        PrefKind::Text,
        13,
        seq!['"'] + p.timezone@ + seq!['"'],
    );
}

/// The panel-polarity presets the palette rotates [`Prefs::theme`] through.
pub const THEME_OPTIONS: [&'static str; 2] = ["light", "dark"];

/// The auto-push intervals the palette rotates [`Prefs::auto_sync`] through.
pub const AUTO_SYNC_OPTIONS: [&'static str; 5] = ["2m", "5m", "10m", "15m", "30m"];

/// The scroll-margin values the palette rotates [`Prefs::scroll_margin`]
/// through.
pub const SCROLL_MARGIN_OPTIONS: [usize; 4] = [0, 1, 2, 3];

/// Index of the first option reading `current`.
pub open spec fn position_of(options: Seq<&str>, current: Seq<char>) -> Option<nat>
    decreases options.len(),
{
    if options.len() == 0 {
        None
    } else if options[0]@ == current {
        Some(0)
    } else {
        match position_of(options.drop_first(), current) {
            Some(i) => Some(i + 1),
            None => None,
        }
    }
}

/// The option after `current`, wrapping; the first option when `current` is
/// not among them.
pub open spec fn option_after(options: Seq<&str>, current: Seq<char>) -> Seq<char> {
    match position_of(options, current) {
        Some(i) => options[((i + 1) % options.len()) as int]@,
        None => options[0]@,
    }
}

proof fn lemma_position_of(options: Seq<&str>, current: Seq<char>, i: int)
    requires
        0 <= i <= options.len(),
        forall|j: int| 0 <= j < i ==> options[j]@ != current,
    ensures
        i < options.len() && options[i]@ == current ==> position_of(options, current) == Some(
            i as nat,
        ),
        i == options.len() ==> position_of(options, current) is None,
    decreases i,
{
    if i > 0 {
        let t = options.drop_first();
        assert forall|j: int| 0 <= j < i - 1 implies t[j]@ != current by {
            assert(t[j] == options[j + 1]);
        }
        if i < options.len() {
            assert(t[i - 1] == options[i]);
        }
        lemma_position_of(t, current, i - 1);
        assert(options[0]@ != current);
    }
}

/// The option after `current` in `options`, wrapping past the end — the
/// rotate-on-Enter for a preset string pref. A `current` that isn't in the
/// list (e.g. hand-typed into the TOML) snaps to the first option, so one
/// Enter always lands on a known value.
pub fn next_option<'a>(current: &str, options: &[&'a str]) -> (r: &'a str)
    requires
        options.len() > 0,
    ensures
        r@ == option_after(options@, current@),
        exists|i: int| 0 <= i < options.len() && r == options@[i],
{
    let cur = text::chars_of(current);
    let mut i: usize = 0;
    while i < options.len()
        invariant
            cur@ == current@,
            i <= options.len(),
            forall|j: int| 0 <= j < i ==> options@[j]@ != current@,
        decreases options.len() - i,
    {
        let o = text::chars_of(options[i]);
        if text::chars_eq(&o, &cur) {
            proof {
                lemma_position_of(options@, current@, i as int);
            }
            let k = (i + 1) % options.len();
            return options[k];
        }
        i += 1;
    }
    proof {
        lemma_position_of(options@, current@, i as int);
    }
    options[0]
}

/// Index of the first option equal to `current`.
pub open spec fn count_position_of(options: Seq<usize>, current: usize) -> Option<nat>
    decreases options.len(),
{
    if options.len() == 0 {
        None
    } else if options[0] == current {
        Some(0)
    } else {
        match count_position_of(options.drop_first(), current) {
            Some(i) => Some(i + 1),
            None => None,
        }
    }
}

proof fn lemma_count_position_of(options: Seq<usize>, current: usize, i: int)
    requires
        0 <= i <= options.len(),
        forall|j: int| 0 <= j < i ==> options[j] != current,
    ensures
        i < options.len() && options[i] == current ==> count_position_of(options, current)
            == Some(i as nat),
        i == options.len() ==> count_position_of(options, current) is None,
    decreases i,
{
    if i > 0 {
        let t = options.drop_first();
        assert forall|j: int| 0 <= j < i - 1 implies t[j] != current by {
            assert(t[j] == options[j + 1]);
        }
        if i < options.len() {
            assert(t[i - 1] == options[i]);
        }
        lemma_count_position_of(t, current, i - 1);
    }
}

/// [`next_option`] for a numeric preset: the value after `current`, wrapping,
/// and snapping an off-list value to the head.
pub fn next_usize_option(current: usize, options: &[usize]) -> (r: usize)
    requires
        options.len() > 0,
    ensures
        r == match count_position_of(options@, current) {
            Some(i) => options@[((i + 1) % options@.len()) as int],
            None => options@[0],
        },
{
    let mut i: usize = 0;
    while i < options.len()
        invariant
            i <= options.len(),
            forall|j: int| 0 <= j < i ==> options@[j] != current,
        decreases options.len() - i,
    {
        if options[i] == current {
            proof {
                lemma_count_position_of(options@, current, i as int);
            }
            return options[(i + 1) % options.len()];
        }
        i += 1;
    }
    proof {
        lemma_count_position_of(options@, current, i as int);
    }
    options[0]
}

} // verus!
