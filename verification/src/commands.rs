//! The `:` command line: what a typed command is, and the buffer-side work of
//! `:fmt`, `:w` and `:gp` — formatting with the caret kept in place, and the
//! save / push / pull requests handed to the host.

use vstd::prelude::*;
use vstd::utf8::encode_utf8;
use crate::buffers::Scope;
use crate::layout::newline_count;
use crate::motions::{bytes, is_boundary, line_end, line_end_of, line_start, line_start_of};
use crate::tables::formatted;
use crate::palette::{drop_last_word, drop_last_word_exec, Key};
use crate::text;

verus! {

/// The offset just past the `n`th newline at or after `i` in `b`, or the end
/// when there are fewer.
pub open spec fn after_nth_newline(b: Seq<u8>, i: int, n: nat) -> int
    decreases b.len() - i,
{
    if n == 0 {
        i
    } else if i >= b.len() {
        b.len() as int
    } else if b[i] == 0x0Au8 {
        after_nth_newline(b, i + 1, (n - 1) as nat)
    } else {
        after_nth_newline(b, i + 1, n)
    }
}

/// `c`, or the nearest char boundary below it, but not below `floor`.
pub open spec fn snap_back(b: Seq<u8>, c: int, floor: int) -> int
    decreases c - floor,
{
    if c <= floor || is_boundary(b, c) {
        c
    } else {
        snap_back(b, c - 1, floor)
    }
}

/// Where `:fmt` leaves the caret `caret` of the text `t`: on the same logical
/// line of the formatted text (the last one if there are fewer), at the same
/// byte column when the line is still that long (else at its end), snapped
/// back onto a char boundary.
pub open spec fn formatted_caret(t: Seq<char>, caret: int) -> int {
    let b = encode_utf8(t);
    let row = newline_count(b.take(caret));
    let col = caret - line_start_of(b, caret);
    let nb = encode_utf8(formatted(t));
    let last = newline_count(nb);
    let target = if row < last {
        row
    } else {
        last
    };
    let ls = if target == 0 {
        0
    } else {
        after_nth_newline(nb, 0, target)
    };
    let le = line_end_of(nb, ls);
    let c0 = if ls + col < le {
        ls + col
    } else {
        le
    };
    snap_back(nb, c0, ls)
}

proof fn lemma_newline_count_push(b: Seq<u8>, i: int)
    requires
        0 <= i < b.len(),
    ensures
        newline_count(b.take(i + 1)) == newline_count(b.take(i)) + if b[i] == 0x0Au8 {
            1nat
        } else {
            0nat
        },
{
    assert(b.take(i + 1).drop_last() =~= b.take(i));
}

/// The number of newlines in `text[..end]`.
fn count_newlines(text: &str, end: usize) -> (r: usize)
    requires
        end <= bytes(text).len(),
    ensures
        r == newline_count(bytes(text).take(end as int)),
        r <= end,
{
    let b = text.as_bytes();
    let mut n: usize = 0;
    let mut i: usize = 0;
    proof {
        assert(b@.take(0) =~= Seq::<u8>::empty());
    }
    while i < end
        invariant
            b@ == bytes(text),
            i <= end <= b@.len(),
            n == newline_count(b@.take(i as int)),
            n <= i,
        decreases end - i,
    {
        proof {
            lemma_newline_count_push(b@, i as int);
        }
        if b[i] == 0x0Au8 {
            n += 1;
        }
        i += 1;
    }
    n
}

proof fn lemma_after_nth_newline(b: Seq<u8>, i: int, n: nat)
    requires
        0 <= i <= b.len(),
    ensures
        i <= after_nth_newline(b, i, n) <= b.len(),
        n > 0 && after_nth_newline(b, i, n) < b.len() ==> b[after_nth_newline(b, i, n) - 1]
            == 0x0Au8,
    decreases b.len() - i,
{
    if n > 0 && i < b.len() {
        if b[i] == 0x0Au8 {
            lemma_after_nth_newline(b, i + 1, (n - 1) as nat);
        } else {
            lemma_after_nth_newline(b, i + 1, n);
        }
    }
}

/// The offset just past the `n`th newline of `text`, or its end.
fn after_newlines(text: &str, n: usize) -> (r: usize)
    ensures
        r == after_nth_newline(bytes(text), 0, n as nat),
{
    let b = text.as_bytes();
    let mut i: usize = 0;
    let mut k: usize = n;
    while k > 0 && i < b.len()
        invariant
            b@ == bytes(text),
            i <= b@.len(),
            after_nth_newline(b@, i as int, k as nat) == after_nth_newline(b@, 0, n as nat),
        decreases b@.len() - i,
    {
        if b[i] == 0x0Au8 {
            k -= 1;
        }
        i += 1;
    }
    if k == 0 {
        i
    } else {
        b.len()
    }
}

/// `:fmt` — normalize the buffer with [`crate::tables::format_markdown`]
/// (align tables, collapse runs of blank lines, strip trailing whitespace)
/// and keep the caret on the same line and column where it still fits.
pub fn format_buffer(text: &str, caret: usize) -> (r: (String, usize))
    requires
        is_boundary(bytes(text), caret as int),
    ensures
        r.0@ == formatted(text@),
        r.1 == formatted_caret(text@, caret as int),
        is_boundary(encode_utf8(r.0@), r.1 as int),
{
    let row = count_newlines(text, caret);
    let col = caret - line_start(text, caret);
    let out = crate::tables::format_markdown(text);
    let t = out.as_str();
    let nlen = t.as_bytes().len();
    let last = count_newlines(t, nlen);
    proof {
        assert(bytes(t).take(nlen as int) =~= bytes(t));
    }
    let target = if row < last {
        row
    } else {
        last
    };
    let ls = if target == 0 {
        0
    } else {
        after_newlines(t, target)
    };
    proof {
        lemma_after_nth_newline(bytes(t), 0, target as nat);
    }
    let le = line_end(t, ls);
    let mut c = if col < le - ls {
        ls + col
    } else {
        le
    };
    proof {
        crate::motions::lemma_line_end_of(bytes(t), ls as int);
        assert(snap_back(bytes(t), c as int, ls as int) == formatted_caret(text@, caret as int));
    }
    while c > ls && !t.is_char_boundary(c)
        invariant
            ls <= c <= nlen,
            nlen == bytes(t).len(),
            snap_back(bytes(t), c as int, ls as int) == formatted_caret(text@, caret as int),
        decreases c,
    {
        proof {
            vstd::utf8::encode_utf8_valid_utf8(t@);
            vstd::utf8::is_char_boundary_start_end_of_seq(bytes(t));
            if c < nlen {
                vstd::utf8::is_char_boundary_iff_not_is_continuation_byte(bytes(t), c as int);
            }
        }
        c -= 1;
    }
    proof {
        vstd::utf8::encode_utf8_valid_utf8(t@);
        vstd::utf8::is_char_boundary_start_end_of_seq(bytes(t));
        if 0 < c < nlen {
            vstd::utf8::is_char_boundary_iff_not_is_continuation_byte(bytes(t), c as int);
        }
        if c == ls && ls > 0 && ls < nlen {
            crate::motions::lemma_after_ascii(t@, ls as int);
        }
    }
    (out, c)
}

// ---------------------------------------------------------------------------
// Commands
// ---------------------------------------------------------------------------

/// What a `:` command line asks for.
#[derive(Clone, Copy, Debug, PartialEq, Eq, Structural)]
pub enum CommandKind {
    /// `:enew <path>`: create a new file.
    Enew,
    /// `:enew` without a path: show the usage.
    EnewUsage,
    Inbox,
    Oldest,
    Delete,
    Settings,
    /// `:fmt`
    Format,
    /// `:pub`, `:publish`
    Publish,
    /// `:w`, `:wq`, `:x`
    Write,
    /// `:gp`
    Push,
    /// `:gl`
    Pull,
    Setup,
    Reboot,
    Update,
    About,
    Focus,
    FocusDebug,
    /// Anything else: ignored.
    Unknown,
}

/// The command a trimmed command line `c` names.
pub open spec fn command_kind(c: Seq<char>) -> CommandKind {
    if crate::text::starts_with(c, "enew "@) {
        CommandKind::Enew
    } else if c == "enew"@ {
        CommandKind::EnewUsage
    } else if c == "inbox"@ || c == "in"@ {
        CommandKind::Inbox
    } else if c == "oldest"@ || c == "old"@ {
        CommandKind::Oldest
    } else if c == "delete"@ || c == "d"@ {
        CommandKind::Delete
    } else if c == "settings"@ {
        CommandKind::Settings
    } else if c == "fmt"@ {
        CommandKind::Format
    } else if c == "pub"@ || c == "publish"@ {
        CommandKind::Publish
    } else if c == "w"@ || c == "wq"@ || c == "x"@ {
        CommandKind::Write
    } else if c == "gp"@ {
        CommandKind::Push
    } else if c == "gl"@ {
        CommandKind::Pull
    } else if c == "setup"@ {
        CommandKind::Setup
    } else if c == "reboot"@ {
        CommandKind::Reboot
    } else if c == "update"@ {
        CommandKind::Update
    } else if c == "about"@ {
        CommandKind::About
    } else if c == "focus"@ {
        CommandKind::Focus
    } else if c == "focusdebug"@ {
        CommandKind::FocusDebug
    } else {
        CommandKind::Unknown
    }
}

/// Read a typed command line (trimmed): which command it is, and for
/// `:enew <path>` the path (empty otherwise). `:wq` and `:x` are `:w`
/// (there is no quitting an appliance).
pub fn parse_command(cmdline: &str) -> (r: (CommandKind, String))
    ensures
        r.0 == command_kind(crate::text::trim(cmdline@)),
        r.0 == CommandKind::Enew ==> r.1@ == crate::text::trim(cmdline@).skip(5),
        r.0 != CommandKind::Enew ==> r.1@.len() == 0,
{
    let v = crate::text::chars_of(cmdline);
    let c = crate::text::trim_exec(v.as_slice());
    let cs = c.as_slice();
    let none = String::new();
    if crate::text::starts_with_str(cs, "enew ") {
        proof {
            reveal_strlit("enew ");
        }
        let arg = crate::text::string_of(crate::text::slice_of(cs, 5, c.len()).as_slice());
        return (CommandKind::Enew, arg);
    }
    let eq = |lit: &str| -> (b: bool)
        ensures
            b == (c@ == lit@),
        { crate::text::chars_eq_str(c.as_slice(), lit) };
    let k = if eq("enew") {
        CommandKind::EnewUsage
    } else if eq("inbox") || eq("in") {
        CommandKind::Inbox
    } else if eq("oldest") || eq("old") {
        CommandKind::Oldest
    } else if eq("delete") || eq("d") {
        CommandKind::Delete
    } else if eq("settings") {
        CommandKind::Settings
    } else if eq("fmt") {
        CommandKind::Format
    } else if eq("pub") || eq("publish") {
        CommandKind::Publish
    } else if eq("w") || eq("wq") || eq("x") {
        CommandKind::Write
    } else if eq("gp") {
        CommandKind::Push
    } else if eq("gl") {
        CommandKind::Pull
    } else if eq("setup") {
        CommandKind::Setup
    } else if eq("reboot") {
        CommandKind::Reboot
    } else if eq("update") {
        CommandKind::Update
    } else if eq("about") {
        CommandKind::About
    } else if eq("focus") {
        CommandKind::Focus
    } else if eq("focusdebug") {
        CommandKind::FocusDebug
    } else {
        CommandKind::Unknown
    };
    (k, none)
}

// ---------------------------------------------------------------------------
// Requests to the host
// ---------------------------------------------------------------------------

/// A request the editor queues for the host to carry out.
pub enum Effect {
    /// Persist `contents` to `path` (an atomic save on the host).
    Save { path: String, scope: Scope, contents: String },
    /// Push the tracked working copy to the remote.
    Push,
    /// Pull from the remote; `commit_dirty` first folds saved-but-unpushed
    /// work into a local commit.
    Pull { commit_dirty: bool },
}

/// Whether `e` is a save of `contents` to `path` in `scope`.
pub open spec fn is_save(e: Effect, path: Seq<char>, scope: Scope, contents: Seq<char>) -> bool {
    match e {
        Effect::Save { path: p, scope: s, contents: c } => p@ == path && s == scope && c@ == contents,
        _ => false,
    }
}

/// A save of the active buffer, or `None` (the "no file name" notice) for an
/// unnamed scratch buffer, which has nowhere to be saved.
pub fn request_save_active(path: &str, scope: Scope, text: &str) -> (r: Option<Effect>)
    ensures
        r is None <==> path@.len() == 0,
        r matches Some(e) ==> is_save(e, path@, scope, text@),
{
    if path.is_empty() {
        return None;
    }
    Some(
        Effect::Save {
            path: crate::text::string_of(crate::text::chars_of(path).as_slice()),
            scope: scope,
            contents: crate::text::string_of(crate::text::chars_of(text).as_slice()),
        },
    )
}

/// The text with a final newline added unless it is empty or already ends
/// with one.
pub open spec fn terminated(t: Seq<char>) -> Seq<char> {
    if t.len() > 0 && t.last() != '\n' {
        t.push('\n')
    } else {
        t
    }
}

/// End the buffer with a newline (the Insert-mode form of format-on-save,
/// which leaves the line being typed alone).
pub fn terminate_buffer(text: &str) -> (r: String)
    ensures
        r@ == terminated(text@),
{
    let mut v = crate::text::chars_of(text);
    if v.len() > 0 && v[v.len() - 1] != '\n' {
        v.push('\n');
    }
    crate::text::string_of(v.as_slice())
}

/// `:w` (and `:wq`, `:x`): format the buffer first when format-on-save is on
/// (in Insert mode only end it with a newline, leaving the line being typed
/// alone), then ask for it to be saved. Gives the new text, the caret, and
/// the save (`None`: the buffer has no file name).
pub fn write_active(
    text: &str,
    caret: usize,
    path: &str,
    scope: Scope,
    format_on_save: bool,
    insert_mode: bool,
) -> (r: (String, usize, Option<Effect>))
    requires
        is_boundary(bytes(text), caret as int),
    ensures
        r.0@ == if format_on_save && insert_mode {
            terminated(text@)
        } else if format_on_save {
            formatted(text@)
        } else {
            text@
        },
        r.1 == if format_on_save && !insert_mode {
            formatted_caret(text@, caret as int)
        } else {
            caret as int
        },
        r.2 is None <==> path@.len() == 0,
        r.2 matches Some(e) ==> is_save(e, path@, scope, r.0@),
{
    let (t, c) = if format_on_save {
        if insert_mode {
            (terminate_buffer(text), caret)
        } else {
            format_buffer(text, caret)
        }
    } else {
        (crate::text::string_of(crate::text::chars_of(text).as_slice()), caret)
    };
    let e = request_save_active(path, scope, t.as_str());
    (t, c, e)
}

/// `:gp` (and the `>` push command): format on save when it is on, save the
/// buffer, then push. `None` for a Local buffer, which never reaches the
/// remote (the "Push unavailable" notice); otherwise the new text, the caret,
/// and the requests in order: the save (absent for an unnamed buffer), then
/// the push.
pub fn run_push(text: &str, caret: usize, path: &str, scope: Scope, format_on_save: bool) -> (r:
    Option<(String, usize, Vec<Effect>)>)
    requires
        is_boundary(bytes(text), caret as int),
    ensures
        r is None <==> scope == Scope::Local,
        r matches Some((t, c, effects)) ==> {
            &&& t@ == if format_on_save {
                formatted(text@)
            } else {
                text@
            }
            &&& c == if format_on_save {
                formatted_caret(text@, caret as int)
            } else {
                caret as int
            }
            &&& effects@.len() == if path@.len() == 0 {
                1int
            } else {
                2int
            }
            &&& effects@.last() is Push
            &&& path@.len() > 0 ==> is_save(effects@[0], path@, scope, t@)
        },
{
    if scope == Scope::Local {
        return None;
    }
    let (t, c) = if format_on_save {
        format_buffer(text, caret)
    } else {
        (crate::text::string_of(crate::text::chars_of(text).as_slice()), caret)
    };
    let mut effects: Vec<Effect> = Vec::new();
    match request_save_active(path, scope, t.as_str()) {
        Some(e) => effects.push(e),
        None => {},
    }
    effects.push(Effect::Push);
    Some((t, c, effects))
}

/// A message the command line leaves on the notice line.
#[derive(Clone, Copy, Debug, PartialEq, Eq, Structural)]
pub enum CommandNotice {
    /// "usage: :enew <file>"
    EnewUsage,
    /// "no file name": a save of an unnamed buffer.
    NoFileName,
    /// "Push unavailable (Local)"
    PushUnavailable,
}

impl CommandNotice {
    /// The notice's text.
    pub fn message(&self) -> (r: String)
        ensures
            r@ == match self {
                CommandNotice::EnewUsage => "usage: :enew <file>"@,
                CommandNotice::NoFileName => "no file name"@,
                CommandNotice::PushUnavailable => "Push unavailable (Local)"@,
            },
    {
        match self {
            CommandNotice::EnewUsage => copy_str("usage: :enew <file>"),
            CommandNotice::NoFileName => copy_str("no file name"),
            CommandNotice::PushUnavailable => copy_str("Push unavailable (Local)"),
        }
    }
}

/// What running a command line does to the buffer and what it asks of the
/// host. Commands that act on other state (files, the palette, the device)
/// come back by `kind`, with nothing done, for the caller to carry out.
pub struct CommandOutcome {
    pub kind: CommandKind,
    /// The `:enew` path.
    pub arg: String,
    pub text: String,
    pub caret: usize,
    pub effects: Vec<Effect>,
    pub notice: Option<CommandNotice>,
}

fn copy_str(s: &str) -> (r: String)
    ensures
        r@ == s@,
{
    crate::text::string_of(crate::text::chars_of(s).as_slice())
}

/// Run the typed command line: `:fmt` formats the buffer, `:w` (`:wq`, `:x`)
/// formats on save and saves, `:gp` formats on save, saves and pushes, `:gl`
/// pulls, `:enew` alone shows its usage; every other command is handed back
/// by kind with the buffer unchanged and nothing requested.
pub fn execute_command(
    cmdline: &str,
    text: &str,
    caret: usize,
    path: &str,
    scope: Scope,
    format_on_save: bool,
) -> (r: CommandOutcome)
    requires
        is_boundary(bytes(text), caret as int),
    ensures
        r.kind == command_kind(crate::text::trim(cmdline@)),
        r.kind == CommandKind::Enew ==> r.arg@ == crate::text::trim(cmdline@).skip(5),
        r.kind == CommandKind::Format ==> r.text@ == formatted(text@) && r.caret == formatted_caret(
            text@,
            caret as int,
        ) && r.effects@.len() == 0 && r.notice is None,
        r.kind == CommandKind::Write ==> {
            &&& r.text@ == if format_on_save {
                formatted(text@)
            } else {
                text@
            }
            &&& r.caret == if format_on_save {
                formatted_caret(text@, caret as int)
            } else {
                caret as int
            }
            &&& path@.len() == 0 ==> r.effects@.len() == 0 && r.notice == Some(
                CommandNotice::NoFileName,
            )
            &&& path@.len() > 0 ==> r.effects@.len() == 1 && is_save(
                r.effects@[0],
                path@,
                scope,
                r.text@,
            ) && r.notice is None
        },
        r.kind == CommandKind::Push && scope == Scope::Local ==> r.text@ == text@ && r.caret
            == caret && r.effects@.len() == 0 && r.notice == Some(CommandNotice::PushUnavailable),
        r.kind == CommandKind::Push && scope == Scope::Repo ==> {
            &&& r.text@ == if format_on_save {
                formatted(text@)
            } else {
                text@
            }
            &&& r.caret == if format_on_save {
                formatted_caret(text@, caret as int)
            } else {
                caret as int
            }
            &&& path@.len() == 0 ==> r.effects@.len() == 1 && r.effects@[0] is Push && r.notice
                == Some(CommandNotice::NoFileName)
            &&& path@.len() > 0 ==> r.effects@.len() == 2 && is_save(
                r.effects@[0],
                path@,
                scope,
                r.text@,
            ) && r.effects@[1] is Push && r.notice is None
        },
        r.kind == CommandKind::Pull ==> r.text@ == text@ && r.caret == caret && r.effects@.len()
            == 1 && (r.effects@[0] matches Effect::Pull { commit_dirty } && !commit_dirty)
            && r.notice is None,
        r.kind != CommandKind::Format && r.kind != CommandKind::Write && r.kind != CommandKind::Push
            && r.kind != CommandKind::Pull ==> r.text@ == text@ && r.caret == caret
            && r.effects@.len() == 0 && r.notice == if r.kind == CommandKind::EnewUsage {
            Some(CommandNotice::EnewUsage)
        } else {
            None
        },
{
    let (kind, arg) = parse_command(cmdline);
    match kind {
        CommandKind::Format => {
            let (t, c) = format_buffer(text, caret);
            CommandOutcome { kind, arg, text: t, caret: c, effects: Vec::new(), notice: None }
        },
        CommandKind::Write => {
            let (t, c, e) = write_active(text, caret, path, scope, format_on_save, false);
            let mut effects: Vec<Effect> = Vec::new();
            let notice = match e {
                Some(e) => {
                    effects.push(e);
                    None
                },
                None => Some(CommandNotice::NoFileName),
            };
            CommandOutcome { kind, arg, text: t, caret: c, effects, notice }
        },
        CommandKind::Push => match run_push(text, caret, path, scope, format_on_save) {
            Some((t, c, effects)) => {
                let notice = if path.is_empty() {
                    Some(CommandNotice::NoFileName)
                } else {
                    None
                };
                CommandOutcome { kind, arg, text: t, caret: c, effects, notice }
            },
            None => CommandOutcome {
                kind,
                arg,
                text: copy_str(text),
                caret,
                effects: Vec::new(),
                notice: Some(CommandNotice::PushUnavailable),
            },
        },
        CommandKind::Pull => {
            let mut effects: Vec<Effect> = Vec::new();
            effects.push(Effect::Pull { commit_dirty: false });
            CommandOutcome { kind, arg, text: copy_str(text), caret, effects, notice: None }
        },
        _ => {
            let notice = if kind == CommandKind::EnewUsage {
                Some(CommandNotice::EnewUsage)
            } else {
                None
            };
            CommandOutcome { kind, arg, text: copy_str(text), caret, effects: Vec::new(), notice }
        },
    }
}


/// What a key on the `:`/`/` command line asks of the editor.
pub enum LineAction {
    /// Keep editing the line.
    Stay,
    /// Backspace on an empty line, or Esc: back to Normal.
    Cancel,
    /// Enter: run this line (a search for the `/` prompt, a command for
    /// `:`), then back to Normal unless the command opened another mode.
    Submit(String),
    /// `Cmd-P`: abandon the line and open the file palette.
    OpenPalette,
    /// `Cmd-Shift-P`: abandon the line and open the `>` command list.
    OpenCommandPalette,
}

/// A key on the command line: typing extends it, Backspace erases (and
/// cancels on an empty line), `Ctrl-W` drops the last word and `Cmd-Backspace`
/// the whole line, Enter submits it, Esc cancels, and the palette keys
/// abandon it for the palette. Every way off the line leaves it empty.
pub fn command_key(line: &mut String, key: Key) -> (r: LineAction)
    ensures
        match key {
            Key::Char(c) => final(line)@ == old(line)@.push(c) && r is Stay,
            Key::Backspace => if old(line)@.len() == 0 {
                final(line)@.len() == 0 && r is Cancel
            } else {
                final(line)@ == old(line)@.drop_last() && r is Stay
            },
            Key::Enter => final(line)@.len() == 0 && (r matches LineAction::Submit(l) && l@
                == old(line)@),
            Key::Escape => final(line)@.len() == 0 && r is Cancel,
            Key::Palette => final(line)@.len() == 0 && r is OpenPalette,
            Key::CommandPalette => final(line)@.len() == 0 && r is OpenCommandPalette,
            Key::DeleteWord => final(line)@ == drop_last_word(old(line)@) && r is Stay,
            Key::DeleteLine => final(line)@.len() == 0 && r is Stay,
            _ => final(line)@ == old(line)@ && r is Stay,
        },
{
    match key {
        Key::Char(c) => {
            let mut v = text::chars_of(line.as_str());
            v.push(c);
            *line = text::string_of(v.as_slice());
            LineAction::Stay
        },
        Key::Backspace => {
            let mut v = text::chars_of(line.as_str());
            if v.len() == 0 {
                LineAction::Cancel
            } else {
                v.pop();
                *line = text::string_of(v.as_slice());
                LineAction::Stay
            }
        },
        Key::Enter => {
            let l = text::string_of(text::chars_of(line.as_str()).as_slice());
            *line = String::new();
            LineAction::Submit(l)
        },
        Key::Escape => {
            *line = String::new();
            LineAction::Cancel
        },
        Key::Palette => {
            *line = String::new();
            LineAction::OpenPalette
        },
        Key::CommandPalette => {
            *line = String::new();
            LineAction::OpenCommandPalette
        },
        Key::DeleteWord => {
            *line = drop_last_word_exec(line.as_str());
            LineAction::Stay
        },
        Key::DeleteLine => {
            *line = String::new();
            LineAction::Stay
        },
        _ => LineAction::Stay,
    }
}

/// The command words: each word of the `:` line (`:w`, `:wq`, `:x`, `:enew`,
/// `:inbox`/`:in`, `:oldest`/`:old`, `:delete`/`:d`, `:settings`, `:fmt`,
/// `:pub`/`:publish`, `:gp`, `:gl`, `:setup`, `:reboot`, `:update`,
/// `:about`, `:focus`, `:focusdebug`) runs its own command, `:enew` followed
/// by a space and a path creates that file, and no other line runs any of
/// them.
pub proof fn lemma_command_words(c: Seq<char>)
    ensures
        c == "enew"@ ==> command_kind(c) == CommandKind::EnewUsage,
        c == "inbox"@ ==> command_kind(c) == CommandKind::Inbox,
        c == "in"@ ==> command_kind(c) == CommandKind::Inbox,
        c == "oldest"@ ==> command_kind(c) == CommandKind::Oldest,
        c == "old"@ ==> command_kind(c) == CommandKind::Oldest,
        c == "delete"@ ==> command_kind(c) == CommandKind::Delete,
        c == "d"@ ==> command_kind(c) == CommandKind::Delete,
        c == "settings"@ ==> command_kind(c) == CommandKind::Settings,
        c == "fmt"@ ==> command_kind(c) == CommandKind::Format,
        c == "pub"@ ==> command_kind(c) == CommandKind::Publish,
        c == "publish"@ ==> command_kind(c) == CommandKind::Publish,
        c == "w"@ ==> command_kind(c) == CommandKind::Write,
        c == "wq"@ ==> command_kind(c) == CommandKind::Write,
        c == "x"@ ==> command_kind(c) == CommandKind::Write,
        c == "gp"@ ==> command_kind(c) == CommandKind::Push,
        c == "gl"@ ==> command_kind(c) == CommandKind::Pull,
        c == "setup"@ ==> command_kind(c) == CommandKind::Setup,
        c == "reboot"@ ==> command_kind(c) == CommandKind::Reboot,
        c == "update"@ ==> command_kind(c) == CommandKind::Update,
        c == "about"@ ==> command_kind(c) == CommandKind::About,
        c == "focus"@ ==> command_kind(c) == CommandKind::Focus,
        c == "focusdebug"@ ==> command_kind(c) == CommandKind::FocusDebug,
        crate::text::starts_with(c, "enew "@) ==> command_kind(c) == CommandKind::Enew,
        command_kind(c) == CommandKind::EnewUsage ==> c == "enew"@,
        command_kind(c) == CommandKind::Inbox ==> c == "inbox"@ || c == "in"@,
        command_kind(c) == CommandKind::Oldest ==> c == "oldest"@ || c == "old"@,
        command_kind(c) == CommandKind::Delete ==> c == "delete"@ || c == "d"@,
        command_kind(c) == CommandKind::Settings ==> c == "settings"@,
        command_kind(c) == CommandKind::Format ==> c == "fmt"@,
        command_kind(c) == CommandKind::Publish ==> c == "pub"@ || c == "publish"@,
        command_kind(c) == CommandKind::Write ==> c == "w"@ || c == "wq"@ || c == "x"@,
        command_kind(c) == CommandKind::Push ==> c == "gp"@,
        command_kind(c) == CommandKind::Pull ==> c == "gl"@,
        command_kind(c) == CommandKind::Setup ==> c == "setup"@,
        command_kind(c) == CommandKind::Reboot ==> c == "reboot"@,
        command_kind(c) == CommandKind::Update ==> c == "update"@,
        command_kind(c) == CommandKind::About ==> c == "about"@,
        command_kind(c) == CommandKind::Focus ==> c == "focus"@,
        command_kind(c) == CommandKind::FocusDebug ==> c == "focusdebug"@,
        command_kind(c) == CommandKind::Enew ==> crate::text::starts_with(c, "enew "@),
{
    reveal_strlit("enew");
    reveal_strlit("inbox");
    reveal_strlit("in");
    reveal_strlit("oldest");
    reveal_strlit("old");
    reveal_strlit("delete");
    reveal_strlit("d");
    reveal_strlit("settings");
    reveal_strlit("fmt");
    reveal_strlit("pub");
    reveal_strlit("publish");
    reveal_strlit("w");
    reveal_strlit("wq");
    reveal_strlit("x");
    reveal_strlit("gp");
    reveal_strlit("gl");
    reveal_strlit("setup");
    reveal_strlit("reboot");
    reveal_strlit("update");
    reveal_strlit("about");
    reveal_strlit("focus");
    reveal_strlit("focusdebug");
    reveal_strlit("enew ");
    assert("in"@ =~= seq!['i', 'n']);
    assert("d"@ =~= seq!['d']);
    assert("w"@ =~= seq!['w']);
    assert("wq"@ =~= seq!['w', 'q']);
    assert("x"@ =~= seq!['x']);
    assert("gp"@ =~= seq!['g', 'p']);
    assert("gl"@ =~= seq!['g', 'l']);
    if c.len() >= 5 && c[0] != 'e' {
        assert(c.take(5)[0] != "enew "@[0]);
    }
    if c == "enew"@ {
        assert(c =~= seq!['e', 'n', 'e', 'w']);
    }
    if c == "inbox"@ {
        assert(c =~= seq!['i', 'n', 'b', 'o', 'x']);
    }
    if c == "in"@ {
        assert(c =~= seq!['i', 'n']);
    }
    if c == "oldest"@ {
        assert(c =~= seq!['o', 'l', 'd', 'e', 's', 't']);
    }
    if c == "old"@ {
        assert(c =~= seq!['o', 'l', 'd']);
    }
    if c == "delete"@ {
        assert(c =~= seq!['d', 'e', 'l', 'e', 't', 'e']);
    }
    if c == "d"@ {
        assert(c =~= seq!['d']);
        assert(c[0] == 'd' && "d"@[0] == 'd' && "x"@[0] == 'x');
    }
    if c == "settings"@ {
        assert(c =~= seq!['s', 'e', 't', 't', 'i', 'n', 'g', 's']);
    }
    if c == "fmt"@ {
        assert(c =~= seq!['f', 'm', 't']);
    }
    if c == "pub"@ {
        assert(c =~= seq!['p', 'u', 'b']);
    }
    if c == "publish"@ {
        assert(c =~= seq!['p', 'u', 'b', 'l', 'i', 's', 'h']);
    }
    if c == "w"@ {
        assert(c =~= seq!['w']);
        assert(c[0] == 'w' && "d"@[0] == 'd' && "x"@[0] == 'x');
    }
    if c == "wq"@ {
        assert(c =~= seq!['w', 'q']);
    }
    if c == "x"@ {
        assert(c =~= seq!['x']);
        assert(c[0] == 'x' && "d"@[0] == 'd' && "x"@[0] == 'x');
    }
    if c == "gp"@ {
        assert(c =~= seq!['g', 'p']);
    }
    if c == "gl"@ {
        assert(c =~= seq!['g', 'l']);
    }
    if c == "setup"@ {
        assert(c =~= seq!['s', 'e', 't', 'u', 'p']);
    }
    if c == "reboot"@ {
        assert(c =~= seq!['r', 'e', 'b', 'o', 'o', 't']);
    }
    if c == "update"@ {
        assert(c =~= seq!['u', 'p', 'd', 'a', 't', 'e']);
    }
    if c == "about"@ {
        assert(c =~= seq!['a', 'b', 'o', 'u', 't']);
    }
    if c == "focus"@ {
        assert(c =~= seq!['f', 'o', 'c', 'u', 's']);
    }
    if c == "focusdebug"@ {
        assert(c =~= seq!['f', 'o', 'c', 'u', 's', 'd', 'e', 'b', 'u', 'g']);
    }
}

} // verus!
