//! The full-screen modal cards' keys: the confirmation prompt of a
//! destructive command, the focus-mode rest card, and the paged help card.

use vstd::prelude::*;
use vstd::string::*;
use crate::palette::Key;

verus! {

/// A destructive command waiting for `y`.
#[derive(Debug, Clone, Copy, PartialEq, Eq, Structural)]
pub enum Confirm {
    /// `:delete` — unlink the current file from the card.
    Delete,
    /// `:reboot` — restart the device.
    Reboot,
    /// `:setup` — reboot into the onboarding wizard.
    Setup,
    /// `:update` — install a firmware update over the air.
    Update,
    /// `:gl` with unpushed saves — commit them locally, then pull.
    PullCommit,
}

/// How a confirmation prompt ends.
#[derive(Debug, Clone, Copy, PartialEq, Eq, Structural)]
pub enum Confirmed {
    /// `y`/`Y`: run what was waiting (nothing when nothing was).
    Proceed(Option<Confirm>),
    /// Any other key: cancelled, with the notice naming what was.
    Cancelled(Option<Confirm>),
}

/// The notice a cancelled prompt leaves.
pub open spec fn cancel_notice(what: Option<Confirm>) -> Seq<char> {
    match what {
        Some(Confirm::Reboot) => "reboot cancelled"@,
        Some(Confirm::Setup) => "setup cancelled"@,
        Some(Confirm::Update) => "update cancelled"@,
        Some(Confirm::PullCommit) => "pull cancelled"@,
        _ => "delete cancelled"@,
    }
}

/// A key on the confirmation prompt: `y` or `Y` proceeds with what was
/// waiting, anything else cancels it. Either way the prompt is over (back
/// to Normal).
pub fn confirm_key(what: Option<Confirm>, key: Key) -> (r: Confirmed)
    ensures
        r == if key == Key::Char('y') || key == Key::Char('Y') {
            Confirmed::Proceed(what)
        } else {
            Confirmed::Cancelled(what)
        },
{
    if key == Key::Char('y') || key == Key::Char('Y') {
        Confirmed::Proceed(what)
    } else {
        Confirmed::Cancelled(what)
    }
}

/// The notice of a cancelled prompt (`reboot cancelled`, ...).
pub fn cancelled_notice(what: Option<Confirm>) -> (r: &'static str)
    ensures
        r@ == cancel_notice(what),
{
    match what {
        Some(Confirm::Reboot) => "reboot cancelled",
        Some(Confirm::Setup) => "setup cancelled",
        Some(Confirm::Update) => "update cancelled",
        Some(Confirm::PullCommit) => "pull cancelled",
        _ => "delete cancelled",
    }
}

/// What a key on the rest card does.
#[derive(Debug, Clone, Copy, PartialEq, Eq, Structural)]
pub enum RestAction {
    /// Swallowed: nothing is edited behind the card.
    Swallow,
    /// Start the next focus block (back to Normal).
    Continue,
    /// End focus mode (back to Normal).
    Quit,
}

/// A key on the focus-mode rest card: only the continue and quit keys do
/// anything.
pub fn rest_key(key: Key) -> (r: RestAction)
    ensures
        r == match key {
            Key::FocusContinue => RestAction::Continue,
            Key::FocusQuit => RestAction::Quit,
            _ => RestAction::Swallow,
        },
{
    match key {
        Key::FocusContinue => RestAction::Continue,
        Key::FocusQuit => RestAction::Quit,
        _ => RestAction::Swallow,
    }
}

/// A key on the help card of `pages` pages showing `page`: the next page
/// (`Some` of it) for space, `j`, `n` or `Ctrl-n`, the previous for `k`,
/// `p` or `Ctrl-p` (both stop at the ends), `None` to leave for Enter, `q`
/// or Esc; any other key keeps the page.
pub fn help_key(page: usize, pages: usize, key: Key) -> (r: Option<usize>)
    requires
        pages > 0,
    ensures
        r == match key {
            Key::Enter | Key::Escape | Key::Char('q') => None,
            Key::Char(' ') | Key::Char('j') | Key::Char('n') | Key::Down => Some(
                if page + 1 < pages {
                    (page + 1) as usize
                } else {
                    (pages - 1) as usize
                },
            ),
            Key::Char('k') | Key::Char('p') | Key::Up => Some(
                if page >= 1 {
                    (page - 1) as usize
                } else {
                    0
                },
            ),
            _ => Some(page),
        },
{
    match key {
        Key::Enter | Key::Escape | Key::Char('q') => None,
        Key::Char(' ') | Key::Char('j') | Key::Char('n') | Key::Down => {
            if page < pages - 1 {
                Some(page + 1)
            } else {
                Some(pages - 1)
            }
        },
        Key::Char('k') | Key::Char('p') | Key::Up => {
            if page >= 1 {
                Some(page - 1)
            } else {
                Some(0)
            }
        },
        _ => Some(page),
    }
}


/// How a request for a destructive command is answered.
pub enum Request {
    /// Raise the y/n prompt for it, with this text.
    Prompt(Confirm, String),
    /// Refused up front, with this notice.
    Refused(String),
}

fn owned(s: &str) -> (r: String)
    ensures
        r@ == s@,
{
    crate::text::string_of(crate::text::chars_of(s).as_slice())
}

/// `:setup`: behind a prompt, and refused while any buffer is unsaved (the
/// wizard reboots, dropping what is only in RAM).
pub fn request_setup(any_dirty: bool) -> (r: Request)
    ensures
        any_dirty ==> (r matches Request::Refused(n) && n@ == "unsaved changes - :w first"@),
        !any_dirty ==> (r matches Request::Prompt(c, t) && c == Confirm::Setup && t@
            == "reopen setup? y/n"@),
{
    if any_dirty {
        Request::Refused(owned("unsaved changes - :w first"))
    } else {
        Request::Prompt(Confirm::Setup, owned("reopen setup? y/n"))
    }
}

/// `:reboot`: behind a prompt, and refused while an unnamed buffer is dirty
/// (it has nowhere to be saved); named dirty buffers are saved on `y`.
pub fn request_reboot(unnamed_dirty: bool) -> (r: Request)
    ensures
        unnamed_dirty ==> (r matches Request::Refused(n) && n@
            == "unnamed buffer - name it first"@),
        !unnamed_dirty ==> (r matches Request::Prompt(c, t) && c == Confirm::Reboot && t@
            == "reboot? y/n"@),
{
    if unnamed_dirty {
        Request::Refused(owned("unnamed buffer - name it first"))
    } else {
        Request::Prompt(Confirm::Reboot, owned("reboot? y/n"))
    }
}

/// `:update`: behind a prompt, and refused while any buffer is unsaved (the
/// install ends in a reboot).
pub fn request_update(any_dirty: bool) -> (r: Request)
    ensures
        any_dirty ==> (r matches Request::Refused(n) && n@ == "unsaved changes - :w first"@),
        !any_dirty ==> (r matches Request::Prompt(c, t) && c == Confirm::Update && t@
            == "check for firmware update? y/n"@),
{
    if any_dirty {
        Request::Refused(owned("unsaved changes - :w first"))
    } else {
        Request::Prompt(Confirm::Update, owned("check for firmware update? y/n"))
    }
}

/// `:delete`: behind a prompt naming the file; refused for an unnamed buffer.
pub fn request_delete(path: &str) -> (r: Request)
    ensures
        path@.len() == 0 ==> (r matches Request::Refused(n) && n@ == "no file to delete"@),
        path@.len() > 0 ==> (r matches Request::Prompt(c, t) && c == Confirm::Delete && t@
            == "delete "@ + crate::palette::label_of(path@) + "? y/n"@),
{
    if path.unicode_len() == 0 {
        return Request::Refused(owned("no file to delete"));
    }
    let mut v = crate::text::chars_of("delete ");
    crate::text::extend_str(&mut v, crate::palette::palette_label(path));
    crate::text::extend_str(&mut v, "? y/n");
    Request::Prompt(Confirm::Delete, crate::text::string_of(v.as_slice()))
}

} // verus!
