//! The in-flight phases a long network operation reports to the panel, and
//! the one place that turns a phase into a line.

use vstd::prelude::*;
use crate::text;

verus! {

broadcast use vstd::string::group_string_axioms;

/// A phase of a network operation, in flight. Counted variants carry raw
/// libgit2/HTTP numbers; [`label`](Phase::label) decides how they read.
pub enum Phase {
    JoiningWifi,
    SettingClock,
    VerifyingTls,
    /// The ref advertisement — "has origin anything new?".
    ContactingOrigin,
    /// libgit2's pack build, ahead of the first byte sent.
    Packing { current: usize, total: usize },
    /// Pack bytes going out to origin.
    Sending { current: usize, total: usize },
    /// Objects coming in.
    Downloading { current: usize, total: usize },
    /// Origin moved under our push: a fetch, a replay, a second handshake.
    Retrying,
    /// Replanting local commits onto origin.
    Rebasing,
    /// Working-copy writes.
    WritingFiles,
    /// OTA image bytes into the inactive slot; `kb` landed so far.
    InstallingImage { kb: usize },
}

/// `verb current/total`, degrading as the total becomes known: `verb
/// current` while the total is 0, and just `verb` before anything counted.
pub open spec fn counted(verb: Seq<char>, current: nat, total: nat) -> Seq<char> {
    if total > 0 {
        verb + seq![' '] + text::dec(current) + seq!['/'] + text::dec(total)
    } else if current > 0 {
        verb + seq![' '] + text::dec(current)
    } else {
        verb
    }
}

/// The panel line of a phase.
pub open spec fn phase_label(p: Phase) -> Seq<char> {
    match p {
        Phase::JoiningWifi => "joining wi-fi"@,
        Phase::SettingClock => "setting the clock"@,
        Phase::VerifyingTls => "verifying tls"@,
        Phase::ContactingOrigin => "contacting origin"@,
        Phase::Packing { current, total } => counted("packing"@, current as nat, total as nat),
        Phase::Sending { current, total } => counted("sending"@, current as nat, total as nat),
        Phase::Downloading { current, total } => counted(
            "downloading"@,
            current as nat,
            total as nat,
        ),
        Phase::Retrying => "origin moved - retrying"@,
        Phase::Rebasing => "rebasing"@,
        Phase::WritingFiles => "writing files"@,
        Phase::InstallingImage { kb } => "installing "@ + text::dec(kb as nat) + " KB"@,
    }
}

/// `verb current/total`, degrading as the total becomes known.
pub fn count(verb: &str, current: usize, total: usize) -> (r: String)
    ensures
        r@ == counted(verb@, current as nat, total as nat),
{
    let mut v = text::chars_of(verb);
    if total > 0 {
        v.push(' ');
        text::push_dec(&mut v, current);
        v.push('/');
        text::push_dec(&mut v, total);
    } else if current > 0 {
        v.push(' ');
        text::push_dec(&mut v, current);
    }
    text::string_of(&v)
}

fn literal(s: &str) -> (r: String)
    ensures
        r@ == s@,
{
    text::string_of(&text::chars_of(s))
}

impl Phase {
    /// The panel line for this phase: lowercase and short, for the side-panel
    /// notice.
    pub fn label(&self) -> (r: String)
        ensures
            r@ == phase_label(*self),
    {
        match self {
            Phase::JoiningWifi => literal("joining wi-fi"),
            Phase::SettingClock => literal("setting the clock"),
            Phase::VerifyingTls => literal("verifying tls"),
            Phase::ContactingOrigin => literal("contacting origin"),
            Phase::Packing { current, total } => count("packing", *current, *total),
            Phase::Sending { current, total } => count("sending", *current, *total),
            Phase::Downloading { current, total } => count("downloading", *current, *total),
            Phase::Retrying => literal("origin moved - retrying"),
            Phase::Rebasing => literal("rebasing"),
            Phase::WritingFiles => literal("writing files"),
            Phase::InstallingImage { kb } => {
                let mut v = text::chars_of("installing ");
                text::push_dec(&mut v, *kb);
                text::extend_str(&mut v, " KB");
                text::string_of(&v)
            },
        }
    }
}

} // verus!
