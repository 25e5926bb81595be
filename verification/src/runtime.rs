//! The run loop's decisions: what a finished sync settles and says, which
//! rung of the idle sequence runs, when the idle-save may fire, and the
//! snackbar lines for the host's file operations.

use vstd::prelude::*;
use crate::buffers::Scope;
use crate::buffers::REPO_DIR;
use crate::ports::{
    ClockDispatch, ClockOutcome, NetOutcome, PullDispatch, PullIntent, PullOutcome, PushDispatch,
    PushOutcome, SetupDispatch, Unsynced, UpdateDispatch, UpdateOutcome,
};
use crate::text;

verus! {

broadcast use vstd::string::group_string_axioms;

/// The snackbar line of a finished push.
pub open spec fn push_line(o: PushOutcome) -> Seq<char> {
    match o {
        PushOutcome::Pushed(oid) => "synced "@ + oid@,
        PushOutcome::UpToDate => "up to date"@,
        PushOutcome::Failed(reason) => reason@,
    }
}

/// The snackbar line of a finished pull.
pub open spec fn pull_line(o: PullOutcome) -> Seq<char> {
    match o {
        PullOutcome::Pulled(oid) => "pulled "@ + oid@,
        PullOutcome::Rebased(oid) => "rebased "@ + oid@ + " - :gs to push"@,
        PullOutcome::UpToDate => "up to date"@,
        PullOutcome::LocalAhead => "ahead - :gs to push"@,
        PullOutcome::Failed(reason) => reason@,
    }
}

/// The snackbar line for a finished push.
pub fn push_notice(o: &PushOutcome) -> (r: String)
    ensures
        r@ == push_line(*o),
{
    match o {
        PushOutcome::Pushed(oid) => {
            let mut v = text::chars_of("synced ");
            text::extend_str(&mut v, oid.as_str());
            text::string_of(&v)
        },
        PushOutcome::UpToDate => text::string_of(&text::chars_of("up to date")),
        PushOutcome::Failed(reason) => reason.clone(),
    }
}

/// The snackbar line for a finished pull.
pub fn pull_notice(o: &PullOutcome) -> (r: String)
    ensures
        r@ == pull_line(*o),
{
    match o {
        PullOutcome::Pulled(oid) => {
            let mut v = text::chars_of("pulled ");
            text::extend_str(&mut v, oid.as_str());
            text::string_of(&v)
        },
        PullOutcome::Rebased(oid) => {
            let mut v = text::chars_of("rebased ");
            text::extend_str(&mut v, oid.as_str());
            text::extend_str(&mut v, " - :gs to push");
            text::string_of(&v)
        },
        PullOutcome::UpToDate => text::string_of(&text::chars_of("up to date")),
        PullOutcome::LocalAhead => text::string_of(&text::chars_of("ahead - :gs to push")),
        PullOutcome::Failed(reason) => reason.clone(),
    }
}

/// A path's components that name something (Unix rules): the pieces between
/// `/`s, without the empty ones (repeated or trailing separators) and `.`.
pub open spec fn named_components(path: Seq<char>) -> Seq<Seq<char>> {
    text::split(path, '/').filter(|p: Seq<char>| p.len() > 0 && p != seq!['.'])
}

/// `Path::file_name`: the last component, unless there is none or it is `..`.
pub open spec fn path_file_name(path: Seq<char>) -> Option<Seq<char>> {
    let cs = named_components(path);
    if cs.len() == 0 || cs.last() == seq!['.', '.'] {
        None
    } else {
        Some(cs.last())
    }
}

/// `Path::file_stem`: the file name before its final `.`; the whole name when
/// it has no `.` or its only `.` leads it.
pub open spec fn path_file_stem(path: Seq<char>) -> Option<Seq<char>> {
    match path_file_name(path) {
        None => None,
        Some(n) => match text::rfind(n, '.') {
            Some(k) => if k > 0 {
                Some(n.take(k as int))
            } else {
                Some(n)
            },
            None => Some(n),
        },
    }
}

/// `Path::new(path).file_stem()`, as text. Claimed of `std::path` as its
/// documentation gives it on Unix: repeated and trailing separators and
/// non-leading `.` components are normalized away, the file name is the last
/// component unless that is `..` (or there is none), and the stem is that
/// name before its final `.`, or the whole name when it has no `.` past its
/// first char. The stem of a `&str` path is always valid text.
#[verifier::external_body]
fn path_stem(path: &str) -> (r: Option<&str>)
    ensures
        r matches Some(s) ==> path_file_stem(path@) == Some(s@),
        r is None ==> path_file_stem(path@) is None,
{
    std::path::Path::new(path).file_stem().and_then(|s| s.to_str())
}

/// The display name given a path's stem: the stem when there is one, else
/// the raw path.
pub fn stem_or_path<'a>(stem: Option<&'a str>, path: &'a str) -> (r: &'a str)
    ensures
        r@ == match stem {
            Some(s) => s@,
            None => path@,
        },
{
    match stem {
        Some(s) => s,
        None => path,
    }
}

/// A file's display name — its basename without extension
/// (`/sd/repo/notes.md` → `notes`), for the snackbar. Falls back to the raw
/// path if it has no stem.
pub fn file_stem(path: &str) -> (r: &str)
    ensures
        r@ == match path_file_stem(path@) {
            Some(s) => s,
            None => path@,
        },
{
    stem_or_path(path_stem(path), path)
}


/// What the loop does with a background operation's report.
pub struct OutcomePlan {
    /// A progress line: proof of life for the oldest outstanding operation
    /// (its silence deadline restarts).
    pub touch_oldest: bool,
    /// A terminal outcome (not progress, not the slot-less clock sync): the
    /// oldest outstanding operation is settled.
    pub settle_slot: bool,
    /// A pull after a confirmed discard: settle the discarded buffers first.
    pub settle_discarded: bool,
    /// The card changed under the editor: re-read the prefs file.
    pub reload_prefs: bool,
    /// The card changed: walk it again for the palette.
    pub rewalk: bool,
    /// The pull moved the working copy: drop the clean parked buffers and
    /// re-read the clean active one (a RAM-dirty buffer keeps its edits).
    pub refresh_resident: bool,
    /// An update was installed: paint the notice, then restart into it.
    pub reboot: bool,
    /// The notice to show, or `None` when the report settles silently.
    pub notice: Option<String>,
    /// A newer release was found: ask the writer (the Confirm-mode install
    /// prompt naming this version) before anything is downloaded.
    pub prompt_install: Option<String>,
}

/// The pull moved the working copy.
pub open spec fn moved(o: PullOutcome) -> bool {
    o is Pulled || o is Rebased
}

/// The notice of a report (`held_inbox`: an `:inbox` waits on the clock).
pub open spec fn outcome_line(o: NetOutcome, held_inbox: bool) -> Option<Seq<char>> {
    match o {
        NetOutcome::Push(p) => Some(push_line(p)),
        NetOutcome::Pull(p) => Some(pull_line(p)),
        NetOutcome::Update(u) => match u {
            UpdateOutcome::Installed(v) => Some("updated to "@ + v@ + " - restarting..."@),
            UpdateOutcome::UpToDate(v) => Some("firmware up to date ("@ + v@ + ")"@),
            UpdateOutcome::Failed(reason) => Some(reason@),
            UpdateOutcome::Available(_) => None,
        },
        NetOutcome::Clock(c) => match c {
            ClockOutcome::Synced => None,
            ClockOutcome::Failed(reason) => if held_inbox {
                Some(reason@)
            } else {
                None
            },
        },
        NetOutcome::Progress(line) => Some(line@),
    }
}

fn joined3(a: &str, b: &str, c: &str) -> (r: String)
    ensures
        r@ == a@ + b@ + c@,
{
    let mut v = text::chars_of(a);
    text::extend_str(&mut v, b);
    text::extend_str(&mut v, c);
    text::string_of(&v)
}

fn copy(s: &str) -> (r: String)
    ensures
        r@ == s@,
{
    text::string_of(&text::chars_of(s))
}

/// Settle a finished (or progressing) background operation: which slot it
/// frees, what on the card must be re-read, and the notice it leaves. A
/// pull that moved the working copy, or that follows a confirmed discard
/// (`discarded`), changed the card: the prefs are re-read and the card
/// walked again, and a moving pull refreshes the resident buffers. A clock
/// sync settles silently unless it failed while an `:inbox` waited on it
/// (`held_inbox`). A found release asks before installing; an installed
/// update restarts the device.
pub fn outcome_plan(o: &NetOutcome, discarded: bool, held_inbox: bool) -> (r: OutcomePlan)
    ensures
        r.touch_oldest == (*o is Progress),
        r.settle_slot == !(*o is Progress || *o is Clock),
        r.settle_discarded == (*o is Pull && discarded),
        r.reload_prefs == (*o matches NetOutcome::Pull(p) && (moved(p) || discarded)),
        r.rewalk == (*o matches NetOutcome::Pull(p) && (moved(p) || discarded)),
        r.refresh_resident == (*o matches NetOutcome::Pull(p) && moved(p)),
        r.reboot == (*o matches NetOutcome::Update(u) && u is Installed),
        match outcome_line(*o, held_inbox) {
            Some(l) => r.notice matches Some(n) && n@ == l,
            None => r.notice is None,
        },
        match *o {
            NetOutcome::Update(UpdateOutcome::Available(v)) => r.prompt_install matches Some(p)
                && p@ == v@,
            _ => r.prompt_install is None,
        },
{
    let mut plan = OutcomePlan {
        touch_oldest: false,
        settle_slot: true,
        settle_discarded: false,
        reload_prefs: false,
        rewalk: false,
        refresh_resident: false,
        reboot: false,
        notice: None,
        prompt_install: None,
    };
    match o {
        NetOutcome::Push(p) => {
            plan.notice = Some(push_notice(p));
        },
        NetOutcome::Pull(p) => {
            let mv = match p {
                PullOutcome::Pulled(_) | PullOutcome::Rebased(_) => true,
                _ => false,
            };
            plan.settle_discarded = discarded;
            plan.reload_prefs = mv || discarded;
            plan.rewalk = mv || discarded;
            plan.refresh_resident = mv;
            plan.notice = Some(pull_notice(p));
        },
        NetOutcome::Update(u) => {
            plan.notice = match u {
                UpdateOutcome::Installed(v) => {
                    plan.reboot = true;
                    Some(joined3("updated to ", v.as_str(), " - restarting..."))
                },
                UpdateOutcome::UpToDate(v) => Some(joined3("firmware up to date (", v.as_str(), ")")),
                UpdateOutcome::Failed(reason) => Some(copy(reason.as_str())),
                UpdateOutcome::Available(v) => {
                    plan.prompt_install = Some(copy(v.as_str()));
                    None
                },
            };
        },
        NetOutcome::Clock(c) => {
            plan.settle_slot = false;
            plan.notice = match c {
                ClockOutcome::Synced => None,
                ClockOutcome::Failed(reason) => if held_inbox {
                    Some(copy(reason.as_str()))
                } else {
                    None
                },
            };
        },
        NetOutcome::Progress(line) => {
            plan.touch_oldest = true;
            plan.settle_slot = false;
            plan.notice = Some(copy(line.as_str()));
        },
    }
    plan
}

/// How long input must pause before the idle-save persists a dirty buffer.
pub const IDLE_SAVE_MS: u128 = 1500;

/// The idle-save must stand down for an in-flight sync: only a tracked
/// buffer is at risk (a Local note is outside what a pull touches).
pub fn sync_holds_off_save(in_flight: usize, scope: Scope) -> (r: bool)
    ensures
        r == (in_flight > 0 && scope == Scope::Repo),
{
    in_flight > 0 && scope == Scope::Repo
}

/// Whether the idle-save fires: once per idle window, with `save_on_idle`
/// on, not behind the unsynced card nor during a sync that holds it off,
/// for a dirty named buffer, after input has paused long enough.
pub fn idle_save_due(
    already_saved: bool,
    save_on_idle: bool,
    showing_unsynced: bool,
    held_off: bool,
    dirty: bool,
    named: bool,
    idle_ms: u128,
) -> (r: bool)
    ensures
        r == (!already_saved && save_on_idle && !showing_unsynced && !held_off && dirty && named
            && idle_ms >= IDLE_SAVE_MS),
{
    !already_saved && save_on_idle && !showing_unsynced && !held_off && dirty && named && idle_ms
        >= IDLE_SAVE_MS
}

/// The rung of the idle sequence that ends a quiet pass.
#[derive(Debug, Clone, Copy, PartialEq, Eq, Structural)]
pub enum IdleRung {
    /// Focus mode's block is over: drop the rest card.
    Rest,
    /// A settled report: paint its notice.
    ShowNotice,
    /// A settled report behind a full-screen card: it waits.
    Hold,
    /// A finished walk of the card: adopt the file list.
    AdoptFiles,
    /// The keyboard came or went: repaint its flag.
    KeyboardFlag,
    /// The deferred full refresh.
    FullRefresh,
    /// The debounced Insert caret.
    Caret,
    /// Nothing due: yield the CPU briefly.
    Yield,
}

/// The idle sequence's order: the rest card first, then a settled report
/// (held behind a card), a finished walk, a keyboard change, and at the
/// tail the deferred full refresh, the caret, or a yield. The idle-save
/// (decided apart) runs before the tail rungs.
pub open spec fn idle_rung_of(
    rest_due: bool,
    settled: bool,
    behind_card: bool,
    files_ready: bool,
    kbd_changed: bool,
    full_due: bool,
    caret_due: bool,
) -> IdleRung {
    if rest_due {
        IdleRung::Rest
    } else if settled {
        if behind_card {
            IdleRung::Hold
        } else {
            IdleRung::ShowNotice
        }
    } else if files_ready {
        IdleRung::AdoptFiles
    } else if kbd_changed {
        IdleRung::KeyboardFlag
    } else if full_due {
        IdleRung::FullRefresh
    } else if caret_due {
        IdleRung::Caret
    } else {
        IdleRung::Yield
    }
}

/// Which rung of the idle sequence a quiet pass runs (see [`idle_rung_of`]).
pub fn idle_rung(
    rest_due: bool,
    settled: bool,
    behind_card: bool,
    files_ready: bool,
    kbd_changed: bool,
    full_due: bool,
    caret_due: bool,
) -> (r: IdleRung)
    ensures
        r == idle_rung_of(rest_due, settled, behind_card, files_ready, kbd_changed, full_due, caret_due),
{
    if rest_due {
        IdleRung::Rest
    } else if settled {
        if behind_card {
            IdleRung::Hold
        } else {
            IdleRung::ShowNotice
        }
    } else if files_ready {
        IdleRung::AdoptFiles
    } else if kbd_changed {
        IdleRung::KeyboardFlag
    } else if full_due {
        IdleRung::FullRefresh
    } else if caret_due {
        IdleRung::Caret
    } else {
        IdleRung::Yield
    }
}

/// A path as the snackbar names it: `/sd/` dropped.
pub open spec fn card_label(path: Seq<char>) -> Seq<char> {
    crate::palette::label_of(path)
}

/// The snackbar after `:pub`'s rename and link rewrites on the card.
pub open spec fn publish_line(to: Seq<char>, renamed: bool, links: nat) -> Seq<char> {
    if !renamed {
        "publish FAILED - retry :w"@
    } else if links > 0 {
        "published "@ + card_label(to) + " +"@ + text::dec(links) + " link"@ + (if links == 1 {
            Seq::empty()
        } else {
            "s"@
        }) + " - :gs to push"@
    } else {
        "published "@ + card_label(to) + " - :gs to push"@
    }
}

/// The snackbar after `:pub`: failed (the buffer stays dirty for a retry),
/// or the published name with the number of links rewritten elsewhere.
pub fn publish_notice(to: &str, renamed: bool, links: usize) -> (r: String)
    ensures
        r@ == publish_line(to@, renamed, links as nat),
{
    if !renamed {
        return copy("publish FAILED - retry :w");
    }
    let label = crate::palette::palette_label(to);
    let mut v = text::chars_of("published ");
    text::extend_str(&mut v, label);
    if links > 0 {
        text::extend_str(&mut v, " +");
        text::push_dec(&mut v, links);
        text::extend_str(&mut v, " link");
        if links != 1 {
            text::extend_str(&mut v, "s");
        }
    }
    text::extend_str(&mut v, " - :gs to push");
    text::string_of(&v)
}

/// The snackbar after unlinking a file: which file left the card and, for a
/// tracked one, that it is only local until pushed; or the failure.
pub open spec fn delete_line(path: Seq<char>, scope: Scope, ok: bool) -> Seq<char> {
    if ok {
        match scope {
            Scope::Repo => "deleted "@ + card_label(path) + " - :gs to push"@,
            Scope::Local => "deleted "@ + card_label(path),
        }
    } else {
        "delete FAILED: "@ + card_label(path)
    }
}

/// The snackbar after the host unlinked (or failed to unlink) `path`.
pub fn delete_notice(path: &str, scope: Scope, ok: bool) -> (r: String)
    ensures
        r@ == delete_line(path@, scope, ok),
{
    let label = crate::palette::palette_label(path);
    if !ok {
        let mut v = text::chars_of("delete FAILED: ");
        text::extend_str(&mut v, label);
        return text::string_of(&v);
    }
    let mut v = text::chars_of("deleted ");
    text::extend_str(&mut v, label);
    if scope == Scope::Repo {
        text::extend_str(&mut v, " - :gs to push");
    }
    text::string_of(&v)
}

// ---------------------------------------------------------------------------
// Handing effects to the ports
// ---------------------------------------------------------------------------

/// What the loop does once a push or an update has been handed to the net
/// thread.
pub struct DispatchStep {
    /// The operation is in flight: raise its panel flag and hold its slot
    /// until the outcome lands.
    pub in_flight: bool,
    /// The snackbar line.
    pub notice: String,
}

/// After `:gp` was handed over: in flight with "syncing...", or the thread
/// is gone and nothing will report back.
pub fn push_dispatched(d: &PushDispatch) -> (r: DispatchStep)
    ensures
        r.in_flight == (*d is Dispatched),
        r.notice@ == (if *d is Dispatched {
            "syncing..."@
        } else {
            "sync: git thread down"@
        }),
{
    match d {
        PushDispatch::Dispatched => DispatchStep { in_flight: true, notice: copy("syncing...") },
        PushDispatch::ThreadDown => DispatchStep {
            in_flight: false,
            notice: copy("sync: git thread down"),
        },
    }
}

/// After the firmware check (or install) was handed over: in flight with
/// "checking for update...", or the thread is gone.
pub fn update_dispatched(d: &UpdateDispatch) -> (r: DispatchStep)
    ensures
        r.in_flight == (*d is Dispatched),
        r.notice@ == (if *d is Dispatched {
            "checking for update..."@
        } else {
            "update: git thread down"@
        }),
{
    match d {
        UpdateDispatch::Dispatched => DispatchStep {
            in_flight: true,
            notice: copy("checking for update..."),
        },
        UpdateDispatch::ThreadDown => DispatchStep {
            in_flight: false,
            notice: copy("update: git thread down"),
        },
    }
}

/// What the loop does once the clock-only sync was handed over.
pub struct ClockStep {
    /// Nothing will report back: drop the `:inbox` held for the date, or
    /// the hold would never end.
    pub release_inbox: bool,
    /// The snackbar line.
    pub notice: String,
}

/// After the clock sync was handed over. It holds no sync slot (the writer
/// keeps typing and the held `:inbox` opens itself when the date lands);
/// with the thread gone the held `:inbox` is released.
pub fn clock_dispatched(d: &ClockDispatch) -> (r: ClockStep)
    ensures
        r.release_inbox == (*d is ThreadDown),
        r.notice@ == (if *d is Dispatched {
            "inbox: setting the clock..."@
        } else {
            "clock: net thread down"@
        }),
{
    match d {
        ClockDispatch::Dispatched => ClockStep {
            release_inbox: false,
            notice: copy("inbox: setting the clock..."),
        },
        ClockDispatch::ThreadDown => ClockStep {
            release_inbox: true,
            notice: copy("clock: net thread down"),
        },
    }
}

/// What the loop does once `:setup` was prepared.
pub struct SetupStep {
    /// The marker is written: paint the notice, then restart into the
    /// boot-time wizard.
    pub reboot: bool,
    /// The snackbar line.
    pub notice: String,
}

/// After preparing `:setup`: restart with "opening setup - restarting...",
/// or stay put when the marker could not be saved.
pub fn setup_dispatched(d: &SetupDispatch) -> (r: SetupStep)
    ensures
        r.reboot == (*d is Ready),
        r.notice@ == (if *d is Ready {
            "opening setup - restarting..."@
        } else {
            "setup: could not save marker"@
        }),
{
    match d {
        SetupDispatch::Ready => SetupStep {
            reboot: true,
            notice: copy("opening setup - restarting..."),
        },
        SetupDispatch::MarkerFailed => SetupStep {
            reboot: false,
            notice: copy("setup: could not save marker"),
        },
    }
}

/// The clue painted before a publish's rename and card-wide link rewrite,
/// which are slow enough to read as a frozen panel.
pub fn rename_clue() -> (r: String)
    ensures
        r@ == "publishing..."@,
{
    copy("publishing...")
}

/// The card path of a file the dirty journal names (relative to the repo).
pub open spec fn journal_path(u: Unsynced) -> Seq<char> {
    crate::buffers::repo_dir() + crate::buffers::slash() + u.path@
}

/// The files a pull is about to roll back: for a confirmed discard, every
/// path the writer was shown, on the card; otherwise none. They are recorded
/// before dispatching so that their resident buffers are settled when the
/// outcome lands.
pub fn discard_paths(intent: PullIntent, unsynced: &Vec<Unsynced>) -> (r: Vec<String>)
    ensures
        intent == PullIntent::Discard ==> r@.len() == unsynced@.len() && forall|i: int|
            0 <= i < r@.len() ==> #[trigger] r@[i]@ == journal_path(unsynced@[i]),
        intent != PullIntent::Discard ==> r@.len() == 0,
{
    let mut out: Vec<String> = Vec::new();
    if intent != PullIntent::Discard {
        return out;
    }
    proof {
        reveal_strlit("/sd/repo");
        reveal_strlit("/");
        assert(REPO_DIR@ =~= crate::buffers::repo_dir());
        assert("/"@ =~= crate::buffers::slash());
    }
    let mut i: usize = 0;
    while i < unsynced.len()
        invariant
            i <= unsynced@.len(),
            out@.len() == i,
            REPO_DIR@ == crate::buffers::repo_dir(),
            "/"@ == crate::buffers::slash(),
            forall|j: int| 0 <= j < i ==> #[trigger] out@[j]@ == journal_path(unsynced@[j]),
        decreases unsynced@.len() - i,
    {
        let line = joined3(REPO_DIR, "/", unsynced[i].path.as_str());
        out.push(line);
        i = i + 1;
    }
    out
}

/// What the loop does once a pull was handed over.
pub struct PullStep {
    /// In flight: raise the sync flag and hold the slot.
    pub in_flight: bool,
    /// The paths a discard rolls back, kept for the outcome to settle.
    pub pending: Vec<String>,
    /// The unsynced card to raise, naming the unpushed saves, when the pull
    /// asked first instead of dispatching.
    pub confirm: Option<Vec<Unsynced>>,
    /// The snackbar line, when there is one.
    pub notice: Option<String>,
}

/// After `:gl` was handed over (`pending`: the paths recorded for a
/// discard). Dispatched: "pulling...", the paths kept for the outcome.
/// Unpushed saves: no dispatch, the card names them and its answer queues
/// the pull again. Thread down: nothing will report back, so the recorded
/// paths are dropped.
pub fn pull_dispatched(d: PullDispatch, pending: Vec<String>) -> (r: PullStep)
    ensures
        r.in_flight == (d is Dispatched),
        r.pending@ == (if d is ThreadDown {
            Seq::<String>::empty()
        } else {
            pending@
        }),
        match d {
            PullDispatch::NeedsConfirm(files) => r.confirm == Some(files),
            _ => r.confirm is None,
        },
        match d {
            PullDispatch::Dispatched => r.notice matches Some(n) && n@ == "pulling..."@,
            PullDispatch::NeedsConfirm(_) => r.notice is None,
            PullDispatch::ThreadDown => r.notice matches Some(n) && n@
                == "pull: git thread down"@,
        },
{
    match d {
        PullDispatch::Dispatched => PullStep {
            in_flight: true,
            pending: pending,
            confirm: None,
            notice: Some(copy("pulling...")),
        },
        PullDispatch::NeedsConfirm(files) => PullStep {
            in_flight: false,
            pending: pending,
            confirm: Some(files),
            notice: None,
        },
        PullDispatch::ThreadDown => PullStep {
            in_flight: false,
            pending: Vec::new(),
            confirm: None,
            notice: Some(copy("pull: git thread down")),
        },
    }
}

/// The text a link insertion titles itself from: the target's contents when
/// the card read succeeded, else none (the link falls back to the filename).
pub fn link_target_text(read: Result<String, anyhow::Error>) -> (r: Option<String>)
    ensures
        match read {
            Ok(t) => r == Some(t),
            Err(_) => r is None,
        },
{
    match read {
        Ok(t) => Some(t),
        Err(_) => None,
    }
}

} // verus!
