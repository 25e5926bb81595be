//! Application ports — the frontiers the run loop depends on — and the
//! battery gauge.
//!
//! Each trait is a contract the application layer needs and the outer firmware
//! layer fulfils; the outcome enums are the git-free shapes the sync backend
//! reports in.

use vstd::prelude::*;

verus! {

#[verifier::external_type_specification]
#[verifier::external_body]
pub struct ExAnyhowError(anyhow::Error);

/// A path in the dirty journal: saved on the card but not yet pushed.
/// `path` is relative to the repo root.
pub struct Unsynced {
    pub path: String,
}

/// What a `:gl` asks of the backend.
#[derive(Clone, Copy, PartialEq, Eq, Debug, Structural)]
pub enum PullIntent {
    /// A bare `:gl`: if the dirty journal is non-empty, don't dispatch — ask.
    Ask,
    /// Fold the journal into a local commit, then pull.
    Commit,
    /// Roll the journal's paths back to their last-synced state, then pull.
    Discard,
}

/// Durable storage of buffers on the card — the byte-level file operations the
/// loop performs.
pub trait Storage {
    /// Atomically write `contents` to `path`. Errors are surfaced, not fatal.
    fn save_path(&self, path: &str, contents: &str) -> Result<(), anyhow::Error>;

    /// Read `path` from the card.
    fn load_path(&self, path: &str) -> Result<String, anyhow::Error>;

    /// Unlink `path` from the card.
    fn delete_path(&self, path: &str) -> Result<(), anyhow::Error>;

    /// Record the active file, for the `open_last_on_boot` resume marker.
    fn record_last_file(&self, path: &str);
}

/// What dispatching a push (`:gs`) did.
pub enum PushDispatch {
    /// Handed to the sync backend; the result arrives later.
    Dispatched,
    /// The backend is gone (thread down); nothing will report back.
    ThreadDown,
}

/// What dispatching a pull (`:gl`) did.
pub enum PullDispatch {
    Dispatched,
    /// The dirty journal is non-empty, so a bare [`PullIntent::Ask`] didn't
    /// dispatch; carries the journal's paths so the UI can name them.
    NeedsConfirm(Vec<Unsynced>),
    ThreadDown,
}

/// What dispatching either half of a firmware update did.
pub enum UpdateDispatch {
    Dispatched,
    ThreadDown,
}

/// What dispatching a clock-only sync did.
pub enum ClockDispatch {
    Dispatched,
    ThreadDown,
}

/// A completed push.
pub enum PushOutcome {
    /// Pushed a new commit — the short oid.
    Pushed(String),
    UpToDate,
    /// Failed — a ready-to-show reason string.
    Failed(String),
}

/// A completed pull.
pub enum PullOutcome {
    Pulled(String),
    Rebased(String),
    UpToDate,
    LocalAhead,
    Failed(String),
}

/// A completed half of a firmware update.
pub enum UpdateOutcome {
    /// The check found a newer release (its version).
    Available(String),
    /// A newer image was written and is now the boot target (its version).
    Installed(String),
    /// Already the newest release (the running version).
    UpToDate(String),
    /// A short reason for the panel.
    Failed(String),
}

/// A completed clock-only sync.
pub enum ClockOutcome {
    Synced,
    Failed(String),
}

/// The outcome of a finished background operation on the radio-owning thread.
pub enum NetOutcome {
    Push(PushOutcome),
    Pull(PullOutcome),
    Update(UpdateOutcome),
    Clock(ClockOutcome),
    /// A short status line from an operation still in flight.
    Progress(String),
}

/// Everything the radio-owning background thread does: push/pull, firmware
/// update, and the clock-only sync. Fire-and-forget dispatch; results come
/// back through [`poll_outcome`](NetService::poll_outcome).
pub trait NetService {
    fn push(&self) -> PushDispatch;

    fn pull(&self, intent: PullIntent) -> PullDispatch;

    fn sync_clock(&self) -> ClockDispatch;

    fn check_update(&self) -> UpdateDispatch;

    fn install_update(&self, version: String) -> UpdateDispatch;

    fn poll_outcome(&self) -> Option<NetOutcome>;
}

/// What preparing a `:setup` reboot did.
pub enum SetupDispatch {
    /// Marker written; the caller paints the notice, then reboots.
    Ready,
    /// Could not persist the setup marker — stay put and report it.
    MarkerFailed,
}

/// Platform lifecycle: the device restart, and preparing a reboot-into-setup.
pub trait System {
    /// Prepare a `:setup` reboot (persist the boot marker).
    fn prepare_setup(&self) -> SetupDispatch;

    /// Restart the device; the call does not come back (the machine boots
    /// afresh).
    fn reboot(&self);
}

/// What the power hardware has to say this pass.
#[derive(Debug, Clone, Copy, PartialEq, Eq, Structural)]
pub enum PowerEvent {
    /// The power switch was flipped to off.
    SwitchedOff,
    /// The cell just fell under the warn threshold.
    Low,
    /// The cell is nearly flat; the loop shuts down as on `SwitchedOff`.
    Critical,
}

/// The power hardware: the power switch and the charger.
pub trait Power {
    /// Poll the switch and (on its own schedule) the charger. Returns at most
    /// one event per pass; the loop calls this every iteration, so it must
    /// never block for longer than a keystroke can wait.
    fn poll(&mut self) -> Option<PowerEvent>;

    /// Cut the rails and stop. The machine comes back only through a fresh
    /// boot, so the caller must already have saved and painted.
    fn power_off(&mut self);
}

/// The palette's background file index.
pub trait FileIndex {
    /// Spawn a fresh walk.
    fn request_rewalk(&self);

    /// A finished walk's newline-joined path blob, if one is ready.
    fn poll_result(&self) -> Option<String>;
}

/// Cell internal resistance, used to back out the IR drop while charging.
pub const CELL_MILLIOHMS: u32 = 100;

/// Resting open-circuit voltage (mV) against state of charge (%) for a single
/// LiPo cell, highest first; interpolated between the points.
pub const SOC_CURVE: [(u16, u8); 16] = [
    (4150, 100),
    (4100, 95),
    (4050, 90),
    (4000, 85),
    (3950, 78),
    (3900, 70),
    (3850, 62),
    (3800, 55),
    (3750, 47),
    (3700, 40),
    (3650, 32),
    (3600, 25),
    (3550, 18),
    (3500, 12),
    (3400, 5),
    (3300, 0),
];

/// The charge curve as a sequence.
pub open spec fn soc_curve() -> Seq<(u16, u8)> {
    seq![
        (4150u16, 100u8),
        (4100u16, 95u8),
        (4050u16, 90u8),
        (4000u16, 85u8),
        (3950u16, 78u8),
        (3900u16, 70u8),
        (3850u16, 62u8),
        (3800u16, 55u8),
        (3750u16, 47u8),
        (3700u16, 40u8),
        (3650u16, 32u8),
        (3600u16, 25u8),
        (3550u16, 18u8),
        (3500u16, 12u8),
        (3400u16, 5u8),
        (3300u16, 0u8),
    ]
}

/// The resting voltage: while charging, the terminal voltage less the IR drop
/// `ichg × r` (saturating at 0).
pub open spec fn resting_mv(vbat_mv: u16, ichg_ma: u16, charging: bool) -> nat {
    if charging {
        let drop = (ichg_ma as nat) * (CELL_MILLIOHMS as nat) / 1000;
        if vbat_mv as nat >= drop {
            (vbat_mv as nat - drop) as nat
        } else {
            0
        }
    } else {
        vbat_mv as nat
    }
}

/// Linear interpolation on segment `k` (between points `k` and `k + 1`).
pub open spec fn segment_pct(r: nat, k: int) -> nat {
    let hi = soc_curve()[k];
    let lo = soc_curve()[k + 1];
    let span = (hi.0 - lo.0) as nat;
    (lo.1 as nat + (r - lo.0) as nat * ((hi.1 - lo.1) as nat) / span) as nat
}

/// State of charge for resting voltage `r`, scanning the segments from
/// segment `k` down.
pub open spec fn soc_from(r: nat, k: int) -> nat
    decreases 15 - k,
{
    if k < 0 || k >= 15 {
        0
    } else if r >= soc_curve()[k + 1].0 {
        if segment_pct(r, k) <= 100 {
            segment_pct(r, k)
        } else {
            100
        }
    } else {
        soc_from(r, k + 1)
    }
}

/// State of charge (%) for a resting voltage.
pub open spec fn soc_of_resting(r: nat) -> nat {
    if r >= 4150 {
        100
    } else {
        soc_from(r, 0)
    }
}

/// State of charge from the cell's terminal voltage.
///
/// A voltage gauge, not a coulomb counter: the curve is written against the
/// resting voltage, so while charging the IR drop through the cell's own
/// resistance is backed out first. Discharge is left uncorrected.
pub fn state_of_charge(vbat_mv: u16, ichg_ma: u16, charging: bool) -> (r: u8)
    ensures
        r as nat == soc_of_resting(resting_mv(vbat_mv, ichg_ma, charging)),
{
    let resting: u16 = if charging {
        let drop = (ichg_ma as u32 * CELL_MILLIOHMS / 1000) as u16;
        vbat_mv.saturating_sub(drop)
    } else {
        vbat_mv
    };
    let curve = SOC_CURVE;
    assert(curve@ == soc_curve());
    if resting >= curve[0].0 {
        return curve[0].1;
    }
    let mut k: usize = 0;
    while k < 15
        invariant
            k <= 15,
            curve@ == soc_curve(),
            resting as nat == resting_mv(vbat_mv, ichg_ma, charging),
            soc_of_resting(resting as nat) == soc_from(resting as nat, k as int),
        decreases 15 - k,
    {
        let (hi_mv, hi_pct) = curve[k];
        let (lo_mv, lo_pct) = curve[k + 1];
        if resting >= lo_mv {
            let span = (hi_mv - lo_mv) as u32;
            let into = (resting - lo_mv) as u32;
            let diff = (hi_pct - lo_pct) as u32;
            assert(into * diff <= 65535 * 255) by (nonlinear_arith)
                requires
                    into <= 65535,
                    diff <= 255,
            ;
            let pct = lo_pct as u32 + into * (hi_pct - lo_pct) as u32 / span;
            return if pct <= 100 {
                pct as u8
            } else {
                100
            };
        }
        k += 1;
    }
    0
}

proof fn lemma_segment_bounds(r1: nat, r2: nat, k: int)
    requires
        0 <= k < 15,
        soc_curve()[k + 1].0 <= r1 <= r2,
        r2 <= soc_curve()[k].0,
    ensures
        soc_curve()[k + 1].1 <= segment_pct(r1, k) <= segment_pct(r2, k) <= soc_curve()[k].1,
{
    let hi = soc_curve()[k];
    let lo = soc_curve()[k + 1];
    assert(hi.0 > lo.0 && hi.1 >= lo.1);
    let span = (hi.0 - lo.0) as nat;
    let d = (hi.1 - lo.1) as nat;
    let x1 = (r1 - lo.0) as nat;
    let x2 = (r2 - lo.0) as nat;
    assert(x1 * d <= x2 * d) by (nonlinear_arith)
        requires
            x1 <= x2,
    ;
    assert(x2 * d <= span * d) by (nonlinear_arith)
        requires
            x2 <= span,
    ;
    vstd::arithmetic::div_mod::lemma_div_is_ordered((x1 * d) as int, (x2 * d) as int, span as int);
    vstd::arithmetic::div_mod::lemma_div_is_ordered((x2 * d) as int, (span * d) as int, span as int);
    vstd::arithmetic::div_mod::lemma_div_multiples_vanish(d as int, span as int);
    assert(span * d == d * span) by (nonlinear_arith);
}

/// `soc_from` finds the segment holding `r`.
proof fn lemma_soc_from(r: nat, k: int, m: int)
    requires
        0 <= k <= m < 15,
        soc_curve()[m + 1].0 <= r < soc_curve()[m].0,
    ensures
        soc_from(r, k) == segment_pct(r, m),
    decreases m - k,
{
    lemma_segment_bounds(r, r, m);
    if k < m {
        assert(r < soc_curve()[k + 1].0);
        lemma_soc_from(r, k + 1, m);
    }
}

proof fn lemma_soc_below(r: nat, k: int)
    requires
        0 <= k <= 15,
        r < 3300,
    ensures
        soc_from(r, k) == 0,
    decreases 15 - k,
{
    if k < 15 {
        lemma_soc_below(r, k + 1);
    }
}

/// The segment holding resting voltage `r` (below the top point and at or
/// above the bottom one).
spec fn segment_of(r: nat) -> int {
    if r >= 4100 {
        0
    } else if r >= 4050 {
        1
    } else if r >= 4000 {
        2
    } else if r >= 3950 {
        3
    } else if r >= 3900 {
        4
    } else if r >= 3850 {
        5
    } else if r >= 3800 {
        6
    } else if r >= 3750 {
        7
    } else if r >= 3700 {
        8
    } else if r >= 3650 {
        9
    } else if r >= 3600 {
        10
    } else if r >= 3550 {
        11
    } else if r >= 3500 {
        12
    } else if r >= 3400 {
        13
    } else {
        14
    }
}

proof fn lemma_segment_of(r: nat)
    requires
        3300 <= r < 4150,
    ensures
        0 <= segment_of(r) < 15,
        soc_curve()[segment_of(r) + 1].0 <= r < soc_curve()[segment_of(r)].0,
        soc_of_resting(r) == segment_pct(r, segment_of(r)),
{
    let c = soc_curve();
    let m = segment_of(r);
    assert(0 <= m < 15 && c[m + 1].0 <= r < c[m].0);
    lemma_soc_from(r, 0, m);
}

/// The gauge never steps back as the resting voltage rises, and never reads
/// above 100%.
pub proof fn lemma_soc_monotone(r1: nat, r2: nat)
    requires
        r1 <= r2,
    ensures
        soc_of_resting(r1) <= soc_of_resting(r2),
        soc_of_resting(r2) <= 100,
{
    let c = soc_curve();
    if r2 >= 4150 {
        if 3300 <= r1 < 4150 {
            lemma_segment_of(r1);
            lemma_segment_bounds(r1, r1, segment_of(r1));
            assert(c[segment_of(r1)].1 <= 100);
        } else if r1 < 3300 {
            lemma_soc_below(r1, 0);
        }
    } else if r1 < 3300 {
        lemma_soc_below(r1, 0);
        if r2 >= 3300 {
            lemma_segment_of(r2);
            lemma_segment_bounds(r2, r2, segment_of(r2));
        } else {
            lemma_soc_below(r2, 0);
        }
    } else {
        lemma_segment_of(r1);
        lemma_segment_of(r2);
        let m1 = segment_of(r1);
        let m2 = segment_of(r2);
        lemma_segment_bounds(r2, r2, m2);
        if m1 == m2 {
            lemma_segment_bounds(r1, r2, m1);
        } else {
            assert(m1 > m2) by {
                if m1 < m2 {
                    assert(c[m1 + 1].0 >= c[m2].0);
                }
            }
            lemma_segment_bounds(r1, r1, m1);
            assert(c[m1].1 <= c[m2 + 1].1);
        }
    }
}

/// A higher terminal voltage never reads as a lower charge, on battery.
pub proof fn lemma_state_of_charge_monotone(v1: u16, v2: u16)
    requires
        v1 <= v2,
    ensures
        soc_of_resting(resting_mv(v1, 0, false)) <= soc_of_resting(resting_mv(v2, 0, false)),
{
    lemma_soc_monotone(v1 as nat, v2 as nat);
}

/// Charging backs the IR drop out: a charging reading never exceeds the
/// battery reading at the same terminal voltage.
pub proof fn lemma_charging_reads_no_higher(vbat_mv: u16, ichg_ma: u16)
    ensures
        soc_of_resting(resting_mv(vbat_mv, ichg_ma, true)) <= soc_of_resting(
            resting_mv(vbat_mv, 0, false),
        ),
{
    lemma_soc_monotone(resting_mv(vbat_mv, ichg_ma, true), vbat_mv as nat);
}

} // verus!
