//! The panel's refresh policy: which e-ink refresh a repaint takes, when the
//! deferred full refreshes and the caret come due, when focus mode drops the
//! rest card, and the shuffle bag that picks Typo's face for each flash.

use vstd::prelude::*;
use crate::panel;

verus! {

/// Text cell width in pixels.
pub const CW: u16 = 10;

/// Text cell height in pixels.
pub const CH: u16 = 20;

/// Partial refreshes after which an idle full refresh launders the panel.
pub const FULL_REFRESH_EVERY: u32 = 64;

/// The [`FULL_REFRESH_EVERY`] cadence while the fast partial waveform is on.
pub const FULL_REFRESH_EVERY_FAST: u32 = 32;

/// How long typing must pause before the Insert-mode caret is shown.
pub const CURSOR_DEBOUNCE_MS: u128 = 2000;

/// A genuine break in typing: any ghosting is laundered then.
pub const DEEP_IDLE_MS: u128 = 10_000;

/// Focus-mode block length: 25 minutes.
pub const FOCUS_LEN_MS: u128 = 1_500_000;

/// The same 25 on a seconds clock, for the focus debug time-base.
pub const FOCUS_DEBUG_LEN_MS: u128 = 25_000;

/// Grace past the block length before the break is forced.
pub const FOCUS_GRACE_MS: u128 = 120_000;

/// The debug time-base's grace.
pub const FOCUS_DEBUG_GRACE_MS: u128 = 2000;

// ---------------------------------------------------------------------------
// One repaint
// ---------------------------------------------------------------------------

/// The refresh a repaint drives.
#[derive(Debug, Clone, Copy, PartialEq, Eq, Structural)]
pub enum RefreshKind {
    /// A clean full refresh (the ~2 s flash).
    Full,
    /// A windowed partial over the changed band, factory waveform.
    Windowed,
    /// A windowed partial over the changed band, fast waveform.
    WindowedFast,
    /// A clean partial over the whole panel area.
    Area,
}

/// The changed row band snapped out to whole text lines: the first row of the
/// line holding `y0` through the last row of the line holding `y1`, clipped
/// to the panel.
pub open spec fn snapped(y0: u16, y1: u16) -> (u16, u16) {
    let a = (y0 / CH * CH) as u16;
    let e = y1 / CH * CH + CH - 1;
    let b = if e < panel::HEIGHT - 1 {
        e
    } else {
        panel::HEIGHT - 1
    };
    (a, b as u16)
}

/// Snap a changed row band to whole text lines so a partial-window boundary
/// never lands mid-glyph.
pub fn snap_band(y0: u16, y1: u16) -> (r: (u16, u16))
    requires
        y1 / CH * CH + CH - 1 <= u16::MAX,
    ensures
        r == snapped(y0, y1),
{
    let a = y0 / CH * CH;
    let e = y1 / CH * CH + CH - 1;
    let b = if e < panel::HEIGHT - 1 {
        e
    } else {
        panel::HEIGHT - 1
    };
    (a, b)
}

/// Whether a repaint is purely additive: typing in Insert mode with no
/// scroll, erasing no ink — or only the caret's own cell, when the caret was
/// on the panel (the debounced caret bar being re-suppressed).
pub open spec fn additive(
    insert: bool,
    scrolled: bool,
    erase: Option<(u16, u16, u16, u16)>,
    cursor_shown: bool,
) -> bool {
    insert && !scrolled && match erase {
        None => true,
        Some((x0, x1, y0, y1)) => cursor_shown && x1 - x0 < CW && y1 - y0 < CH,
    }
}

/// Decide whether a repaint is additive (see [`additive`]). The erase box is
/// the one [`panel::erase_bbox`] reported for the band.
pub fn is_additive(
    insert: bool,
    scrolled: bool,
    erase: Option<(u16, u16, u16, u16)>,
    cursor_shown: bool,
) -> (r: bool)
    requires
        erase matches Some((x0, x1, y0, y1)) ==> x0 <= x1 && y0 <= y1,
    ensures
        r == additive(insert, scrolled, erase, cursor_shown),
{
    insert && !scrolled && match erase {
        None => true,
        Some((x0, x1, y0, y1)) => cursor_shown && x1 - x0 < CW && y1 - y0 < CH,
    }
}

/// The box [`panel::erase_bbox`] reports is ordered, so it can be handed to
/// [`is_additive`].
pub proof fn lemma_erase_bbox_ordered(
    a: Seq<u8>,
    b: Seq<u8>,
    y0: int,
    y1: int,
    r: Option<(u16, u16, u16, u16)>,
)
    requires
        panel::is_erase_bbox(a, b, y0, y1, r),
    ensures
        r matches Some((x0, x1, e0, e1)) ==> x0 <= x1 && e0 <= e1,
{
    if let Some((x0, x1, e0, e1)) = r {
        let y = choose|y: int| #[trigger] panel::erased_pixel(a, b, y0, y1, x0 as int, y);
        assert(panel::erased_pixel(a, b, y0, y1, x0 as int, y));
        let x = choose|x: int| #[trigger] panel::erased_pixel(a, b, y0, y1, x, e0 as int);
        assert(panel::erased_pixel(a, b, y0, y1, x, e0 as int));
    }
}

/// The refresh a repaint takes: a full one when a recovery or a card change
/// asks for it, else a windowed partial for an additive edit (fast waveform
/// when that pref is on), else a clean area partial.
pub open spec fn refresh_for(force_full: bool, is_additive: bool, fast: bool) -> RefreshKind {
    if force_full {
        RefreshKind::Full
    } else if is_additive {
        if fast {
            RefreshKind::WindowedFast
        } else {
            RefreshKind::Windowed
        }
    } else {
        RefreshKind::Area
    }
}

/// Pick the refresh for a repaint (see [`refresh_for`]).
pub fn choose_refresh(force_full: bool, is_additive: bool, fast: bool) -> (k: RefreshKind)
    ensures
        k == refresh_for(force_full, is_additive, fast),
{
    if force_full {
        RefreshKind::Full
    } else if is_additive {
        if fast {
            RefreshKind::WindowedFast
        } else {
            RefreshKind::Windowed
        }
    } else {
        RefreshKind::Area
    }
}

/// A full-screen card (the rest curtain or the about splash) appearing or
/// disappearing is a big ink change that must take a full refresh.
pub fn card_changed(was_card: bool, is_card: bool) -> (r: bool)
    ensures
        r == (was_card != is_card),
{
    was_card != is_card
}

// ---------------------------------------------------------------------------
// The panel's refresh bookkeeping
// ---------------------------------------------------------------------------

/// What the render engine remembers between repaints.
pub struct RefreshState {
    /// Partial refreshes since the last full one.
    pub partials_since_full: u32,
    /// Whether the caret is currently on the panel.
    pub cursor_shown: bool,
    /// Set when a paint fails: the next paint does a full refresh.
    pub force_full: bool,
}

/// The partial budget before a full refresh, for the active waveform.
pub open spec fn budget(fast: bool) -> u32 {
    if fast {
        FULL_REFRESH_EVERY_FAST
    } else {
        FULL_REFRESH_EVERY
    }
}

impl RefreshState {
    /// The state right after the first editor paint: caret shown, nothing owed.
    pub fn new() -> (s: Self)
        ensures
            s.partials_since_full == 0,
            s.cursor_shown,
            !s.force_full,
    {
        RefreshState { partials_since_full: 0, cursor_shown: true, force_full: false }
    }

    /// The full-refresh partial budget for the active waveform — halved when
    /// the experimental fast partial is on, since it ghosts faster.
    pub fn full_budget(&self, fast: bool) -> (r: u32)
        ensures
            r == budget(fast),
    {
        if fast {
            FULL_REFRESH_EVERY_FAST
        } else {
            FULL_REFRESH_EVERY
        }
    }

    /// Record how a paint went. A failure drops the frame and arms a full
    /// refresh for the next paint; a success clears that, resets the partial
    /// count on a full refresh and counts a partial otherwise, and leaves the
    /// caret shown unless typing in Insert mode.
    pub fn after_paint(&mut self, kind: RefreshKind, ok: bool, insert: bool)
        requires
            ok && kind != RefreshKind::Full ==> old(self).partials_since_full < u32::MAX,
        ensures
            !ok ==> final(self).force_full && final(self).partials_since_full == old(
                self,
            ).partials_since_full && final(self).cursor_shown == old(self).cursor_shown,
            ok ==> !final(self).force_full && final(self).cursor_shown == !insert && (if kind
                == RefreshKind::Full {
                final(self).partials_since_full == 0
            } else {
                final(self).partials_since_full == old(self).partials_since_full + 1
            }),
    {
        if !ok {
            self.force_full = true;
            return ;
        }
        self.force_full = false;
        if kind == RefreshKind::Full {
            self.partials_since_full = 0;
        } else {
            self.partials_since_full = self.partials_since_full + 1;
        }
        self.cursor_shown = !insert;
    }

    /// Piggyback a panel-cleaning full refresh onto a file switch, once
    /// ghosting has built past half the longevity budget.
    pub fn full_refresh_on_switch(&mut self, fast: bool)
        ensures
            final(self).force_full == (old(self).force_full || old(self).partials_since_full
                >= budget(fast) / 2),
            final(self).partials_since_full == old(self).partials_since_full,
            final(self).cursor_shown == old(self).cursor_shown,
    {
        if self.partials_since_full >= self.full_budget(fast) / 2 {
            self.force_full = true;
        }
    }

    /// Whether the deferred full refresh is due, `idle_ms` into a typing
    /// pause: the partial budget is spent and the writer has paused, or any
    /// partial has been painted and the pause is a genuine break.
    pub fn longevity_due(&self, fast: bool, idle_ms: u128) -> (r: bool)
        ensures
            r == ((self.partials_since_full >= budget(fast) && idle_ms >= CURSOR_DEBOUNCE_MS) || (
            self.partials_since_full > 0 && idle_ms >= DEEP_IDLE_MS)),
    {
        let every = self.full_budget(fast);
        (self.partials_since_full >= every && idle_ms >= CURSOR_DEBOUNCE_MS) || (
        self.partials_since_full > 0 && idle_ms >= DEEP_IDLE_MS)
    }

    /// Whether the debounced Insert-mode caret is due: in Insert mode, caret
    /// hidden, and typing paused long enough.
    pub fn caret_due(&self, insert: bool, idle_ms: u128) -> (r: bool)
        ensures
            r == (insert && !self.cursor_shown && idle_ms >= CURSOR_DEBOUNCE_MS),
    {
        insert && !self.cursor_shown && idle_ms >= CURSOR_DEBOUNCE_MS
    }
}

// ---------------------------------------------------------------------------
// Focus mode
// ---------------------------------------------------------------------------

/// Block length and grace on the chosen time-base.
pub open spec fn focus_len(debug: bool) -> u128 {
    if debug {
        FOCUS_DEBUG_LEN_MS
    } else {
        FOCUS_LEN_MS
    }
}

pub open spec fn focus_grace(debug: bool) -> u128 {
    if debug {
        FOCUS_DEBUG_GRACE_MS
    } else {
        FOCUS_GRACE_MS
    }
}

/// Whether a running focus block drops the rest card now: it has reached its
/// length, and the writer has paused — or the grace past the length is spent.
pub open spec fn rest_is_due(debug: bool, elapsed_ms: u128, idle_ms: u128) -> bool {
    let len = focus_len(debug);
    elapsed_ms >= len && (idle_ms >= CURSOR_DEBOUNCE_MS || elapsed_ms >= len + focus_grace(debug))
}

/// Decide whether the rest card is due (see [`rest_is_due`]).
pub fn rest_due(debug: bool, elapsed_ms: u128, idle_ms: u128) -> (r: bool)
    ensures
        r == rest_is_due(debug, elapsed_ms, idle_ms),
{
    let (len, grace) = if debug {
        (FOCUS_DEBUG_LEN_MS, FOCUS_DEBUG_GRACE_MS)
    } else {
        (FOCUS_LEN_MS, FOCUS_GRACE_MS)
    };
    let paused = idle_ms >= CURSOR_DEBOUNCE_MS;
    elapsed_ms >= len && (paused || elapsed_ms >= len + grace)
}

/// The rest card's figures: words written this block (never below zero) and
/// the block's length in minutes (seconds on the debug time-base).
pub fn rest_card_figures(word_count: usize, words0: usize, debug: bool, elapsed_ms: u128) -> (r: (
    usize,
    u32,
))
    ensures
        r.0 == (if word_count >= words0 {
            word_count - words0
        } else {
            0
        }),
        r.1 == (elapsed_ms / (if debug {
            1000u128
        } else {
            60_000u128
        })) as u32,
{
    let words = if word_count >= words0 {
        word_count - words0
    } else {
        0
    };
    let div: u128 = if debug {
        1000
    } else {
        60_000
    };
    (words, (elapsed_ms / div) as u32)
}

// ---------------------------------------------------------------------------
// Typo's faces
// ---------------------------------------------------------------------------

/// Typo's moods.
#[derive(Debug, Clone, Copy, PartialEq, Eq, Structural)]
pub enum Mood {
    Neutral,
    Frustrated,
    Anticipation,
    Wink,
    Curious,
    Determined,
    Zen,
    Note,
}

/// The post-flash humor pool.
pub open spec fn pool() -> Seq<Mood> {
    seq![Mood::Anticipation, Mood::Wink, Mood::Curious, Mood::Determined, Mood::Zen, Mood::Note]
}

/// A mood of the post-flash pool.
pub open spec fn is_humor(m: Mood) -> bool {
    pool().contains(m)
}

/// xorshift32's step.
pub open spec fn xorshift(x: u32) -> u32 {
    let a = x ^ (x << 13u32);
    let b = a ^ (a >> 17u32);
    b ^ (b << 5u32)
}

/// Fisher–Yates from position `i` down to 1: each step draws the next
/// xorshift value `r` and swaps position `i` with position `r % (i + 1)`.
/// Gives the shuffled bag and the generator's final state.
pub open spec fn shuffled(bag: Seq<Mood>, rng: u32, i: nat) -> (Seq<Mood>, u32)
    decreases i,
{
    if i == 0 {
        (bag, rng)
    } else {
        let r = xorshift(rng);
        let j = (r as int) % (i as int + 1);
        shuffled(bag.update(i as int, bag[j]).update(j, bag[i as int]), r, (i - 1) as nat)
    }
}

/// A fresh bag that would open on `last` has its first and last faces swapped.
pub open spec fn seam_guarded(bag: Seq<Mood>, last: Mood) -> Seq<Mood> {
    if bag[0] == last {
        bag.update(0, bag[5]).update(5, bag[0])
    } else {
        bag
    }
}

/// The post-flash shuffle bag: a random permutation of the pool, played in
/// order and reshuffled when exhausted, never opening a fresh bag on the face
/// the last one closed on.
pub struct HumorBag {
    rng: u32,
    bag: Vec<Mood>,
    bag_pos: usize,
    last_humor: Mood,
}

/// No mood occurs twice in `s`.
pub open spec fn distinct(s: Seq<Mood>) -> bool {
    forall|i: int, j: int| 0 <= i < j < s.len() ==> s[i] != s[j]
}

impl HumorBag {
    /// The bag holds the pool's six moods once each, the position is in
    /// range, and until the bag is exhausted the last face drawn is the one
    /// before the position.
    pub closed spec fn wf(&self) -> bool {
        &&& self.bag@.len() == 6
        &&& distinct(self.bag@)
        &&& forall|i: int| 0 <= i < 6 ==> is_humor(#[trigger] self.bag@[i])
        &&& 1 <= self.bag_pos <= 6
        &&& (self.bag_pos < 6 ==> self.last_humor == self.bag@[self.bag_pos - 1])
    }

    /// The face the last flash carried.
    pub closed spec fn last(&self) -> Mood {
        self.last_humor
    }

    /// The generator's state.
    pub closed spec fn seed(&self) -> u32 {
        self.rng
    }

    /// The current bag, in draw order.
    pub closed spec fn contents(&self) -> Seq<Mood> {
        self.bag@
    }

    /// How many faces of the current bag have been drawn (6 when exhausted).
    pub closed spec fn position(&self) -> nat {
        self.bag_pos as nat
    }

    /// A well-formed bag holds each pool humor exactly once.
    pub proof fn lemma_bag_is_pool(&self)
        requires
            self.wf(),
        ensures
            self.contents().len() == 6,
            distinct(self.contents()),
            1 <= self.position() <= 6,
            forall|h: Mood| is_humor(h) ==> #[trigger] self.contents().contains(h),
    {
        lemma_distinct_humors_cover_pool(self.bag@);
    }

    fn fresh_pool() -> (v: Vec<Mood>)
        ensures
            v@ == pool(),
    {
        let v = vec![
            Mood::Anticipation,
            Mood::Wink,
            Mood::Curious,
            Mood::Determined,
            Mood::Zen,
            Mood::Note,
        ];
        assert(v@ =~= pool());
        v
    }

    /// A bag seeded with the fixed fallback seed, exhausted so the first draw
    /// shuffles, with Typo neutral.
    pub fn new() -> (b: Self)
        ensures
            b.wf(),
            b.last() == Mood::Neutral,
            b.seed() == 0xC0FF_EE17u32,
    {
        let bag = Self::fresh_pool();
        proof {
            lemma_pool_distinct();
        }
        HumorBag { rng: 0xC0FF_EE17, bag, bag_pos: 6, last_humor: Mood::Neutral }
    }

    /// Perturb the shuffle with boot entropy; a zero seed (xorshift's fixed
    /// point) is ignored.
    pub fn reseed_humor(&mut self, seed: u32)
        requires
            old(self).wf(),
        ensures
            final(self).wf(),
            final(self).last() == old(self).last(),
            final(self).seed() == (if seed != 0 {
                seed
            } else {
                old(self).seed()
            }),
    {
        if seed != 0 {
            self.rng = seed;
        }
    }

    /// xorshift32 — a few instructions.
    fn next_rand(&mut self) -> (r: u32)
        ensures
            r == xorshift(old(self).rng),
            final(self).rng == r,
            final(self).bag == old(self).bag,
            final(self).bag_pos == old(self).bag_pos,
            final(self).last_humor == old(self).last_humor,
    {
        let mut x = self.rng;
        x = x ^ (x << 13u32);
        x = x ^ (x >> 17u32);
        x = x ^ (x << 5u32);
        self.rng = x;
        x
    }

    /// The next humor from the shuffle bag: refill and Fisher–Yates shuffle
    /// when it empties, guarding the seam so the fresh bag never opens on the
    /// humor the last one closed on. The face drawn is a pool humor, and never
    /// the one drawn before it.
    pub fn next_humor(&mut self) -> (m: Mood)
        requires
            old(self).wf(),
        ensures
            drew(*old(self), m, *final(self)),
    {
        if self.bag_pos >= self.bag.len() {
            self.bag = Self::fresh_pool();
            proof {
                lemma_pool_distinct();
            }
            let mut i: usize = 5;
            assert(self.bag@ == pool());
            while i > 0
                invariant
                    i <= 5,
                    shuffled(pool(), old(self).rng, 5) == shuffled(self.bag@, self.rng, i as nat),
                    self.last_humor == old(self).last_humor,
                    self.bag@.len() == 6,
                    distinct(self.bag@),
                    forall|k: int| 0 <= k < 6 ==> is_humor(#[trigger] self.bag@[k]),
                decreases i,
            {
                let r = self.next_rand();
                let j = (r as usize) % (i + 1);
                let a = self.bag[i];
                let b = self.bag[j];
                let ghost before = self.bag@;
                self.bag.set(i, b);
                self.bag.set(j, a);
                proof {
                    assert(self.bag@ =~= before.update(i as int, b).update(j as int, a));
                    lemma_swap_keeps(before, i as int, j as int);
                }
                i -= 1;
            }
            let ghost mixed = self.bag@;
            assert(shuffled(pool(), old(self).rng, 5) == (mixed, self.rng));
            if self.bag[0] == self.last_humor {
                let a = self.bag[0];
                let b = self.bag[5];
                let ghost before = self.bag@;
                self.bag.set(0, b);
                self.bag.set(5, a);
                proof {
                    assert(self.bag@ =~= before.update(0, b).update(5, a));
                    lemma_swap_keeps(before, 0, 5);
                    assert(before[0] != before[5]);
                }
            }
            assert(self.bag@[0] != self.last_humor);
            assert(self.bag@ == seam_guarded(mixed, old(self).last_humor));
            self.bag_pos = 0;
        } else {
            assert(self.bag@[self.bag_pos as int] != self.bag@[self.bag_pos - 1]);
        }
        let humor = self.bag[self.bag_pos];
        self.bag_pos += 1;
        self.last_humor = humor;
        humor
    }
}

/// One draw from the bag: `m` is a pool humor other than the face before it,
/// it is the face the bag now stands after, and the bag only changes when it
/// was exhausted (then the draw opens a fresh one).
pub open spec fn drew(before: HumorBag, m: Mood, after: HumorBag) -> bool {
    &&& after.wf()
    &&& is_humor(m)
    &&& m != before.last()
    &&& after.last() == m
    &&& 1 <= after.position() <= 6
    &&& m == after.contents()[after.position() - 1]
    &&& (before.position() < 6 ==> after.contents() == before.contents() && after.position()
        == before.position() + 1)
    &&& (before.position() < 6 ==> after.seed() == before.seed())
    &&& (before.position() >= 6 ==> after.position() == 1 && after.contents() == seam_guarded(
        shuffled(pool(), before.seed(), 5).0,
        before.last(),
    ) && after.seed() == shuffled(pool(), before.seed(), 5).1)
}

/// Six distinct humors are the whole pool.
proof fn lemma_distinct_humors_cover_pool(b: Seq<Mood>)
    requires
        b.len() == 6,
        distinct(b),
        forall|k: int| 0 <= k < 6 ==> is_humor(#[trigger] b[k]),
    ensures
        forall|h: Mood| is_humor(h) ==> #[trigger] b.contains(h),
{
    lemma_pool_distinct();
    assert(b.no_duplicates());
    assert(pool().no_duplicates());
    b.unique_seq_to_set();
    pool().unique_seq_to_set();
    vstd::seq_lib::seq_to_set_is_finite(b);
    vstd::seq_lib::seq_to_set_is_finite(pool());
    assert(b.to_set().subset_of(pool().to_set())) by {
        assert forall|x: Mood| b.to_set().contains(x) implies pool().to_set().contains(x) by {
            let k = choose|k: int| 0 <= k < b.len() && b[k] == x;
            assert(is_humor(b[k]));
        }
    }
    vstd::set_lib::lemma_subset_equality(b.to_set(), pool().to_set());
    assert forall|h: Mood| is_humor(h) implies #[trigger] b.contains(h) by {
        assert(pool().to_set().contains(h));
        assert(b.to_set().contains(h));
    }
}

proof fn lemma_bag_steady(bags: Seq<HumorBag>, faces: Seq<Mood>, k: int)
    requires
        bags.len() == 7,
        faces.len() == 6,
        bags[0].position() == 6,
        forall|i: int| 0 <= i < 6 ==> drew(#[trigger] bags[i], faces[i], bags[i + 1]),
        1 <= k <= 6,
    ensures
        bags[k].contents() == bags[1].contents(),
        bags[k].position() == k,
    decreases k,
{
    assert(drew(bags[0], faces[0], bags[1]));
    if k > 1 {
        lemma_bag_steady(bags, faces, k - 1);
        assert(drew(bags[k - 1], faces[k - 1], bags[k]));
    }
}

/// Every bag of draws is a full permutation of the pool: the six faces drawn
/// from a freshly opened bag are the six humors, each once.
pub proof fn lemma_six_draws_cover_pool(bags: Seq<HumorBag>, faces: Seq<Mood>)
    requires
        bags.len() == 7,
        faces.len() == 6,
        bags[0].wf(),
        bags[0].position() == 6,
        forall|k: int| 0 <= k < 6 ==> drew(#[trigger] bags[k], faces[k], bags[k + 1]),
    ensures
        distinct(faces),
        forall|h: Mood| is_humor(h) ==> #[trigger] faces.contains(h),
{
    assert(drew(bags[0], faces[0], bags[1]));
    let b = bags[1].contents();
    assert forall|k: int| 1 <= k <= 6 implies #[trigger] bags[k].contents() == b && bags[k].position()
        == k by {
        lemma_bag_steady(bags, faces, k);
    }
    assert forall|k: int| 0 <= k < 6 implies faces[k] == b[k] by {
        assert(drew(bags[k], faces[k], bags[k + 1]));
        assert(bags[k + 1].contents() == b && bags[k + 1].position() == k + 1);
    }
    assert(faces =~= b);
    bags[1].lemma_bag_is_pool();
}

proof fn lemma_pool_distinct()
    ensures
        distinct(pool()),
        forall|k: int| 0 <= k < 6 ==> is_humor(#[trigger] pool()[k]),
        pool().len() == 6,
{
    assert forall|k: int| 0 <= k < 6 implies is_humor(#[trigger] pool()[k]) by {
        assert(pool().contains(pool()[k]));
    }
}

proof fn lemma_swap_keeps(s: Seq<Mood>, i: int, j: int)
    requires
        s.len() == 6,
        0 <= i < 6,
        0 <= j < 6,
        distinct(s),
        forall|k: int| 0 <= k < 6 ==> is_humor(#[trigger] s[k]),
    ensures
        ({
            let t = s.update(i, s[j]).update(j, s[i]);
            &&& t.len() == 6
            &&& distinct(t)
            &&& forall|k: int| 0 <= k < 6 ==> is_humor(#[trigger] t[k])
        }),
{
    let t = s.update(i, s[j]).update(j, s[i]);
    assert forall|k: int| 0 <= k < 6 implies t[k] == s[if k == i {
        j
    } else if k == j {
        i
    } else {
        k
    }] by {}
    assert forall|a: int, b: int| 0 <= a < b < t.len() implies t[a] != t[b] by {
        let pa = if a == i {
            j
        } else if a == j {
            i
        } else {
            a
        };
        let pb = if b == i {
            j
        } else if b == j {
            i
        } else {
            b
        };
        assert(t[a] == s[pa] && t[b] == s[pb]);
        assert(pa != pb);
    }
    assert forall|k: int| 0 <= k < 6 implies is_humor(#[trigger] t[k]) by {
        let pk = if k == i {
            j
        } else if k == j {
            i
        } else {
            k
        };
        assert(t[k] == s[pk]);
    }
}


/// The `face` pref's palette cycle: `random` (the shuffle bag) and every
/// mood by name.
pub const FACE_OPTIONS: [&'static str; 9] = [
    "random",
    "neutral",
    "anticipation",
    "wink",
    "curious",
    "determined",
    "zen",
    "note",
    "frustrated",
];

/// A mood's name in the `face` pref.
pub open spec fn mood_name(m: Mood) -> Seq<char> {
    match m {
        Mood::Neutral => "neutral"@,
        Mood::Anticipation => "anticipation"@,
        Mood::Wink => "wink"@,
        Mood::Curious => "curious"@,
        Mood::Determined => "determined"@,
        Mood::Zen => "zen"@,
        Mood::Note => "note"@,
        Mood::Frustrated => "frustrated"@,
    }
}

/// The mood a `face` pref pins, by name; `None` for `random` and for any
/// unknown value (so a hand-typed pref falls back to the rotation).
pub open spec fn mood_named(name: Seq<char>) -> Option<Mood> {
    if name == "neutral"@ {
        Some(Mood::Neutral)
    } else if name == "anticipation"@ {
        Some(Mood::Anticipation)
    } else if name == "wink"@ {
        Some(Mood::Wink)
    } else if name == "curious"@ {
        Some(Mood::Curious)
    } else if name == "determined"@ {
        Some(Mood::Determined)
    } else if name == "zen"@ {
        Some(Mood::Zen)
    } else if name == "note"@ {
        Some(Mood::Note)
    } else if name == "frustrated"@ {
        Some(Mood::Frustrated)
    } else {
        None
    }
}

fn same(a: &str, b: &str) -> (r: bool)
    ensures
        r == (a@ == b@),
{
    crate::text::chars_eq_str(crate::text::chars_of(a).as_slice(), b)
}

/// The mood a `face` pref string pins Typo to, or `None` for `random` and
/// any unrecognized value, so a hand-typed pref can never leave Typo
/// faceless: it falls back to the random rotation.
pub fn mood_from_name(name: &str) -> (r: Option<Mood>)
    ensures
        r == mood_named(name@),
{
    if same(name, "neutral") {
        Some(Mood::Neutral)
    } else if same(name, "anticipation") {
        Some(Mood::Anticipation)
    } else if same(name, "wink") {
        Some(Mood::Wink)
    } else if same(name, "curious") {
        Some(Mood::Curious)
    } else if same(name, "determined") {
        Some(Mood::Determined)
    } else if same(name, "zen") {
        Some(Mood::Zen)
    } else if same(name, "note") {
        Some(Mood::Note)
    } else if same(name, "frustrated") {
        Some(Mood::Frustrated)
    } else {
        None
    }
}

/// Reading a mood's name back gives the mood, and `random` pins none: the
/// names of the `face` cycle and the moods correspond one to one.
pub proof fn lemma_mood_names_round_trip(m: Mood)
    ensures
        mood_named(mood_name(m)) == Some(m),
        mood_named("random"@) is None,
{
    reveal_strlit("neutral");
    reveal_strlit("anticipation");
    reveal_strlit("wink");
    reveal_strlit("curious");
    reveal_strlit("determined");
    reveal_strlit("zen");
    reveal_strlit("note");
    reveal_strlit("frustrated");
    reveal_strlit("random");
    assert("neutral"@ =~= seq!['n', 'e', 'u', 't', 'r', 'a', 'l']);
    assert("neutral"@[0] == 'n' && "neutral"@.len() == 7);
    assert("anticipation"@ =~= seq!['a', 'n', 't', 'i', 'c', 'i', 'p', 'a', 't', 'i', 'o', 'n']);
    assert("anticipation"@[0] == 'a' && "anticipation"@.len() == 12);
    assert("wink"@ =~= seq!['w', 'i', 'n', 'k']);
    assert("wink"@[0] == 'w' && "wink"@.len() == 4);
    assert("curious"@ =~= seq!['c', 'u', 'r', 'i', 'o', 'u', 's']);
    assert("curious"@[0] == 'c' && "curious"@.len() == 7);
    assert("determined"@ =~= seq!['d', 'e', 't', 'e', 'r', 'm', 'i', 'n', 'e', 'd']);
    assert("determined"@[0] == 'd' && "determined"@.len() == 10);
    assert("zen"@ =~= seq!['z', 'e', 'n']);
    assert("zen"@[0] == 'z' && "zen"@.len() == 3);
    assert("note"@ =~= seq!['n', 'o', 't', 'e']);
    assert("note"@[0] == 'n' && "note"@.len() == 4);
    assert("frustrated"@ =~= seq!['f', 'r', 'u', 's', 't', 'r', 'a', 't', 'e', 'd']);
    assert("frustrated"@[0] == 'f' && "frustrated"@.len() == 10);
    assert("random"@ =~= seq!['r', 'a', 'n', 'd', 'o', 'm']);
    assert("random"@[0] == 'r' && "random"@.len() == 6);
}

/// Whether the pool may pick Typo's face for this flash: the companion is
/// shown and the `face` pref does not pin a mood.
pub fn pool_picks_face(companion: bool, face: &str) -> (r: bool)
    ensures
        r == (companion && mood_named(face@) is None),
{
    companion && mood_from_name(face).is_none()
}

} // verus!
