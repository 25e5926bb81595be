use typoena::refresh::{
    card_changed, choose_refresh, mood_from_name, pool_picks_face, FACE_OPTIONS, is_additive, rest_card_figures, rest_due, snap_band, HumorBag,
    Mood, RefreshKind, RefreshState, CURSOR_DEBOUNCE_MS, DEEP_IDLE_MS, FULL_REFRESH_EVERY,
};

const POOL: [Mood; 6] = [
    Mood::Anticipation,
    Mood::Wink,
    Mood::Curious,
    Mood::Determined,
    Mood::Zen,
    Mood::Note,
];

#[test]
fn the_band_snaps_to_whole_text_lines() {
    assert_eq!(snap_band(3, 25), (0, 39));
    assert_eq!(snap_band(40, 40), (40, 59));
    assert_eq!(snap_band(260, 271), (260, 271));
}

#[test]
fn only_caret_sized_erases_stay_additive() {
    assert!(is_additive(true, false, None, false));
    assert!(!is_additive(false, false, None, true));
    assert!(!is_additive(true, true, None, true));
    assert!(is_additive(true, false, Some((100, 101, 20, 39)), true));
    assert!(!is_additive(true, false, Some((100, 101, 20, 39)), false));
    assert!(!is_additive(true, false, Some((100, 110, 20, 39)), true));
    assert!(!is_additive(true, false, Some((100, 101, 20, 40)), true));
}

#[test]
fn the_fast_waveform_only_takes_additive_edits() {
    assert_eq!(choose_refresh(false, true, true), RefreshKind::WindowedFast);
    assert_eq!(choose_refresh(false, true, false), RefreshKind::Windowed);
    assert_eq!(choose_refresh(false, false, true), RefreshKind::Area);
    assert_eq!(choose_refresh(true, true, true), RefreshKind::Full);
    assert!(card_changed(true, false));
    assert!(!card_changed(true, true));
}

#[test]
fn file_switch_promotes_to_a_full_refresh_only_once_ghosting_has_accumulated() {
    let mut s = RefreshState::new();
    s.partials_since_full = FULL_REFRESH_EVERY / 2 - 1;
    s.full_refresh_on_switch(false);
    assert!(!s.force_full, "light ghosting: no gratuitous full refresh on switch");
    s.partials_since_full = FULL_REFRESH_EVERY / 2;
    s.full_refresh_on_switch(false);
    assert!(s.force_full, "accumulated ghosting: switch promotes to a full refresh");
}

#[test]
fn deep_idle_launders_light_ghosting_only_after_a_long_break() {
    let mut s = RefreshState::new();
    assert!(!s.longevity_due(false, CURSOR_DEBOUNCE_MS + 100), "clean panel: no flash");
    assert!(!s.longevity_due(false, DEEP_IDLE_MS + 100), "clean panel: no flash at deep idle");
    s.partials_since_full = 3;
    assert!(!s.longevity_due(false, CURSOR_DEBOUNCE_MS + 100));
    assert!(s.longevity_due(false, DEEP_IDLE_MS + 100));
    s.after_paint(RefreshKind::Full, true, true);
    assert_eq!(s.partials_since_full, 0);
    assert!(!s.longevity_due(false, DEEP_IDLE_MS + 100), "clean panel: no repeat flash");
    s.partials_since_full = 32;
    assert!(s.longevity_due(true, CURSOR_DEBOUNCE_MS));
    assert!(!s.longevity_due(false, CURSOR_DEBOUNCE_MS));
}

#[test]
fn a_failed_paint_arms_a_full_refresh() {
    let mut s = RefreshState::new();
    s.after_paint(RefreshKind::Windowed, true, true);
    assert_eq!(s.partials_since_full, 1);
    assert!(!s.cursor_shown);
    assert!(s.caret_due(true, CURSOR_DEBOUNCE_MS));
    assert!(!s.caret_due(true, CURSOR_DEBOUNCE_MS - 1));
    s.after_paint(RefreshKind::Area, false, true);
    assert!(s.force_full);
    assert_eq!(s.partials_since_full, 1);
    s.after_paint(RefreshKind::Full, true, false);
    assert!(!s.force_full);
    assert!(s.cursor_shown);
}

#[test]
fn the_rest_card_drops_at_a_pause_or_after_the_grace() {
    assert!(rest_due(false, 1_500_000, CURSOR_DEBOUNCE_MS));
    assert!(!rest_due(false, 1_500_000, CURSOR_DEBOUNCE_MS - 1));
    assert!(!rest_due(false, 1_499_999, 60_000));
    assert!(rest_due(false, 1_620_000, 0));
    assert!(!rest_due(true, 25_000, 0));
    assert!(rest_due(true, 27_000, 0));
    assert_eq!(rest_card_figures(120, 100, false, 1_560_000), (20, 26));
    assert_eq!(rest_card_figures(5, 10, true, 30_500), (0, 30));
}

#[test]
fn every_full_refresh_draws_typo_a_fresh_face_from_the_shuffle_bag() {
    let mut bag = HumorBag::new();
    let n = POOL.len();
    let seq: Vec<Mood> = (0..n * 3).map(|_| bag.next_humor()).collect();
    assert_ne!(seq[0], Mood::Neutral, "first face isn't the boot face");
    for w in seq.windows(2) {
        assert_ne!(w[0], w[1], "consecutive faces must differ");
    }
    for chunk in seq.chunks(n) {
        for face in POOL.iter() {
            assert!(chunk.contains(face), "{face:?} missing from a bag");
        }
    }
}

#[test]
fn reseeding_changes_the_order_but_not_the_guarantees() {
    let mut a = HumorBag::new();
    let mut b = HumorBag::new();
    b.reseed_humor(12345);
    let mut c = HumorBag::new();
    c.reseed_humor(0);
    let sa: Vec<Mood> = (0..12).map(|_| a.next_humor()).collect();
    let sb: Vec<Mood> = (0..12).map(|_| b.next_humor()).collect();
    let sc: Vec<Mood> = (0..12).map(|_| c.next_humor()).collect();
    assert_eq!(sa, sc, "a zero seed keeps the fixed fallback");
    for w in sb.windows(2) {
        assert_ne!(w[0], w[1]);
    }
}

#[test]
fn face_names_pin_moods_and_random_pins_none() {
    assert_eq!(mood_from_name("wink"), Some(Mood::Wink));
    assert_eq!(mood_from_name("frustrated"), Some(Mood::Frustrated));
    assert_eq!(mood_from_name("random"), None);
    assert_eq!(mood_from_name("sepia"), None);
    for name in &FACE_OPTIONS[1..] {
        assert!(mood_from_name(name).is_some());
    }
    assert!(pool_picks_face(true, "random"));
    assert!(!pool_picks_face(true, "zen"));
    assert!(!pool_picks_face(false, "random"));
}
