use typoena::panel::{changed_rows, erase_bbox, FocusTimer, FB_BYTES_W};

fn frame(rows: usize, fill: u8) -> Vec<u8> {
    vec![fill; rows * FB_BYTES_W]
}

#[test]
fn changed_rows_brackets_the_differing_band() {
    let a = frame(3, 0xff);
    let mut b = a.clone();
    assert_eq!(changed_rows(&a, &b), None);
    b[FB_BYTES_W + 5] = 0x7f;
    assert_eq!(changed_rows(&a, &b), Some((1, 1)));
    b[0] = 0;
    b[2 * FB_BYTES_W + 98] = 0;
    assert_eq!(changed_rows(&a, &b), Some((0, 2)));
}

#[test]
fn changed_rows_only_compares_whole_rows_both_frames_have() {
    let a = frame(2, 0xff);
    let mut b = frame(3, 0xff);
    b[2 * FB_BYTES_W] = 0;
    assert_eq!(changed_rows(&a, &b), None);
    b[FB_BYTES_W] = 0;
    assert_eq!(changed_rows(&a, &b), Some((1, 1)));
}

#[test]
fn erase_bbox_boxes_only_ink_that_turned_white() {
    let a = frame(3, 0x00);
    let mut b = a.clone();
    // Row 1, byte 2: bits 2..=3 from the left turn white (pixels 18 and 19).
    b[FB_BYTES_W + 2] = 0b0011_0000;
    assert_eq!(erase_bbox(&a, &b, 0, 2), Some((18, 19, 1, 1)));
    // Pixel 0 of row 2 too: the box grows left and down.
    b[2 * FB_BYTES_W] = 0b1000_0000;
    assert_eq!(erase_bbox(&a, &b, 0, 2), Some((0, 19, 1, 2)));
    // Outside the scanned rows it does not count.
    assert_eq!(erase_bbox(&a, &b, 0, 0), None);
    // Adding ink (white to black) is no erase.
    assert_eq!(erase_bbox(&b, &a, 0, 2), None);
    // Rows past the frames' end stop the scan quietly.
    assert_eq!(erase_bbox(&a, &b, 2, 100), Some((0, 0, 2, 2)));
}

#[test]
fn focus_timer_starts_and_stops_a_block() {
    let mut t = FocusTimer::default();
    assert!(!t.is_active());
    t.start(120);
    assert!(t.is_active());
    assert!(t.started_at().is_some());
    assert_eq!(t.words_at_start(), 120);
    t.stop();
    assert!(!t.is_active());
    assert_eq!(t.words_at_start(), 120);
}

#[test]
fn a_restarted_block_starts_at_the_new_reading() {
    let first = std::time::Instant::now();
    let later = first + std::time::Duration::from_secs(1500);
    let mut t = FocusTimer::default();
    t.start_at(first, 10);
    assert_eq!(t.started_at(), Some(first));
    t.stop();
    assert_eq!(t.started_at(), None);
    t.start_at(later, 42);
    assert_eq!(t.started_at(), Some(later));
    assert_eq!(t.words_at_start(), 42);
    // A running block is replaced too, not extended.
    t.start_at(first, 7);
    assert_eq!(t.started_at(), Some(first));
    assert_eq!(t.words_at_start(), 7);
}
