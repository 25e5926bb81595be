use typoena::fuzzy::{find_fold, fold, rfind_fold, starts_with_fold, strip_diacritic};
use typoena::search::{execute_search, search_repeat};

#[test]
fn folding_strips_accents_always_and_case_on_request() {
    assert_eq!(strip_diacritic('é'), 'e');
    assert_eq!(strip_diacritic('Ç'), 'C');
    assert_eq!(strip_diacritic('œ'), 'œ');
    assert_eq!(fold('É', true), 'e');
    assert_eq!(fold('É', false), 'E');
    assert!(starts_with_fold("Café crème", "cafe", true));
    assert!(!starts_with_fold("Café crème", "cafe", false));
}

#[test]
fn fold_searches_report_byte_offsets() {
    assert_eq!(find_fold("le café", "cafe", true), Some(3));
    assert_eq!(find_fold("é café", "CAFE", true), Some(3));
    assert_eq!(rfind_fold("cafe café", "CAFE", true), Some(5));
    assert_eq!(find_fold("cafe", "CAFE", false), None);
    assert_eq!(find_fold("abc", "", true), Some(0));
    assert_eq!(rfind_fold("", "x", true), None);
}

/// The search state an editor keeps: its text, caret, remembered pattern and
/// notice line.
struct Ed {
    text: String,
    caret: usize,
    last: String,
    notice: Option<String>,
}

/// A buffer with the caret at the top.
fn over(text: &str) -> Ed {
    Ed { text: text.to_string(), caret: 0, last: String::new(), notice: None }
}

/// Type `/{pat}` and Enter.
fn search(e: &mut Ed, pat: &str) {
    let (last, caret, notice) = execute_search(&e.text, e.caret, pat, &e.last);
    e.last = last;
    e.caret = caret;
    if let Some(n) = notice {
        e.notice = Some(n.message(&e.last));
    }
}

/// Press `n` (`fwd`) or `N`, `count` times over.
fn repeat(e: &mut Ed, count: usize, fwd: bool) {
    let (caret, notice) = search_repeat(&e.text, e.caret, &e.last, count, fwd);
    e.caret = caret;
    if let Some(n) = notice {
        e.notice = Some(n.message(&e.last));
    }
}

#[test]
fn search_jumps_past_the_caret_to_the_next_match() {
    let mut e = over("alpha beta alpha");
    search(&mut e, "alpha");
    assert_eq!(e.caret, 11);
}

#[test]
fn search_wraps_to_the_top_with_a_notice() {
    let mut e = over("alpha beta");
    search(&mut e, "beta");
    search(&mut e, "alpha");
    assert_eq!(e.caret, 0);
    assert_eq!(e.notice.as_deref(), Some("wrapped"));
}

#[test]
fn search_not_found_keeps_the_caret_and_says_so() {
    let mut e = over("alpha beta");
    search(&mut e, "gamma");
    assert_eq!(e.caret, 0);
    assert_eq!(e.notice.as_deref(), Some("not found: gamma"));
}

#[test]
fn n_repeats_forward_and_wraps() {
    let mut e = over("ab x ab x ab");
    search(&mut e, "ab");
    assert_eq!(e.caret, 5);
    repeat(&mut e, 1, true);
    assert_eq!(e.caret, 10);
    repeat(&mut e, 1, true);
    assert_eq!(e.caret, 0);
    assert_eq!(e.notice.as_deref(), Some("wrapped"));
}

#[test]
fn capital_n_repeats_backward_and_wraps() {
    let mut e = over("ab x ab x ab");
    search(&mut e, "ab");
    repeat(&mut e, 1, false);
    assert_eq!(e.caret, 0);
    repeat(&mut e, 1, false);
    assert_eq!(e.caret, 10);
    assert_eq!(e.notice.as_deref(), Some("wrapped"));
}

#[test]
fn count_applies_to_n() {
    let mut e = over("ab ab ab ab");
    search(&mut e, "ab");
    repeat(&mut e, 2, true);
    assert_eq!(e.caret, 9);
}

#[test]
fn n_without_a_previous_search_says_so() {
    let mut e = over("alpha");
    repeat(&mut e, 1, true);
    assert_eq!(e.caret, 0);
    assert_eq!(e.notice.as_deref(), Some("no previous search"));
}

#[test]
fn empty_slash_repeats_the_last_search() {
    let mut e = over("ab x ab x ab");
    search(&mut e, "ab");
    search(&mut e, "");
    assert_eq!(e.caret, 10);
}

#[test]
fn lowercase_search_is_case_insensitive() {
    let mut e = over("x Alpha alpha");
    search(&mut e, "alpha");
    assert_eq!(e.caret, 2);
}

#[test]
fn smartcase_a_capital_makes_the_search_exact() {
    let mut e = over("x paris Paris");
    search(&mut e, "Paris");
    assert_eq!(e.caret, 8);
    e.caret = 0;
    search(&mut e, "paris");
    assert_eq!(e.caret, 2);
}

#[test]
fn search_folds_accents_both_ways() {
    let mut e = over("x Été bien");
    search(&mut e, "été");
    assert_eq!(e.caret, 2);
    assert_eq!(&e.text[e.caret..e.caret + 5], "Été");
    e.caret = 0;
    search(&mut e, "ete");
    assert_eq!(e.caret, 2);
}

#[test]
fn smartcase_still_folds_accents() {
    let mut e = over("x ete Ete");
    search(&mut e, "Été");
    assert_eq!(e.caret, 6);
}

#[test]
fn backward_search_is_case_insensitive() {
    let mut e = over("Alpha x alpha");
    search(&mut e, "alpha");
    assert_eq!(e.caret, 8);
    repeat(&mut e, 1, false);
    assert_eq!(e.caret, 0);
}

#[test]
fn search_lands_on_char_boundaries_in_multibyte_text() {
    let mut e = over("héé ém");
    search(&mut e, "ém");
    assert_eq!(e.caret, 6);
    assert_eq!(&e.text[e.caret..e.caret + 3], "ém");
}

#[test]
fn a_not_found_repeat_stops_where_the_earlier_steps_got_to() {
    let mut e = over("ab x ab");
    search(&mut e, "ab");
    assert_eq!(e.caret, 5);
    e.last = "zz".to_string();
    repeat(&mut e, 3, true);
    assert_eq!(e.caret, 5);
    assert_eq!(e.notice.as_deref(), Some("not found: zz"));
}

#[test]
fn latin1_capitals_fold_to_their_small_letters_and_signs_stay() {
    assert_eq!(fold('Þ', true), 'þ');
    assert_eq!(fold('Þ', false), 'Þ');
    assert_eq!(fold('×', true), '×');
    assert_eq!(fold('ß', true), 'ß');
    // An accented capital alone still makes the search exact.
    let mut e = over("x ete ÉTÉ");
    search(&mut e, "É");
    assert_eq!(e.caret, 6);
}
