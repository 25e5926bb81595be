use typoena::progress::{count, Phase};

#[test]
fn a_counted_phase_degrades_with_what_libgit2_knows() {
    assert_eq!(Phase::Packing { current: 0, total: 0 }.label(), "packing");
    assert_eq!(Phase::Packing { current: 3, total: 0 }.label(), "packing 3");
    assert_eq!(Phase::Sending { current: 3, total: 7 }.label(), "sending 3/7");
}

#[test]
fn every_phase_has_a_short_line_that_starts_lowercase() {
    for p in [
        Phase::JoiningWifi,
        Phase::SettingClock,
        Phase::VerifyingTls,
        Phase::ContactingOrigin,
        Phase::Packing { current: 1, total: 2 },
        Phase::Sending { current: 1, total: 2 },
        Phase::Downloading { current: 1, total: 2 },
        Phase::Retrying,
        Phase::Rebasing,
        Phase::WritingFiles,
        Phase::InstallingImage { kb: 1234 },
    ] {
        let line = p.label();
        assert!(!line.is_empty(), "a phase with no line would blank the notice");
        assert!(line.len() <= 24, "{line:?} is too long for the notice");
        assert!(
            line.starts_with(|c: char| c.is_lowercase()),
            "{line:?} should open lowercase like the terminal notices",
        );
    }
}

#[test]
fn count_renders_each_known_shape() {
    assert_eq!(count("downloading", 0, 0), "downloading");
    assert_eq!(count("downloading", 12, 0), "downloading 12");
    assert_eq!(count("downloading", 12, 40), "downloading 12/40");
    assert_eq!(Phase::InstallingImage { kb: 1234 }.label(), "installing 1234 KB");
}
