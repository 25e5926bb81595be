use typoena::buffers::Scope;
use typoena::ports::{
    ClockDispatch, ClockOutcome, NetOutcome, PullDispatch, PullIntent, PullOutcome, PushDispatch,
    PushOutcome, SetupDispatch, Unsynced, UpdateDispatch, UpdateOutcome,
};
use typoena::runtime::{
    clock_dispatched, delete_notice, discard_paths, file_stem, idle_rung, idle_save_due,
    link_target_text, outcome_plan, publish_notice, pull_dispatched, pull_notice, push_dispatched,
    push_notice, rename_clue, setup_dispatched, sync_holds_off_save, update_dispatched, IdleRung,
};

#[test]
fn file_stem_strips_dir_and_extension() {
    assert_eq!(file_stem("/sd/repo/notes.md"), "notes");
    assert_eq!(file_stem("/sd/local/2026-07-18.md"), "2026-07-18");
    assert_eq!(file_stem("bare"), "bare");
}

#[test]
fn push_notice_covers_every_variant() {
    assert_eq!(push_notice(&PushOutcome::Pushed("abc123".into())), "synced abc123");
    assert_eq!(push_notice(&PushOutcome::UpToDate), "up to date");
    assert_eq!(push_notice(&PushOutcome::Failed("no wifi".into())), "no wifi");
}

#[test]
fn pull_notice_covers_every_variant() {
    assert_eq!(pull_notice(&PullOutcome::Pulled("abc".into())), "pulled abc");
    assert_eq!(pull_notice(&PullOutcome::Rebased("def".into())), "rebased def - :gs to push");
    assert_eq!(pull_notice(&PullOutcome::UpToDate), "up to date");
    assert_eq!(pull_notice(&PullOutcome::LocalAhead), "ahead - :gs to push");
    assert_eq!(pull_notice(&PullOutcome::Failed("boom".into())), "boom");
}

#[test]
fn file_stem_keeps_inner_dots_and_handles_hidden_files() {
    assert_eq!(file_stem("/sd/repo/notes.pub.md"), "notes.pub");
    assert_eq!(file_stem("/sd/repo/.typoena.toml"), ".typoena");
    assert_eq!(file_stem("/sd/repo/"), "repo");
}

#[test]
fn a_moving_pull_reloads_prefs_rewalks_and_refreshes_buffers() {
    let p = outcome_plan(&NetOutcome::Pull(PullOutcome::Pulled("abc".into())), false, false);
    assert!(p.settle_slot && p.reload_prefs && p.rewalk && p.refresh_resident);
    assert!(!p.settle_discarded && !p.touch_oldest && !p.reboot);
    assert_eq!(p.notice.as_deref(), Some("pulled abc"));
}

#[test]
fn a_discard_with_a_still_pull_rewalks_without_refreshing() {
    let p = outcome_plan(&NetOutcome::Pull(PullOutcome::UpToDate), true, false);
    assert!(p.settle_discarded && p.reload_prefs && p.rewalk);
    assert!(!p.refresh_resident);
    let q = outcome_plan(&NetOutcome::Pull(PullOutcome::UpToDate), false, false);
    assert!(!q.reload_prefs && !q.rewalk && !q.settle_discarded);
}

#[test]
fn progress_touches_the_oldest_sync_and_settles_nothing() {
    let p = outcome_plan(&NetOutcome::Progress("sending 3/7".into()), false, false);
    assert!(p.touch_oldest && !p.settle_slot);
    assert_eq!(p.notice.as_deref(), Some("sending 3/7"));
}

#[test]
fn a_clock_sync_is_silent_unless_an_inbox_waits_on_it() {
    let ok = outcome_plan(&NetOutcome::Clock(ClockOutcome::Synced), false, true);
    assert!(ok.notice.is_none() && !ok.settle_slot);
    let quiet = outcome_plan(&NetOutcome::Clock(ClockOutcome::Failed("offline".into())), false, false);
    assert!(quiet.notice.is_none());
    let said = outcome_plan(&NetOutcome::Clock(ClockOutcome::Failed("offline".into())), false, true);
    assert_eq!(said.notice.as_deref(), Some("offline"));
}

#[test]
fn update_outcomes_say_what_happened() {
    let inst = outcome_plan(&NetOutcome::Update(UpdateOutcome::Installed("1.2".into())), false, false);
    assert!(inst.reboot);
    assert_eq!(inst.notice.as_deref(), Some("updated to 1.2 - restarting..."));
    let cur = outcome_plan(&NetOutcome::Update(UpdateOutcome::UpToDate("1.1".into())), false, false);
    assert_eq!(cur.notice.as_deref(), Some("firmware up to date (1.1)"));
    assert!(!cur.reboot && cur.settle_slot);
    let push = outcome_plan(&NetOutcome::Push(PushOutcome::UpToDate), false, false);
    assert_eq!(push.notice.as_deref(), Some("up to date"));
}

#[test]
fn the_idle_save_waits_for_a_pause_and_stands_down_for_a_sync() {
    assert!(idle_save_due(false, true, false, false, true, true, 1500));
    assert!(!idle_save_due(false, true, false, false, true, true, 1499));
    assert!(!idle_save_due(true, true, false, false, true, true, 5000)); // once per window
    assert!(!idle_save_due(false, false, false, false, true, true, 5000));
    assert!(!idle_save_due(false, true, true, false, true, true, 5000));
    assert!(!idle_save_due(false, true, false, true, true, true, 5000));
    assert!(!idle_save_due(false, true, false, false, false, true, 5000));
    assert!(!idle_save_due(false, true, false, false, true, false, 5000));
    assert!(sync_holds_off_save(1, Scope::Repo));
    assert!(!sync_holds_off_save(1, Scope::Local));
    assert!(!sync_holds_off_save(0, Scope::Repo));
}

#[test]
fn the_idle_sequence_runs_its_rungs_in_order() {
    assert_eq!(idle_rung(true, true, false, true, true, true, true), IdleRung::Rest);
    assert_eq!(idle_rung(false, true, false, true, true, true, true), IdleRung::ShowNotice);
    assert_eq!(idle_rung(false, true, true, true, true, true, true), IdleRung::Hold);
    assert_eq!(idle_rung(false, false, false, true, true, true, true), IdleRung::AdoptFiles);
    assert_eq!(idle_rung(false, false, false, false, true, true, true), IdleRung::KeyboardFlag);
    assert_eq!(idle_rung(false, false, false, false, false, true, true), IdleRung::FullRefresh);
    assert_eq!(idle_rung(false, false, false, false, false, false, true), IdleRung::Caret);
    assert_eq!(idle_rung(false, false, false, false, false, false, false), IdleRung::Yield);
}

#[test]
fn publish_and_delete_notices_name_the_file() {
    assert_eq!(publish_notice("/sd/repo/a.pub.md", false, 0), "publish FAILED - retry :w");
    assert_eq!(publish_notice("/sd/repo/a.pub.md", true, 0), "published repo/a.pub.md - :gs to push");
    assert_eq!(publish_notice("/sd/repo/a.pub.md", true, 1), "published repo/a.pub.md +1 link - :gs to push");
    assert_eq!(publish_notice("/sd/repo/a.pub.md", true, 12), "published repo/a.pub.md +12 links - :gs to push");
    assert_eq!(delete_notice("/sd/repo/n.md", Scope::Repo, true), "deleted repo/n.md - :gs to push");
    assert_eq!(delete_notice("/sd/local/j.md", Scope::Local, true), "deleted local/j.md");
    assert_eq!(delete_notice("/sd/local/j.md", Scope::Local, false), "delete FAILED: local/j.md");
}

#[test]
fn an_available_release_prompts_instead_of_installing() {
    let p = outcome_plan(&NetOutcome::Update(UpdateOutcome::Available("0.15.0".into())), false, false);
    assert_eq!(p.prompt_install.as_deref(), Some("0.15.0"));
    assert!(p.notice.is_none() && !p.reboot && p.settle_slot);
    let inst = outcome_plan(&NetOutcome::Update(UpdateOutcome::Installed("0.15.0".into())), false, false);
    assert!(inst.prompt_install.is_none());
}

#[test]
fn a_dispatched_push_or_update_is_in_flight() {
    let p = push_dispatched(&PushDispatch::Dispatched);
    assert!(p.in_flight);
    assert_eq!(p.notice, "syncing...");
    let q = push_dispatched(&PushDispatch::ThreadDown);
    assert!(!q.in_flight);
    assert_eq!(q.notice, "sync: git thread down");
    let u = update_dispatched(&UpdateDispatch::Dispatched);
    assert!(u.in_flight);
    assert_eq!(u.notice, "checking for update...");
    let d = update_dispatched(&UpdateDispatch::ThreadDown);
    assert!(!d.in_flight);
    assert_eq!(d.notice, "update: git thread down");
}

#[test]
fn a_dead_net_thread_releases_the_held_inbox() {
    let down = clock_dispatched(&ClockDispatch::ThreadDown);
    assert!(down.release_inbox);
    assert_eq!(down.notice, "clock: net thread down");
    let up = clock_dispatched(&ClockDispatch::Dispatched);
    assert!(!up.release_inbox);
    assert_eq!(up.notice, "inbox: setting the clock...");
}

#[test]
fn setup_restarts_only_once_its_marker_is_saved() {
    let ready = setup_dispatched(&SetupDispatch::Ready);
    assert!(ready.reboot);
    assert_eq!(ready.notice, "opening setup - restarting...");
    let failed = setup_dispatched(&SetupDispatch::MarkerFailed);
    assert!(!failed.reboot);
    assert_eq!(failed.notice, "setup: could not save marker");
    assert_eq!(rename_clue(), "publishing...");
}

fn journal() -> Vec<Unsynced> {
    vec![Unsynced { path: "notes.md".into() }, Unsynced { path: "inbox/day.md".into() }]
}

#[test]
fn a_confirmed_discard_records_the_card_paths_it_rolls_back() {
    assert_eq!(
        discard_paths(PullIntent::Discard, &journal()),
        vec!["/sd/repo/notes.md".to_string(), "/sd/repo/inbox/day.md".to_string()]
    );
    assert!(discard_paths(PullIntent::Commit, &journal()).is_empty());
    assert!(discard_paths(PullIntent::Ask, &journal()).is_empty());
    assert!(discard_paths(PullIntent::Discard, &Vec::new()).is_empty());
}

#[test]
fn pull_with_unsynced_saves_raises_the_card_with_the_file_list() {
    let pending = vec!["/sd/repo/x.md".to_string()];
    let step = pull_dispatched(PullDispatch::NeedsConfirm(journal()), pending.clone());
    let names: Vec<String> = step.confirm.expect("card").into_iter().map(|u| u.path).collect();
    assert_eq!(names, vec!["notes.md".to_string(), "inbox/day.md".to_string()]);
    assert!(!step.in_flight && step.notice.is_none());
    assert_eq!(step.pending, pending);
}

#[test]
fn a_dispatched_pull_keeps_the_recorded_paths() {
    let pending = vec!["/sd/repo/notes.md".to_string()];
    let step = pull_dispatched(PullDispatch::Dispatched, pending.clone());
    assert!(step.in_flight && step.confirm.is_none());
    assert_eq!(step.notice.as_deref(), Some("pulling..."));
    assert_eq!(step.pending, pending);
}

#[test]
fn a_thread_down_discard_leaves_the_buffers_alone() {
    let pending = discard_paths(PullIntent::Discard, &journal());
    let step = pull_dispatched(PullDispatch::ThreadDown, pending);
    assert!(step.pending.is_empty());
    assert!(!step.in_flight && step.confirm.is_none());
    assert_eq!(step.notice.as_deref(), Some("pull: git thread down"));
}

#[test]
fn an_unreadable_link_target_falls_back_to_no_text() {
    assert_eq!(link_target_text(Ok("# Title".to_string())), Some("# Title".to_string()));
    assert_eq!(link_target_text(Err(anyhow::Error::msg("no card"))), None);
}

#[test]
fn file_stem_follows_the_path_rules() {
    // No file name: the raw path comes back.
    assert_eq!(file_stem("/"), "/");
    assert_eq!(file_stem("/sd/repo/.."), "/sd/repo/..");
    assert_eq!(file_stem("./"), "./");
    // Repeated separators and `.` components are normalized away.
    assert_eq!(file_stem("/sd//repo/./notes.md/."), "notes");
    // A leading dot alone is part of the name; a trailing one ends the stem.
    assert_eq!(file_stem("x/.hidden"), ".hidden");
    assert_eq!(file_stem("x/draft."), "draft");
    assert_eq!(file_stem("x/..."), "..");
}
