//! Sync decisions.

use jotlog::sync::{
    classify_pull_output, classify_push_output, commit_message, conflict_side, detect_repo,
    fetch_result, git_failure, has_conflict_markers, idle_pull_due, is_offline_error,
    lists_remote, next_push_step, push_args, read_count, resolve_args, resolve_rebase_conflict,
    short_err, state_on_open, sync_status_indicator, Ancestor, FetchOutcome, PullOutcome,
    PushOutcome, PushStep, ResolveStep, StepResult, SyncState, TimeoutFallback,
};

#[test]
fn detects_conflict_markers() {
    assert!(has_conflict_markers("foo\n<<<<<<< HEAD\nbar\n=======\nbaz\n>>>>>>> branch\n"));
    assert!(!has_conflict_markers("foo\nbar\nbaz\n"));
    assert!(!has_conflict_markers("a < b\nstill < ok\n"));
}

#[test]
fn offline_error_detection() {
    assert!(is_offline_error("fatal: Could not resolve host: github.com"));
    assert!(is_offline_error("fatal: unable to access 'https://github.com/...': "));
    assert!(!is_offline_error("fatal: Authentication failed"));
}

#[test]
fn pulls_are_classified() {
    let up = classify_pull_output("Already up to date.", "", true);
    assert!(matches!(up, PullOutcome::UpToDate));
    assert!(matches!(classify_pull_output("Updating", "", true), PullOutcome::FastForwarded));
    let conflict = classify_pull_output("", "CONFLICT (content)", false);
    assert!(matches!(conflict, PullOutcome::Conflicted));
    let offline = classify_pull_output("", "fatal: Could not resolve host: x", false);
    assert!(matches!(offline, PullOutcome::Offline));
    match classify_pull_output("", " fatal: bad key \n", false) {
        PullOutcome::Error(e) => assert_eq!(e, "fatal: bad key"),
        _ => panic!("error expected"),
    }
}

#[test]
fn pushes_are_classified() {
    let none = classify_push_output("Everything up-to-date", "", true);
    assert!(matches!(none, PushOutcome::NothingToPush));
    assert!(matches!(classify_push_output("", "", true), PushOutcome::Pushed));
    let behind = classify_push_output("", "! [rejected] (non-fast-forward)", false);
    assert!(matches!(behind, PushOutcome::Conflicted));
    let offline = classify_push_output("", "Connection refused", false);
    assert!(matches!(offline, PushOutcome::Offline));
    assert!(matches!(classify_push_output("", "denied", false), PushOutcome::Error(_)));
}

#[test]
fn timeouts_count_as_offline() {
    assert!(matches!(PullOutcome::from(TimeoutFallback::Timeout), PullOutcome::Offline));
    match PushOutcome::from(TimeoutFallback::SpawnFailed("no git".to_string())) {
        PushOutcome::Error(e) => assert_eq!(e, "spawn git: no git"),
        _ => panic!("error expected"),
    }
    match PullOutcome::from(TimeoutFallback::IoError("pipe".to_string())) {
        PullOutcome::Error(e) => assert_eq!(e, "pipe"),
        _ => panic!("error expected"),
    }
    assert!(!bool::from(TimeoutFallback::Timeout));
}

#[test]
fn nothing_staged_is_not_committed() {
    let step = next_push_step(PushStep::Add, StepResult::Success);
    assert!(matches!(step, PushStep::CheckStaged));
    assert!(matches!(next_push_step(PushStep::CheckStaged, StepResult::Success), PushStep::Push));
    let step = next_push_step(PushStep::CheckStaged, StepResult::Failure);
    assert!(matches!(step, PushStep::Commit));
    assert!(matches!(next_push_step(step, StepResult::Success), PushStep::Push));
    let step = next_push_step(PushStep::Add, StepResult::Error("no repo".to_string()));
    assert!(matches!(step, PushStep::Done(PushOutcome::Error(_))));
}

#[test]
fn git_output_is_read() {
    assert!(lists_remote("origin\n", true));
    assert!(!lists_remote("  \n", true));
    assert!(!lists_remote("origin\n", false));
    assert_eq!(read_count(" 3\n", true), 3);
    assert_eq!(read_count("x", true), 0);
    assert_eq!(read_count("3", false), 0);
    assert!(matches!(fetch_result(true, 0), FetchOutcome::UpToDate));
    assert!(matches!(fetch_result(true, 2), FetchOutcome::BehindBy(2)));
    assert!(matches!(fetch_result(false, 2), FetchOutcome::Offline));
    assert_eq!(git_failure(" denied \n", "git [\"push\"] failed"), "denied");
    assert_eq!(git_failure("  ", "git [\"push\"] failed"), "git [\"push\"] failed");
}

#[test]
fn sides_are_swapped_in_a_rebase() {
    assert_eq!(conflict_side(true), "--theirs");
    assert_eq!(conflict_side(false), "--ours");
}

#[test]
fn the_state_on_opening() {
    assert!(matches!(state_on_open(false, None, false), SyncState::Disabled));
    assert!(matches!(state_on_open(true, None, false), SyncState::Idle));
    let offline = state_on_open(true, Some(PullOutcome::Offline), false);
    assert!(matches!(offline, SyncState::Offline));
    assert!(matches!(state_on_open(false, None, true), SyncState::Conflict));
}

#[test]
fn pulls_wait_for_the_interval() {
    assert!(idle_pull_due(300, true, &SyncState::AheadBy(1), 301));
    assert!(!idle_pull_due(300, false, &SyncState::Idle, 301));
    assert!(!idle_pull_due(300, true, &SyncState::Conflict, 301));
}

#[test]
fn the_indicator_is_short() {
    assert_eq!(sync_status_indicator(&SyncState::Disabled), "");
    assert_eq!(sync_status_indicator(&SyncState::Idle), "  \u{2713}");
    assert_eq!(sync_status_indicator(&SyncState::AheadBy(12)), "  \u{2191}12");
    assert_eq!(sync_status_indicator(&SyncState::Pulling), "  \u{2193}\u{2026}");
    assert_eq!(sync_status_indicator(&SyncState::Pushing), "  \u{2191}\u{2026}");
    assert_eq!(sync_status_indicator(&SyncState::Offline), "  offline");
    assert_eq!(sync_status_indicator(&SyncState::Conflict), "  conflict");
    let e = SyncState::Error("  bad key\nmore".to_string());
    assert_eq!(sync_status_indicator(&e), "  sync: bad key");
    let long = "x".repeat(60);
    assert_eq!(short_err(&long), format!("{}\u{2026}", "x".repeat(50)));
}

fn ancestor(path: &str, has_git: bool) -> Ancestor {
    Ancestor { path: path.to_string(), has_git }
}

#[test]
fn the_nearest_repository_is_taken() {
    let chain = vec![ancestor("/a/b/c", false), ancestor("/a/b", true), ancestor("/a", true)];
    assert_eq!(detect_repo(&chain).as_deref(), Some("/a/b"));
    assert_eq!(detect_repo(&vec![ancestor("/a", false), ancestor("/", false)]), None);
    assert_eq!(detect_repo(&vec![]), None);
}

#[test]
fn git_gets_these_arguments() {
    let message = commit_message("2026-05-12 15:22");
    assert_eq!(message, "notes: 2026-05-12 15:22");
    assert_eq!(push_args(&PushStep::Add, "log.jot", &message), vec!["add", "--", "log.jot"]);
    assert_eq!(
        push_args(&PushStep::CheckStaged, "log.jot", &message),
        vec!["diff", "--cached", "--quiet"]
    );
    assert_eq!(
        push_args(&PushStep::Commit, "log.jot", &message),
        vec!["commit", "-m", "notes: 2026-05-12 15:22"]
    );
    assert_eq!(push_args(&PushStep::Push, "log.jot", &message), vec!["push"]);
    assert_eq!(
        resolve_args(&ResolveStep::Checkout, "log.jot", true),
        vec!["checkout", "--theirs", "--", "log.jot"]
    );
    assert_eq!(
        resolve_args(&ResolveStep::Checkout, "log.jot", false),
        vec!["checkout", "--ours", "--", "log.jot"]
    );
    assert_eq!(resolve_args(&ResolveStep::Continue, "log.jot", false), vec!["rebase", "--continue"]);
}

#[test]
fn resolving_goes_step_by_step() {
    let step = resolve_rebase_conflict(ResolveStep::Checkout, Ok(()));
    assert!(matches!(step, ResolveStep::Add));
    let step = resolve_rebase_conflict(step, Ok(()));
    assert!(matches!(step, ResolveStep::Continue));
    match resolve_rebase_conflict(ResolveStep::Continue, Err("no rebase".to_string())) {
        ResolveStep::Done(r) => assert_eq!(r, Err("no rebase".to_string())),
        _ => panic!("an error ends it"),
    }
    let step = resolve_rebase_conflict(step, Ok(()));
    assert!(matches!(step, ResolveStep::Push));
    assert!(matches!(resolve_rebase_conflict(step, Ok(())), ResolveStep::Done(Ok(()))));
}
