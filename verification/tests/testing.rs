use rust_rim::testing::{next_phase, progress, try_next_phase, Config, Phase, Progress, Verdict};

#[test]
fn progress_needs_more_than_the_version_line() {
    assert_eq!(progress(""), Progress::NotStarted);
    assert_eq!(progress("Command line arguments: -quicktest\n"), Progress::NotStarted);
    assert_eq!(progress("RimWorld by Ludeon Studios\n"), Progress::NotStarted);
    assert_eq!(progress("Mono path[0] = x\nRimWorld 1.6.4633 rev1261\n"), Progress::Started);
    assert_eq!(progress("RimWorld 1.6.4633\nUnloading 99 unused Assets to reduce memory usage.\n"), Progress::Loaded);
}

fn config() -> Config {
    let mut c = Config::new("/cfg".to_string(), "/cfg/game.log".to_string());
    c.settle_ms = 1000;
    c.timeout_ms = 10_000;
    c
}

const LOADED: &str = "RimWorld 1.6.4633\nUnloading 3 unused Assets to reduce memory usage.\n";

#[test]
fn quiet_after_loading_passes_and_stops_the_game() {
    let (phase, stop) = next_phase(&Phase::Starting, LOADED, false, None, 5000, 1500, &config());
    assert_eq!(phase, Phase::Done(Verdict::Passed));
    assert!(stop);
}

#[test]
fn quiet_not_long_enough_is_settling() {
    let (phase, stop) = next_phase(&Phase::Starting, LOADED, false, None, 5000, 500, &config());
    assert_eq!(phase, Phase::Settling { lines: 2, quiet_ms: 500 });
    assert!(!stop);
}

#[test]
fn errors_in_a_loaded_log_downgrade_the_verdict() {
    let log = "RimWorld 1.6.4633\nError: broken\nUnloading 3 unused Assets to reduce memory usage.\n";
    let (phase, _) = next_phase(&Phase::Starting, log, false, None, 5000, 1500, &config());
    assert_eq!(phase, Phase::Done(Verdict::LoadedWithErrors));
}

#[test]
fn death_during_loading_and_crash_before_it() {
    let (phase, stop) = next_phase(&Phase::Starting, "RimWorld 1.6.4633\n", true, Some(0), 100, 0, &config());
    assert_eq!(phase, Phase::Done(Verdict::DiedWhileLoading));
    assert!(!stop);
    let (phase, _) = next_phase(&Phase::Starting, "", true, Some(3), 100, 0, &config());
    assert_eq!(phase, Phase::Done(Verdict::Crashed { code: Some(3) }));
}

#[test]
fn timeout_stops_the_game() {
    let (phase, stop) = next_phase(&Phase::Starting, "RimWorld 1.6.4633\n", false, None, 10_000, 0, &config());
    assert_eq!(phase, Phase::Done(Verdict::TimedOut));
    assert!(stop);
}

#[test]
fn a_finished_run_stays_finished() {
    let done = Phase::Done(Verdict::Cancelled);
    let (phase, stop) = next_phase(&done, LOADED, true, None, 99_999, 99_999, &config());
    assert_eq!(phase, done);
    assert!(!stop);
}

#[test]
fn no_log_yet_is_starting_and_a_growing_log_is_loading() {
    let (phase, _) = next_phase(&Phase::Starting, "", false, None, 100, 0, &config());
    assert_eq!(phase, Phase::Starting);
    let (phase, _) = next_phase(&Phase::Starting, "a\nb\n", false, None, 100, 0, &config());
    assert_eq!(phase, Phase::Loading { lines: 2 });
}

#[test]
fn only_a_pass_is_a_success() {
    assert!(Verdict::Passed.is_success());
    assert!(!Verdict::LoadedWithErrors.is_success());
    assert!(!Verdict::TimedOut.is_success());
}

#[test]
fn checked_poll_refuses_only_an_unreadable_verdict() {
    assert_eq!(
        try_next_phase(&Phase::Starting, LOADED, false, None, 5000, 1500, &config()),
        Some((Phase::Done(Verdict::Passed), true))
    );
    let mut cut = LOADED.to_string();
    cut.push_str("Error ");
    cut.push_str(&"x".repeat(153));
    cut.push('é');
    cut.push('\n');
    assert_eq!(try_next_phase(&Phase::Starting, &cut, false, None, 5000, 1500, &config()), None);
    // Still loading: the verdict is not read, so the log need not group.
    assert_eq!(
        try_next_phase(&Phase::Starting, &cut, false, None, 5000, 500, &config()),
        Some((Phase::Settling { lines: 3, quiet_ms: 500 }, false))
    );
}
