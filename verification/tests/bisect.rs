use std::collections::HashSet;

use rust_rim::bisect::driver::Hunt;
use rust_rim::bisect::search::{Deps, Kind, Search, Target};
use rust_rim::testing::Phase;
use rust_rim::log_analysis::{LogIssue, Severity};
use rust_rim::mod_data::mod_id::ModId;
use rust_rim::testing::Verdict;

fn ids(list: &[&str]) -> Vec<ModId> {
    list.iter().map(|s| ModId::new(s)).collect()
}

fn run(search: &mut Search, cause: &[&str]) -> usize {
    let cause = ids(cause);
    let mut runs = 0;
    while let Some(candidate) = search.next() {
        let reproduced = cause.iter().all(|c| candidate.active.contains(c));
        search.record(reproduced);
        runs += 1;
        assert!(runs < 500, "the search does not converge");
    }
    runs
}

fn search(candidates: &[&str]) -> Search {
    Search::new(ids(candidates), Vec::new(), Deps::default(), Vec::new())
}

fn names(count: usize) -> Vec<String> {
    (0..count).map(|i| format!("mod{i:02}")).collect()
}

#[test]
fn finds_a_single_culprit() {
    let mut s = search(&["a", "b", "c", "d", "e", "f", "g", "h"]);
    run(&mut s, &["f"]);
    assert_eq!(s.result(), ids(&["f"]));
}

#[test]
fn finds_a_conflicting_pair() {
    let mut s = search(&["a", "b", "c", "d", "e", "f", "g", "h"]);
    run(&mut s, &["b", "g"]);
    assert_eq!(s.result(), ids(&["b", "g"]));
}

#[test]
fn a_single_culprit_costs_far_fewer_runs_than_brute_force() {
    let names = names(64);
    let refs: Vec<&str> = names.iter().map(String::as_str).collect();
    let mut s = Search::new(ids(&refs), Vec::new(), Deps::default(), Vec::new());

    let runs = run(&mut s, &["mod40"]);
    assert_eq!(s.result(), ids(&["mod40"]));
    assert!(runs < 32, "{runs} runs: dearer than trying half the build");
}

#[test]
fn a_matching_hint_saves_most_of_the_work() {
    let names = names(64);
    let refs: Vec<&str> = names.iter().map(String::as_str).collect();

    let mut without = Search::new(ids(&refs), Vec::new(), Deps::default(), Vec::new());
    let plain = run(&mut without, &["mod40"]);

    let mut with = Search::new(ids(&refs), Vec::new(), Deps::default(), ids(&["mod39", "mod40", "mod41"]));
    let hinted = run(&mut with, &["mod40"]);

    assert_eq!(with.result(), ids(&["mod40"]));
    assert!(hinted < plain, "the hint saved nothing: {hinted} against {plain}");
}

#[test]
fn a_hint_naming_half_of_a_pair_still_saves_work() {
    let names = names(64);
    let refs: Vec<&str> = names.iter().map(String::as_str).collect();

    let mut without = Search::new(ids(&refs), Vec::new(), Deps::default(), Vec::new());
    let plain = run(&mut without, &["mod05", "mod50"]);

    let mut with = Search::new(ids(&refs), Vec::new(), Deps::default(), ids(&["mod05"]));
    let hinted = run(&mut with, &["mod05", "mod50"]);

    assert_eq!(with.result(), ids(&["mod05", "mod50"]));
    assert!(hinted * 2 < plain, "a hint on half of a pair did not help: {hinted} against {plain}");
}

#[test]
fn a_wrong_hint_does_not_lose_the_culprit() {
    let mut s = Search::new(ids(&["a", "b", "c", "d", "e", "f", "g", "h"]), Vec::new(), Deps::default(), ids(&["a", "b"]));
    run(&mut s, &["g"]);
    assert_eq!(s.result(), ids(&["g"]));
}

#[test]
fn a_partly_wrong_hint_is_trimmed_down() {
    let mut s = Search::new(ids(&["a", "b", "c", "d", "e", "f", "g", "h"]), Vec::new(), Deps::default(), ids(&["a", "b", "c"]));
    run(&mut s, &["b", "h"]);
    assert_eq!(s.result(), ids(&["b", "h"]));
}

#[test]
fn dependencies_are_always_included() {
    let mut deps = Deps::default();
    deps.insert(ModId::new("b"), ids(&["a"]));

    let mut s = Search::new(ids(&["a", "b", "c", "d"]), Vec::new(), deps, Vec::new());
    while let Some(candidate) = s.next() {
        if candidate.active.contains(&ModId::new("b")) {
            assert!(candidate.active.contains(&ModId::new("a")), "the dependency was not pulled in: {:?}", candidate.active);
        }
        s.record(candidate.active.contains(&ModId::new("c")));
    }
    assert_eq!(s.result(), ids(&["c"]));
}

#[test]
fn base_mods_are_in_every_run() {
    let mut s = Search::new(ids(&["a", "b", "c"]), ids(&["core"]), Deps::default(), Vec::new());
    while let Some(candidate) = s.next() {
        assert!(candidate.active.contains(&ModId::new("core")));
        s.record(candidate.active.contains(&ModId::new("b")));
    }
}

#[test]
fn the_same_set_is_never_run_twice() {
    let mut s = search(&["a", "b", "c", "d", "e", "f"]);
    let mut seen: HashSet<Vec<String>> = HashSet::new();
    while let Some(candidate) = s.next() {
        let mut key: Vec<String> = candidate.active.iter().map(|m| m.as_str().to_string()).collect();
        key.sort();
        assert!(seen.insert(key), "a set came again: {:?}", candidate.active);
        s.record(candidate.active.contains(&ModId::new("e")));
    }
}

#[test]
fn runs_keep_the_original_load_order() {
    let mut s = Search::new(ids(&["a", "b", "c", "d"]), ids(&["core"]), Deps::default(), Vec::new());
    while let Some(candidate) = s.next() {
        let mut sorted = candidate.active.clone();
        sorted.sort_by_key(|id| s.order().iter().position(|o| o == id).expect("a mod of the build"));
        assert_eq!(candidate.active, sorted, "the load order was broken");
        s.record(false);
    }
}

#[test]
fn an_empty_build_finishes_immediately() {
    let mut s = search(&[]);
    assert!(s.next().is_none());
    assert!(s.is_done());
}

#[test]
fn a_single_mod_needs_no_runs() {
    let mut s = search(&["only"]);
    assert!(s.next().is_none());
    assert_eq!(s.result(), ids(&["only"]));
}

#[test]
fn stopping_keeps_the_current_approximation() {
    let mut s = search(&["a", "b", "c", "d"]);
    s.next();
    s.record(true);
    let narrowed = s.result();
    s.stop();
    assert!(s.is_done());
    assert_eq!(s.result(), narrowed);
    assert!(s.next().is_none());
}

#[test]
fn dependency_closure_is_transitive() {
    let mut deps = Deps::default();
    deps.insert(ModId::new("c"), ids(&["b"]));
    deps.insert(ModId::new("b"), ids(&["a"]));

    let mut closed = deps.close(&ids(&["c"]));
    closed.sort();
    assert_eq!(closed, ids(&["a", "b", "c"]));
}

fn issue(title: &str) -> LogIssue {
    LogIssue {
        severity: Severity::Error,
        title: title.to_string(),
        full_text: title.to_string(),
        count: 1,
        frames: Vec::new(),
        suspects: Vec::new(),
        harmony_hint: None,
    }
}

#[test]
fn target_matches_the_original_issue_only() {
    let target = Target::from_issues(&[issue("боль")]);
    assert_eq!(target, Target::Issue("боль".into()));

    assert!(target.matches(&Verdict::LoadedWithErrors, &[issue("боль")]));
    assert!(!target.matches(&Verdict::Crashed { code: Some(1) }, &[issue("другая")]));
}

#[test]
fn without_issues_any_failure_counts() {
    let target = Target::from_issues(&[]);
    assert_eq!(target, Target::AnyFailure);
    assert!(target.matches(&Verdict::DiedWhileLoading, &[]));
    assert!(!target.matches(&Verdict::Passed, &[]));
}

#[test]
fn a_conflicting_triple_is_found_whole() {
    let mut s = search(&["a", "b", "c", "d", "e", "f", "g", "h", "i", "j"]);
    run(&mut s, &["b", "e", "i"]);
    let mut r = s.result();
    r.sort();
    assert_eq!(r, ids(&["b", "e", "i"]));
}

fn hunt(candidates: &[&str]) -> Hunt {
    Hunt::new(Search::new(ids(candidates), Vec::new(), Deps::default(), Vec::new()), Target::AnyFailure)
}

#[test]
fn the_same_set_is_offered_until_a_run_is_attached() {
    let mut h = hunt(&["a", "b", "c", "d"]);
    let first = h.wants_run().expect("есть что проверять");
    assert_eq!(h.wants_run().as_deref(), Some(first.as_slice()));
}

#[test]
fn cancelling_stops_asking_for_runs() {
    let mut h = hunt(&["a", "b", "c", "d"]);
    h.wants_run();
    h.cancel();
    assert!(h.wants_run().is_none());
    assert!(h.is_done());
    assert!(h.was_cancelled());
}

#[test]
fn an_empty_build_is_done_at_once() {
    let mut h = hunt(&[]);
    assert!(h.wants_run().is_none());
    assert!(h.is_done());
}

#[test]
fn a_finished_run_is_recorded_as_an_attempt() {
    let mut h = hunt(&["a", "b", "c", "d"]);
    assert_eq!(h.started_with(), 4);
    let set = h.wants_run().expect("a set to run");
    assert!(!h.poll(&Phase::Done(Verdict::Passed), &[], set.len()), "no run attached yet");
    h.attach();
    assert!(h.is_running());
    assert!(h.wants_run().is_none(), "one run at a time");
    assert!(!h.poll(&Phase::Starting, &[], set.len()));
    assert!(h.poll(&Phase::Done(Verdict::TimedOut), &[], set.len()));
    assert!(!h.is_running());
    assert_eq!(h.attempts().len(), 1);
    let a = &h.attempts()[0];
    assert_eq!(a.kind, Kind::Part);
    assert_eq!(a.verdict, Verdict::TimedOut);
    assert_eq!(a.size, set.len());
    assert!(a.reproduced);
    assert_eq!(h.off_target(), 0);
}

#[test]
fn an_off_target_failure_is_counted() {
    let mut h = Hunt::new(
        Search::new(ids(&["a", "b", "c", "d"]), Vec::new(), Deps::default(), Vec::new()),
        Target::Issue("NullReferenceException".to_string()),
    );
    let set = h.wants_run().expect("a set to run");
    h.attach();
    assert!(h.poll(&Phase::Done(Verdict::LoadedWithErrors), &[], set.len()));
    assert!(!h.attempts()[0].reproduced);
    assert_eq!(h.off_target(), 1);
}

#[test]
fn a_run_stopped_by_the_user_cancels_the_hunt() {
    let mut h = hunt(&["a", "b", "c", "d"]);
    h.wants_run();
    h.attach();
    assert!(h.poll(&Phase::Done(Verdict::Cancelled), &[], 2));
    assert!(h.was_cancelled());
    assert!(h.is_done());
    assert!(h.attempts().is_empty());
}

#[test]
fn a_failed_run_seeds_the_hunt() {
    let mut broken = issue("Error in Foo");
    broken.severity = Severity::Error;
    let h = Hunt::from_failed_run(&rust_rim::mod_data::db::ModDb::empty(), &rust_rim::mod_data::profile::Profile::new(), &[broken]);
    assert_eq!(h.target(), &Target::Issue("Error in Foo".to_string()));
    assert!(h.is_done(), "an empty build has nothing to narrow");
    assert_eq!(h.started_with(), 0);
    assert!(!h.was_cancelled());
}

#[test]
fn every_offered_set_enables_its_part_and_keeps_the_culprit() {
    let all = ["a", "b", "c", "d", "e", "f", "g"];
    let mut s = search(&all);
    let culprit = ModId::new("e");
    let mut before = s.runs();
    while let Some(c) = s.next() {
        for x in &c.subset {
            assert!(c.active.contains(x));
        }
        let again = s.next().unwrap();
        assert_eq!(again.active, c.active);
        s.record(c.active.contains(&culprit));
        assert_eq!(s.runs(), before + 1);
        assert_eq!(s.steps().len(), s.runs());
        assert!(s.result().contains(&culprit));
        before = s.runs();
    }
    assert!(s.is_done());
    assert!(s.next().is_none());
    assert_eq!(s.result(), ids(&["e"]));
}

#[test]
fn a_stopped_search_offers_nothing() {
    let mut s = search(&["a", "b", "c", "d"]);
    let first = s.next().unwrap();
    s.record(first.active.contains(&ModId::new("a")));
    let r = s.result();
    s.stop();
    assert!(s.next().is_none());
    s.record(true);
    assert_eq!(s.result(), r);
    assert!(s.is_done());
}

#[test]
fn runs_stay_within_two_per_halving() {
    let names = names(64);
    let refs: Vec<&str> = names.iter().map(String::as_str).collect();
    let mut plain = Search::new(ids(&refs), Vec::new(), Deps::default(), Vec::new());
    let plain_runs = run(&mut plain, &["mod40"]);
    assert!(plain_runs <= 12, "{plain_runs} runs for 64 mods");
    let mut hinted = Search::new(ids(&refs), Vec::new(), Deps::default(), ids(&["mod39", "mod40", "mod41"]));
    let hinted_runs = run(&mut hinted, &["mod40"]);
    assert!(hinted_runs <= 5, "{hinted_runs} runs with a hint of three");
    assert_eq!(hinted.result(), ids(&["mod40"]));
}
