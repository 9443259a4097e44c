//! Drives the game through the sets that [`super::search`] hands out.
//!
//! The driver starts no processes: only the application, which holds the
//! settings and paths, can build the command. The driver says which set is
//! needed, is told that a run was started and how it ended, and turns that
//! into "reproduced / not reproduced".

use vstd::prelude::*;
use crate::log_analysis::{LogIssue, Suspect};
use crate::mod_data::db::ModDb;
use crate::mod_data::mod_id::{looks_normalized, normalize, ModId};
use crate::mod_data::profile::{id_views, Profile};
use crate::testing::{Phase as RunPhase, Verdict};
use super::search::{
    candidate_view, in_any, not_vanilla_in, offered, recorded, reproduces, useful_hint, vanilla_in, Kind, Phase, Search,
    Target,
};

verus! {

/// How one run ended.
#[derive(Clone, Debug)]
pub struct Attempt {
    /// Where the set came from: a part of the build, a complement or the
    /// log's suspects.
    pub kind: Kind,
    pub verdict: Verdict,
    /// How many mods the build had.
    pub size: usize,
    pub reproduced: bool,
}

/// A hunt for the mods behind a failure, in progress.
pub struct Hunt {
    search: Search,
    target: Target,
    /// A run was started for the set handed out and has not ended yet (the
    /// application holds the run itself).
    running: bool,
    /// How many mods the original build had, to show the narrowing.
    started_with: usize,
    /// Runs that failed, but not in the way looked for.
    ///
    /// They have to count as "not reproduced" or the search would stall,
    /// but that weakens the result: a cut-down build may fail because
    /// something was taken from it. So their number is shown to the user.
    off_target: usize,
    attempts: Vec<Attempt>,
    /// Where the set being run came from.
    pending_kind: Option<Kind>,
    cancelled: bool,
}

/// The identifier a suspect's package id makes (`ModId::from`).
pub open spec fn hint_id(p: Seq<char>) -> Seq<char> {
    if looks_normalized(p) { p } else { normalize(p) }
}

/// The identifiers of the suspects that are enabled in the build.
pub open spec fn active_ids(ss: Seq<Suspect>) -> Seq<Seq<char>>
    decreases ss.len(),
{
    if ss.len() == 0 {
        Seq::empty()
    } else {
        active_ids(ss.drop_last()) + if ss.last().is_active { seq![hint_id(ss.last().package_id@)] } else { Seq::empty() }
    }
}

/// The enabled suspects of all entries, entry by entry.
pub open spec fn active_suspects(issues: Seq<LogIssue>) -> Seq<Seq<char>>
    decreases issues.len(),
{
    if issues.len() == 0 {
        Seq::empty()
    } else {
        active_suspects(issues.drop_last()) + active_ids(issues.last().suspects@)
    }
}

/// The number of mods in the current approximation of a search.
pub open spec fn result_len(s: Search) -> nat {
    s.order_v().filter(in_any(s.pinned_v(), s.pool_v(), s.found_v())).len()
}

pub open spec fn opt_ids(r: Option<Vec<ModId>>) -> Option<Seq<Seq<char>>> {
    match r {
        Some(v) => Some(id_views(v@)),
        None => None,
    }
}

/// What [`Hunt::wants_run`] does to `h`, giving `g` and offering the set
/// `r`: nothing while a run goes or after a cancel; otherwise the search
/// offers its next set (the one awaiting an answer, if any), whose origin
/// is noted.
pub open spec fn wanted(h: Hunt, g: Hunt, r: Option<Seq<Seq<char>>>) -> bool {
    &&& g.same_record(&h)
    &&& h.cancelled_v() || h.running_v() ==> r.is_none() && g == h
    &&& !h.cancelled_v() && !h.running_v() ==> exists|c: Option<(Kind, Seq<Seq<char>>, Seq<Seq<char>>)>| {
        &&& #[trigger] offered(h.search_v(), g.search_v(), c)
        &&& match c {
            Some((k, sub, act)) => r == Some(act) && g.pending_kind_v() == Some(k),
            None => r.is_none() && g.pending_kind_v() == h.pending_kind_v(),
        }
    }
}

/// Until a run is attached, the same set is offered again: when the game
/// could not be started, the queue does not move on.
pub proof fn law_same_set_until_attached(a: Hunt, b: Hunt, c: Hunt, first: Seq<Seq<char>>, second: Option<Seq<Seq<char>>>)
    requires
        wanted(a, b, Some(first)),
        wanted(b, c, second),
    ensures
        second == Some(first),
        c.search_v() == b.search_v(),
{
    let c1 = choose|c1: Option<(Kind, Seq<Seq<char>>, Seq<Seq<char>>)>| #[trigger] offered(a.search_v(), b.search_v(), c1)
        && match c1 {
        Some((k, sub, act)) => Some(first) == Some(act) && b.pending_kind_v() == Some(k),
        None => Some(first).is_none() && b.pending_kind_v() == a.pending_kind_v(),
    };
    assert(b.search_v().pending_v() == c1);
    let c2 = choose|c2: Option<(Kind, Seq<Seq<char>>, Seq<Seq<char>>)>| #[trigger] offered(b.search_v(), c.search_v(), c2)
        && match c2 {
        Some((k, sub, act)) => second == Some(act) && c.pending_kind_v() == Some(k),
        None => second.is_none() && c.pending_kind_v() == b.pending_kind_v(),
    };
}

impl Hunt {
    pub closed spec fn search_v(&self) -> Search {
        self.search
    }

    pub closed spec fn target_v(&self) -> Option<Seq<char>> {
        self.target@
    }

    pub closed spec fn running_v(&self) -> bool {
        self.running
    }

    pub closed spec fn started_v(&self) -> nat {
        self.started_with as nat
    }

    pub closed spec fn off_target_v(&self) -> nat {
        self.off_target as nat
    }

    pub closed spec fn attempts_v(&self) -> Seq<Attempt> {
        self.attempts@
    }

    pub closed spec fn pending_kind_v(&self) -> Option<Kind> {
        self.pending_kind
    }

    pub closed spec fn cancelled_v(&self) -> bool {
        self.cancelled
    }

    /// The search is well formed, and no more runs are off target than
    /// there are attempts.
    pub closed spec fn wf(&self) -> bool {
        &&& self.search.wf()
        &&& self.off_target <= self.attempts@.len()
    }

    /// Everything but the search and where its pending set came from is
    /// as in `other`.
    pub open spec fn same_record(&self, other: &Hunt) -> bool {
        &&& self.target_v() == other.target_v()
        &&& self.running_v() == other.running_v()
        &&& self.started_v() == other.started_v()
        &&& self.off_target_v() == other.off_target_v()
        &&& self.attempts_v() == other.attempts_v()
        &&& self.cancelled_v() == other.cancelled_v()
    }

    pub fn new(search: Search, target: Target) -> (r: Hunt)
        requires
            search.wf(),
        ensures
            r.wf(),
            r.search_v() == search,
            r.target_v() == target@,
            !r.running_v(),
            r.started_v() == result_len(search),
            r.off_target_v() == 0,
            r.attempts_v().len() == 0,
            r.pending_kind_v().is_none(),
            !r.cancelled_v(),
    {
        let started_with = search.result().len();
        Hunt {
            search,
            target,
            running: false,
            started_with,
            off_target: 0,
            attempts: Vec::new(),
            pending_kind: None,
            cancelled: false,
        }
    }

    /// Sets up a hunt from the analysis of a failed run.
    ///
    /// The suspects of the log analysis become the search's hint: when the
    /// culprit is among them, the build narrows from hundreds of mods to a
    /// handful in one run.
    pub fn from_failed_run(db: &ModDb, profile: &Profile, issues: &[LogIssue]) -> (r: Hunt)
        requires
            db.wf(),
            profile.wf(),
        ensures
            r.wf(),
            r.search_v().order_v() == profile@.filter(vanilla_in(*db)) + profile@.filter(not_vanilla_in(*db)),
            r.search_v().pool_v() == profile@.filter(not_vanilla_in(*db)),
            r.search_v().hint_v() == useful_hint(profile@.filter(not_vanilla_in(*db)), active_suspects(issues@)),
            r.search_v().tried().len() == 0,
            r.search_v().pending_v().is_none(),
            match r.target_v() {
                Some(t) => exists|i: int| 0 <= i < issues@.len() && #[trigger] issues@[i].severity == crate::log_analysis::Severity::Error
                    && issues@[i].title@ == t
                    && forall|j: int| 0 <= j < i ==> #[trigger] issues@[j].severity != crate::log_analysis::Severity::Error,
                None => forall|i: int| 0 <= i < issues@.len() ==> #[trigger] issues@[i].severity != crate::log_analysis::Severity::Error,
            },
            !r.running_v(),
            r.off_target_v() == 0,
            r.attempts_v().len() == 0,
            r.pending_kind_v().is_none(),
            !r.cancelled_v(),
    {
        let mut hint: Vec<ModId> = Vec::new();
        for i in 0..issues.len()
            invariant
                id_views(hint@) == active_suspects(issues@.take(i as int)),
        {
            assert(issues@.take(i + 1).drop_last() == issues@.take(i as int));
            let ss = &issues[i].suspects;
            let ghost before = id_views(hint@);
            for k in 0..ss.len()
                invariant
                    ss@ == issues@[i as int].suspects@,
                    id_views(hint@) == before + active_ids(ss@.take(k as int)),
            {
                assert(ss@.take(k + 1).drop_last() == ss@.take(k as int));
                if ss[k].is_active {
                    let ghost mid = id_views(hint@);
                    hint.push(ModId::from_normalized(ss[k].package_id.clone()));
                    assert(id_views(hint@) =~= mid.push(hint_id(ss@[k as int].package_id@)));
                } else {
                    assert(active_ids(ss@.take(k + 1)) =~= active_ids(ss@.take(k as int)));
                }
            }
            assert(ss@.take(ss@.len() as int) == ss@);
        }
        assert(issues@.take(issues@.len() as int) == issues@);
        let search = Search::from_profile(db, profile, hint);
        let target = Target::from_issues(issues);
        Hunt::new(search, target)
    }

    pub fn target(&self) -> (r: &Target)
        ensures
            r@ == self.target_v(),
    {
        &self.target
    }

    pub fn search(&self) -> (r: &Search)
        ensures
            *r == self.search_v(),
    {
        &self.search
    }

    /// Whether a run was started and has not ended.
    pub fn is_running(&self) -> (r: bool)
        ensures
            r == self.running_v(),
    {
        self.running
    }

    pub fn attempts(&self) -> (r: &[Attempt])
        ensures
            r@ == self.attempts_v(),
    {
        self.attempts.as_slice()
    }

    pub fn off_target(&self) -> (r: usize)
        ensures
            r == self.off_target_v(),
    {
        self.off_target
    }

    pub fn started_with(&self) -> (r: usize)
        ensures
            r == self.started_v(),
    {
        self.started_with
    }

    pub fn is_done(&self) -> (r: bool)
        ensures
            r == (self.cancelled_v() || (!self.running_v() && self.search_v().phase_v() == Phase::Done)),
    {
        self.cancelled || (!self.running && self.search.is_done())
    }

    pub fn was_cancelled(&self) -> (r: bool)
        ensures
            r == self.cancelled_v(),
    {
        self.cancelled
    }

    /// The set to run now, unless a run is going or the hunt was cancelled.
    ///
    /// Until a run is attached the same set is offered again: when the game
    /// could not be started, the queue must not move on.
    pub fn wants_run(&mut self) -> (r: Option<Vec<ModId>>)
        requires
            old(self).wf(),
        ensures
            final(self).wf(),
            wanted(*old(self), *final(self), opt_ids(r)),
    {
        if self.cancelled || self.running {
            return None;
        }
        match self.search.next() {
            Some(c) => {
                let ghost w = candidate_view(Some(c));
                assert(offered(old(self).search_v(), self.search_v(), w));
                self.pending_kind = Some(c.kind);
                let v = c.active;
                assert(w == Some((c.kind, id_views(c.subset@), id_views(v@))));
                assert(offered(old(self).search_v(), self.search_v(), w));
                assert(opt_ids(Some(v)) == Some(id_views(v@)));
                Some(v)
            },
            None => {
                let ghost w = candidate_view(None);
                assert(offered(old(self).search_v(), self.search_v(), w));
                None
            },
        }
    }

    /// Notes that a run was started for the set handed out.
    pub fn attach(&mut self)
        ensures
            final(self).running_v(),
            final(self).search_v() == old(self).search_v(),
            final(self).target_v() == old(self).target_v(),
            final(self).started_v() == old(self).started_v(),
            final(self).off_target_v() == old(self).off_target_v(),
            final(self).attempts_v() == old(self).attempts_v(),
            final(self).pending_kind_v() == old(self).pending_kind_v(),
            final(self).cancelled_v() == old(self).cancelled_v(),
            old(self).wf() ==> final(self).wf(),
    {
        self.running = true;
    }

    /// Takes the state of the run in progress. Returns `true` when the run
    /// has just ended: its attempt is recorded and the search moves on.
    ///
    /// A run stopped by the user is no answer (whether it would have
    /// reproduced is unknown): it cancels the hunt. `issues` are the entries
    /// of the run's log and `size` the number of mods it had.
    pub fn poll(&mut self, phase: &RunPhase, issues: &[LogIssue], size: usize) -> (r: bool)
        requires
            old(self).wf(),
        ensures
            final(self).wf(),
            r == (old(self).running_v() && *phase is Done),
            !r ==> *final(self) == *old(self),
            r && *phase == RunPhase::Done(Verdict::Cancelled) ==> {
                &&& final(self).cancelled_v()
                &&& !final(self).running_v()
                &&& final(self).search_v().phase_v() == Phase::Done
                &&& final(self).search_v().pending_v().is_none()
                &&& final(self).search_v().same_setup(&old(self).search_v())
                &&& final(self).search_v().pinned_v() == old(self).search_v().pinned_v()
                &&& final(self).search_v().pool_v() == old(self).search_v().pool_v()
                &&& final(self).search_v().found_v() == old(self).search_v().found_v()
                &&& final(self).attempts_v() == old(self).attempts_v()
                &&& final(self).off_target_v() == old(self).off_target_v()
                &&& final(self).target_v() == old(self).target_v()
                &&& final(self).started_v() == old(self).started_v()
                &&& final(self).pending_kind_v() == old(self).pending_kind_v()
            },
            *phase matches RunPhase::Done(v) ==> (r && v != Verdict::Cancelled ==> {
                let rep = reproduces(old(self).target_v(), v, issues@);
                &&& final(self).attempts_v() == old(self).attempts_v().push(Attempt {
                    kind: match old(self).pending_kind_v() {
                        Some(k) => k,
                        None => Kind::Part,
                    },
                    verdict: v,
                    size,
                    reproduced: rep,
                })
                &&& final(self).off_target_v() == old(self).off_target_v() + if !rep && v != Verdict::Passed { 1int } else { 0int }
                &&& recorded(old(self).search_v(), final(self).search_v(), rep)
                &&& !final(self).running_v()
                &&& final(self).pending_kind_v().is_none()
                &&& final(self).cancelled_v() == old(self).cancelled_v()
                &&& final(self).target_v() == old(self).target_v()
                &&& final(self).started_v() == old(self).started_v()
            }),
    {
        if !self.running {
            return false;
        }
        let verdict = match phase {
            RunPhase::Done(v) => *v,
            _ => {
                return false;
            },
        };
        if matches!(verdict, Verdict::Cancelled) {
            self.cancel();
            return true;
        }
        let reproduced = self.target.matches(&verdict, issues);
        let kind = match self.pending_kind {
            Some(k) => k,
            None => Kind::Part,
        };
        self.pending_kind = None;
        self.attempts.push(Attempt { kind, verdict, size, reproduced });
        let n = self.attempts.len();
        if !reproduced && !matches!(verdict, Verdict::Passed) {
            assert(self.off_target + 1 <= n);
            self.off_target = self.off_target + 1;
        }
        self.search.record(reproduced);
        self.running = false;
        true
    }

    /// Stops the hunt; what was found so far stays the result.
    pub fn cancel(&mut self)
        requires
            old(self).wf(),
        ensures
            final(self).wf(),
            final(self).cancelled_v(),
            !final(self).running_v(),
            final(self).search_v().phase_v() == Phase::Done,
            final(self).search_v().pending_v().is_none(),
            final(self).search_v().same_setup(&old(self).search_v()),
            final(self).search_v().pinned_v() == old(self).search_v().pinned_v(),
            final(self).search_v().pool_v() == old(self).search_v().pool_v(),
            final(self).search_v().found_v() == old(self).search_v().found_v(),
            final(self).target_v() == old(self).target_v(),
            final(self).started_v() == old(self).started_v(),
            final(self).off_target_v() == old(self).off_target_v(),
            final(self).attempts_v() == old(self).attempts_v(),
            final(self).pending_kind_v() == old(self).pending_kind_v(),
    {
        self.running = false;
        self.search.stop();
        self.cancelled = true;
    }
}

} // verus!
