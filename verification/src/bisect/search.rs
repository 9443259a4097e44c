//! What to test next: the narrowing algorithm itself.
//!
//! Plain bisection does not work here: it assumes a single culprit, and in
//! RimWorld the typical breakage is a pair of mods that are harmless on
//! their own. Halve the build, both halves are clean, and bisection
//! reports that nobody is to blame.
//!
//! So delta debugging (Zeller's ddmin) is used: it tries not only parts but
//! also their complements, which finds both a single culprit and a pair.
//! The price is runs, and a run costs minutes. The suspects named by the log
//! analysis are therefore used even when they do not reproduce the failure
//! on their own: they stay enabled while their missing partner is sought.

use vstd::prelude::*;
use crate::log_analysis::{LogIssue, Severity};
use crate::mod_data::db::ModDb;
use crate::mod_data::mod_id::ModId;
use crate::mod_data::profile::{copy_ids, id_views, list_has, same_ids, Profile};
use crate::testing::Verdict;
use crate::text::{first_at, lemma_first_at, lemma_first_at_exists, lemma_push_fresh, str_eq};

verus! {

broadcast use vstd::seq_lib::group_seq_properties;

// ── Target ──────────────────────────────────────────────────────────────────

/// Whether a run that ended in `verdict` with the log entries `issues`
/// reproduced the target `t` (`None`: any failure; `Some(title)`: an entry
/// with that title).
pub open spec fn reproduces(t: Option<Seq<char>>, verdict: Verdict, issues: Seq<LogIssue>) -> bool {
    match t {
        None => !(verdict is Passed),
        Some(title) => exists|i: int| 0 <= i < issues.len() && #[trigger] issues[i].title@ == title,
    }
}

/// What counts as reproducing the problem.
#[derive(Clone, Debug)]
pub enum Target {
    /// Any failure: the run did not end in success.
    AnyFailure,
    /// A particular entry of the original run's log.
    ///
    /// Stricter than any failure: a cut-down build can fail for reasons of
    /// its own (something it needs was switched off), and such a failure
    /// does not count.
    Issue(String),
}

impl View for Target {
    type V = Option<Seq<char>>;

    open spec fn view(&self) -> Option<Seq<char>> {
        match self {
            Target::AnyFailure => None,
            Target::Issue(t) => Some(t@),
        }
    }
}

impl Target {
    /// Picks the target from the analysis of the original run: the first
    /// error, which is also the most frequent one, as the analysis sorts
    /// entries by frequency; any failure when the log has no errors.
    pub fn from_issues(issues: &[LogIssue]) -> (r: Target)
        ensures
            match r@ {
                Some(t) => exists|i: int| 0 <= i < issues@.len() && #[trigger] issues@[i].severity == Severity::Error
                    && issues@[i].title@ == t
                    && forall|j: int| 0 <= j < i ==> #[trigger] issues@[j].severity != Severity::Error,
                None => forall|i: int| 0 <= i < issues@.len() ==> #[trigger] issues@[i].severity != Severity::Error,
            },
    {
        for i in 0..issues.len()
            invariant
                forall|j: int| 0 <= j < i ==> #[trigger] issues@[j].severity != Severity::Error,
        {
            if issues[i].severity == Severity::Error {
                let t = issues[i].title.clone();
                assert(issues@[i as int].severity == Severity::Error);
                return Target::Issue(t);
            }
        }
        Target::AnyFailure
    }

    /// Whether a run reproduced the problem.
    pub fn matches(&self, verdict: &Verdict, issues: &[LogIssue]) -> (r: bool)
        ensures
            r == reproduces(self@, *verdict, issues@),
    {
        match self {
            Target::AnyFailure => !verdict.is_success(),
            Target::Issue(title) => {
                for i in 0..issues.len()
                    invariant
                        forall|j: int| 0 <= j < i ==> #[trigger] issues@[j].title@ != title@,
                {
                    if str_eq(issues[i].title.as_str(), title.as_str()) {
                        return true;
                    }
                }
                false
            },
        }
    }

    /// Target equality.
    pub fn same(&self, other: &Target) -> (r: bool)
        ensures
            r == (self@ == other@),
    {
        match (self, other) {
            (Target::AnyFailure, Target::AnyFailure) => true,
            (Target::Issue(a), Target::Issue(b)) => str_eq(a.as_str(), b.as_str()),
            _ => false,
        }
    }
}

impl PartialEq for Target {
    fn eq(&self, other: &Target) -> (r: bool) {
        self.same(other)
    }
}

impl Eq for Target {}

impl vstd::std_specs::cmp::PartialEqSpecImpl for Target {
    open spec fn obeys_eq_spec() -> bool {
        true
    }

    open spec fn eq_spec(&self, other: &Target) -> bool {
        self@ == other@
    }
}

// ── Dependencies ────────────────────────────────────────────────────────────

/// Dependencies within the build: what each mod cannot be enabled without.
///
/// An arbitrary subset is not a working build: with Harmony switched off,
/// every mod fails at once and the search would converge on it instead of
/// the real culprit.
#[derive(Clone, Debug, Default)]
pub struct Deps {
    map: Vec<(ModId, Vec<ModId>)>,
}

spec fn dep_keys(s: Seq<(ModId, Vec<ModId>)>) -> Seq<Seq<char>> {
    s.map_values(|e: (ModId, Vec<ModId>)| e.0@)
}

impl View for Deps {
    /// packageId to the packageIds it needs.
    type V = Map<Seq<char>, Seq<Seq<char>>>;

    closed spec fn view(&self) -> Map<Seq<char>, Seq<Seq<char>>> {
        deps_map(self.map@)
    }
}

spec fn deps_map(s: Seq<(ModId, Vec<ModId>)>) -> Map<Seq<char>, Seq<Seq<char>>> {
    Map::new(
        |k: Seq<char>| dep_keys(s).contains(k),
        |k: Seq<char>| id_views(s[first_at(dep_keys(s), k)].1@),
    )
}

proof fn lemma_deps_push(s: Seq<(ModId, Vec<ModId>)>, e: (ModId, Vec<ModId>))
    requires
        !dep_keys(s).contains(e.0@),
    ensures
        deps_map(s.push(e)) == deps_map(s).insert(e.0@, id_views(e.1@)),
{
    let t = s.push(e);
    let ks = dep_keys(s);
    let kt = dep_keys(t);
    assert(kt =~= ks.push(e.0@));
    let m = deps_map(s).insert(e.0@, id_views(e.1@));
    assert forall|x: Seq<char>| #[trigger] deps_map(t).contains_key(x) <==> m.contains_key(x) by {
        if kt.contains(x) && x != e.0@ {
            let i = choose|i: int| 0 <= i < kt.len() && kt[i] == x;
            assert(ks[i] == x);
        }
        if ks.contains(x) {
            let i = choose|i: int| 0 <= i < ks.len() && ks[i] == x;
            assert(kt[i] == x);
        }
        if x == e.0@ {
            assert(kt[s.len() as int] == x);
        }
    }
    assert forall|x: Seq<char>| #[trigger] deps_map(t).contains_key(x) implies deps_map(t)[x] == m[x] by {
        if x == e.0@ {
            lemma_first_at(kt, x, s.len() as int);
        } else {
            lemma_first_at_exists(ks, x);
            let f = first_at(ks, x);
            lemma_first_at(kt, x, f);
            assert(t[f] == s[f]);
        }
    }
    assert(deps_map(t) =~= m);
}

proof fn lemma_deps_set(s: Seq<(ModId, Vec<ModId>)>, j: int, e: (ModId, Vec<ModId>))
    requires
        0 <= j < s.len(),
        s[j].0@ == e.0@,
        forall|t: int| 0 <= t < j ==> dep_keys(s)[t] != e.0@,
    ensures
        deps_map(s.update(j, e)) == deps_map(s).insert(e.0@, id_views(e.1@)),
{
    let t = s.update(j, e);
    let ks = dep_keys(s);
    assert(dep_keys(t) =~= ks);
    lemma_first_at(ks, e.0@, j);
    let m = deps_map(s).insert(e.0@, id_views(e.1@));
    assert(ks[j] == e.0@);
    assert forall|x: Seq<char>| #[trigger] deps_map(t).contains_key(x) <==> m.contains_key(x) by {}
    assert forall|x: Seq<char>| #[trigger] deps_map(t).contains_key(x) implies deps_map(t)[x] == m[x] by {
        if x != e.0@ {
            lemma_first_at_exists(ks, x);
            let f = first_at(ks, x);
            assert(f != j);
            assert(t[f] == s[f]);
        }
    }
    assert(deps_map(t) =~= m);
}

/// Mod `x` needs mod `y`.
pub open spec fn needs(m: Map<Seq<char>, Seq<Seq<char>>>, x: Seq<char>, y: Seq<char>) -> bool {
    m.contains_key(x) && m[x].contains(y)
}

/// `p` leads from a mod of `s` through what each mod needs.
pub open spec fn dep_path(m: Map<Seq<char>, Seq<Seq<char>>>, s: Seq<Seq<char>>, p: Seq<Seq<char>>) -> bool {
    &&& p.len() > 0
    &&& s.contains(p[0])
    &&& forall|k: int| 0 <= k < p.len() - 1 ==> needs(m, #[trigger] p[k], p[k + 1])
}

/// `y` is in `s` or needed, directly or not, by a mod of `s`.
pub open spec fn pulled_in(m: Map<Seq<char>, Seq<Seq<char>>>, s: Seq<Seq<char>>, y: Seq<char>) -> bool {
    exists|p: Seq<Seq<char>>| #[trigger] dep_path(m, s, p) && p.last() == y
}

/// Membership in `ids`.
pub open spec fn member_of(ids: Seq<Seq<char>>) -> spec_fn(Seq<char>) -> bool {
    |y: Seq<char>| ids.contains(y)
}

/// What [`Deps::from_db`] records for a mod of the build: its dependencies
/// that are in the build.
pub open spec fn needed_in(db: ModDb, ids: Seq<Seq<char>>, x: Seq<char>) -> Seq<Seq<char>> {
    db.lookup(x).unwrap().dependencies.deep_view().filter(member_of(ids))
}

/// The dependencies of a build: each mod of it that the catalogue knows
/// and that needs others of the build, with those.
pub open spec fn build_deps(db: ModDb, ids: Seq<Seq<char>>) -> Map<Seq<char>, Seq<Seq<char>>> {
    Map::new(
        |x: Seq<char>| ids.contains(x) && db.lookup(x).is_some() && needed_in(db, ids, x).len() > 0,
        |x: Seq<char>| needed_in(db, ids, x),
    )
}

impl Deps {
    spec fn wf(&self) -> bool {
        dep_keys(self.map@).no_duplicates()
    }

    /// Records that `id` needs `needed`, replacing what was recorded for it.
    pub fn insert(&mut self, id: ModId, needed: Vec<ModId>)
        ensures
            final(self)@ == old(self)@.insert(id@, id_views(needed@)),
    {
        let ghost old_map = self@;
        let ghost k = id@;
        let ghost v = id_views(needed@);
        let mut found: Option<usize> = None;
        for j in 0..self.map.len()
            invariant
                forall|t: int| 0 <= t < j ==> dep_keys(self.map@)[t] != k,
                found.is_none(),
                id@ == k,
        {
            if self.map[j].0.same(&id) {
                found = Some(j);
                break;
            }
        }
        let ghost before = self.map@;
        let ghost e = (id, needed);
        match found {
            Some(j) => {
                proof {
                    lemma_deps_set(before, j as int, e);
                }
                self.map.set(j, (id, needed));
            },
            None => {
                proof {
                    assert(!dep_keys(before).contains(k));
                    lemma_deps_push(before, e);
                }
                self.map.push((id, needed));
            },
        }
    }

    /// What `id` needs, if anything was recorded.
    fn get(&self, id: &ModId) -> (r: Option<&Vec<ModId>>)
        ensures
            match r {
                Some(v) => self@.contains_key(id@) && self@[id@] == id_views(v@),
                None => !self@.contains_key(id@),
            },
    {
        for j in 0..self.map.len()
            invariant
                forall|t: int| 0 <= t < j ==> dep_keys(self.map@)[t] != id@,
        {
            if self.map[j].0.same(id) {
                proof {
                    assert(dep_keys(self.map@)[j as int] == id@);
                    lemma_first_at(dep_keys(self.map@), id@, j as int);
                }
                return Some(&self.map[j].1);
            }
        }
        None
    }
}

/// Every list of needed mods, one after the other.
spec fn all_needed(s: Seq<(ModId, Vec<ModId>)>) -> Seq<Seq<char>>
    decreases s.len(),
{
    if s.len() == 0 {
        Seq::empty()
    } else {
        all_needed(s.drop_last()) + id_views(s.last().1@)
    }
}

proof fn lemma_all_needed(s: Seq<(ModId, Vec<ModId>)>, f: int, y: Seq<char>)
    requires
        0 <= f < s.len(),
        id_views(s[f].1@).contains(y),
    ensures
        all_needed(s).contains(y),
    decreases s.len(),
{
    let a = all_needed(s.drop_last());
    let b = id_views(s.last().1@);
    if f == s.len() - 1 {
        let i = choose|i: int| 0 <= i < b.len() && b[i] == y;
        assert((a + b)[a.len() + i] == y);
    } else {
        assert(s.drop_last()[f] == s[f]);
        lemma_all_needed(s.drop_last(), f, y);
        let i = choose|i: int| 0 <= i < a.len() && a[i] == y;
        assert((a + b)[i] == y);
    }
}

proof fn lemma_nodup_bound(a: Seq<Seq<char>>, u: Seq<Seq<char>>)
    requires
        a.no_duplicates(),
        forall|k: int| 0 <= k < a.len() ==> u.contains(#[trigger] a[k]),
    ensures
        a.len() <= u.len(),
{
    a.unique_seq_to_set();
    assert(a.to_set().subset_of(u.to_set())) by {
        assert forall|x: Seq<char>| a.to_set().contains(x) implies u.to_set().contains(x) by {
            let k = choose|k: int| 0 <= k < a.len() && a[k] == x;
            assert(u.contains(a[k]));
        }
    }
    vstd::seq_lib::seq_to_set_is_finite(u);
    vstd::set_lib::lemma_len_subset(a.to_set(), u.to_set());
    u.lemma_cardinality_of_set();
}

/// A path from the set reaches only mods of a set closed under needs.
proof fn lemma_closed_contains_paths(m: Map<Seq<char>, Seq<Seq<char>>>, s: Seq<Seq<char>>, seen: Seq<Seq<char>>, p: Seq<Seq<char>>)
    requires
        forall|y: Seq<char>| s.contains(y) ==> seen.contains(y),
        forall|x: Seq<char>, y: Seq<char>| seen.contains(x) && #[trigger] needs(m, x, y) ==> seen.contains(y),
        dep_path(m, s, p),
    ensures
        seen.contains(p.last()),
    decreases p.len(),
{
    if p.len() > 1 {
        let q = p.drop_last();
        assert(dep_path(m, s, q)) by {
            assert forall|k: int| 0 <= k < q.len() - 1 implies needs(m, #[trigger] q[k], q[k + 1]) by {
                assert(needs(m, p[k], p[k + 1]));
            }
        }
        lemma_closed_contains_paths(m, s, seen, q);
        assert(needs(m, p[p.len() - 2], p[p.len() - 1]));
    }
}

impl Deps {
    /// Adds to a set everything it cannot work without. The order of the
    /// result is unspecified.
    #[verifier::rlimit(80)]
    #[verifier::spinoff_prover]
    pub fn close(&self, subset: &[ModId]) -> (r: Vec<ModId>)
        ensures
            id_views(r@).no_duplicates(),
            forall|y: Seq<char>| #[trigger] id_views(r@).contains(y) <==> pulled_in(self@, id_views(subset@), y),
    {
        let ghost m = self@;
        let ghost s = id_views(subset@);
        let ghost univ = s + all_needed(self.map@);
        let mut seen: Vec<ModId> = Vec::new();
        for i in 0..subset.len()
            invariant
                s == id_views(subset@),
                univ == s + all_needed(self.map@),
                id_views(seen@).no_duplicates(),
                forall|y: Seq<char>| #[trigger] id_views(seen@).contains(y) <==> s.take(i as int).contains(y),
        {
            let ghost before = id_views(seen@);
            proof {
                assert(s.take(i + 1) == s.take(i as int).push(s[i as int]));
            }
            if !list_has(&seen, &subset[i]) {
                seen.push(subset[i].copy());
                proof {
                    assert(id_views(seen@) =~= before.push(s[i as int]));
                    lemma_push_fresh(before, s[i as int]);
                }
            }
            proof {
                assert forall|y: Seq<char>| #[trigger] id_views(seen@).contains(y) <==> s.take(i + 1).contains(y) by {
                    if id_views(seen@).contains(y) && !before.contains(y) {
                        let k = choose|k: int| 0 <= k < id_views(seen@).len() && id_views(seen@)[k] == y;
                        if k < before.len() {
                            assert(before[k] == y);
                        }
                    }
                    if before.contains(y) {
                        let k = choose|k: int| 0 <= k < before.len() && before[k] == y;
                        assert(id_views(seen@)[k] == y);
                    }
                    if y == s[i as int] && !before.contains(y) {
                        assert(id_views(seen@)[before.len() as int] == y);
                    }
                }
            }
        }
        proof {
            assert(s.take(subset.len() as int) == s);
            assert forall|y: Seq<char>| #[trigger] id_views(seen@).contains(y) implies pulled_in(m, s, y) by {
                let p = seq![y];
                assert(dep_path(m, s, p));
            }
            assert forall|k: int| 0 <= k < id_views(seen@).len() implies univ.contains(#[trigger] id_views(seen@)[k]) by {
                let y = id_views(seen@)[k];
                assert(id_views(seen@).contains(y));
                let t = choose|t: int| 0 <= t < s.len() && s[t] == y;
                assert(univ[t] == y);
            }
        }
        let mut head: usize = 0;
        while head < seen.len()
            invariant
                m == self@,
                s == id_views(subset@),
                univ == s + all_needed(self.map@),
                head <= seen.len(),
                id_views(seen@).no_duplicates(),
                forall|k: int| 0 <= k < id_views(seen@).len() ==> univ.contains(#[trigger] id_views(seen@)[k]),
                forall|y: Seq<char>| #[trigger] id_views(seen@).contains(y) ==> pulled_in(m, s, y),
                forall|y: Seq<char>| s.contains(y) ==> #[trigger] id_views(seen@).contains(y),
                forall|k: int, y: Seq<char>| 0 <= k < head && #[trigger] needs(m, id_views(seen@)[k], y) ==> id_views(seen@).contains(y),
            decreases univ.len() - seen.len() + univ.len() - head,
        {
            proof {
                lemma_nodup_bound(id_views(seen@), univ);
            }
            let x = seen[head].copy();
            let ghost xv = x@;
            let ghost at_start = id_views(seen@);
            proof {
                assert(at_start[head as int] == xv);
                assert(at_start.contains(xv));
            }
            match self.get(&x) {
                Some(list) => {
                    let ghost lv = id_views(list@);
                    proof {
                        assert(m[xv] == lv);
                    }
                    for j in 0..list.len()
                        invariant
                            m == self@,
                            s == id_views(subset@),
                            univ == s + all_needed(self.map@),
                            m.contains_key(xv),
                            m[xv] == lv,
                            lv == id_views(list@),
                            head < seen.len(),
                            id_views(seen@)[head as int] == xv,
                            at_start.len() <= seen.len(),
                            forall|k: int| 0 <= k < at_start.len() ==> id_views(seen@)[k] == #[trigger] at_start[k],
                            id_views(seen@).no_duplicates(),
                            forall|k: int| 0 <= k < id_views(seen@).len() ==> univ.contains(#[trigger] id_views(seen@)[k]),
                            forall|y: Seq<char>| #[trigger] id_views(seen@).contains(y) ==> pulled_in(m, s, y),
                            forall|t: int| 0 <= t < j ==> id_views(seen@).contains(#[trigger] lv[t]),
                    {
                        let ghost before = id_views(seen@);
                        let y = &list[j];
                        proof {
                            assert(lv[j as int] == y@);
                            assert(needs(m, xv, y@));
                        }
                        if !list_has(&seen, y) {
                            seen.push(y.copy());
                            proof {
                                assert(id_views(seen@) =~= before.push(y@));
                                lemma_push_fresh(before, y@);
                                let q = choose|q: Seq<Seq<char>>| #[trigger] dep_path(m, s, q) && q.last() == xv;
                                let p = q.push(y@);
                                assert(dep_path(m, s, p)) by {
                                    assert forall|k: int| 0 <= k < p.len() - 1 implies needs(m, #[trigger] p[k], p[k + 1]) by {
                                        if k < q.len() - 1 {
                                            assert(needs(m, q[k], q[k + 1]));
                                        }
                                    }
                                }
                                assert(pulled_in(m, s, y@));
                                let f = first_at(dep_keys(self.map@), xv);
                                lemma_first_at_exists(dep_keys(self.map@), xv);
                                lemma_all_needed(self.map@, f, y@);
                                let i = choose|i: int| 0 <= i < all_needed(self.map@).len() && all_needed(self.map@)[i] == y@;
                                assert(univ[s.len() + i] == y@);
                                assert forall|y2: Seq<char>| #[trigger] id_views(seen@).contains(y2) implies pulled_in(m, s, y2) by {
                                    if y2 != y@ {
                                        let k = choose|k: int| 0 <= k < id_views(seen@).len() && id_views(seen@)[k] == y2;
                                        assert(before[k] == y2);
                                    }
                                }
                                assert forall|t: int| 0 <= t < j + 1 implies id_views(seen@).contains(#[trigger] lv[t]) by {
                                    if t < j {
                                        let k = choose|k: int| 0 <= k < before.len() && before[k] == lv[t];
                                        assert(id_views(seen@)[k] == lv[t]);
                                    } else {
                                        assert(id_views(seen@)[before.len() as int] == lv[t]);
                                    }
                                }
                            }
                        }
                    }
                    proof {
                        assert forall|y: Seq<char>| #[trigger] needs(m, xv, y) implies id_views(seen@).contains(y) by {
                            let t = choose|t: int| 0 <= t < lv.len() && lv[t] == y;
                            assert(id_views(seen@).contains(lv[t]));
                        }
                    }
                },
                None => {},
            }
            proof {
                let now = id_views(seen@);
                assert forall|k: int, y: Seq<char>| 0 <= k < head + 1 && #[trigger] needs(m, now[k], y) implies now.contains(y) by {
                    assert(now[k] == at_start[k]);
                    if k < head {
                        assert(at_start.contains(y));
                        let t = choose|t: int| 0 <= t < at_start.len() && at_start[t] == y;
                        assert(now[t] == y);
                    }
                }
                assert forall|y: Seq<char>| s.contains(y) implies #[trigger] now.contains(y) by {
                    assert(at_start.contains(y));
                    let t = choose|t: int| 0 <= t < at_start.len() && at_start[t] == y;
                    assert(now[t] == y);
                }
                lemma_nodup_bound(now, univ);
            }
            head = head + 1;
        }
        proof {
            let now = id_views(seen@);
            assert forall|x: Seq<char>, y: Seq<char>| now.contains(x) && #[trigger] needs(m, x, y) implies now.contains(y) by {
                let k = choose|k: int| 0 <= k < now.len() && now[k] == x;
                assert(needs(m, now[k], y));
            }
            assert forall|y: Seq<char>| #[trigger] now.contains(y) <==> pulled_in(m, s, y) by {
                if pulled_in(m, s, y) {
                    let p = choose|p: Seq<Seq<char>>| #[trigger] dep_path(m, s, p) && p.last() == y;
                    lemma_closed_contains_paths(m, s, now, p);
                }
            }
        }
        seen
    }
}

spec fn build_deps_upto(db: ModDb, ids: Seq<Seq<char>>, i: int) -> Map<Seq<char>, Seq<Seq<char>>> {
    Map::new(
        |x: Seq<char>| ids.take(i).contains(x) && db.lookup(x).is_some() && needed_in(db, ids, x).len() > 0,
        |x: Seq<char>| needed_in(db, ids, x),
    )
}

impl Deps {
    /// The dependencies of the active mods of a build. Only dependencies
    /// that are in the build count: missing ones are broken anyway, and
    /// switching them off changes nothing.
    pub fn from_db(db: &ModDb, profile: &Profile) -> (r: Deps)
        requires
            db.wf(),
            profile.wf(),
        ensures
            r@ == build_deps(*db, profile@),
    {
        let order = profile.order();
        let ghost ids = profile@;
        let mut d = Deps { map: Vec::new() };
        proof {
            assert(d@ =~= build_deps_upto(*db, ids, 0));
        }
        for i in 0..order.len()
            invariant
                id_views(order@) == ids,
                ids.no_duplicates(),
                db.wf(),
                d@ == build_deps_upto(*db, ids, i as int),
        {
            let ghost x = ids[i as int];
            proof {
                assert(ids.take(i + 1) == ids.take(i as int).push(x));
                assert(!ids.take(i as int).contains(x)) by {
                    if ids.take(i as int).contains(x) {
                        let t = choose|t: int| 0 <= t < i && ids.take(i as int)[t] == x;
                        assert(ids[t] == ids[i as int]);
                    }
                }
            }
            match db.get(&order[i]) {
                Some(entry) => {
                    let deps = &entry.dependencies;
                    let mut needed: Vec<ModId> = Vec::new();
                    for j in 0..deps.len()
                        invariant
                            id_views(order@) == ids,
                            id_views(needed@) == deps.deep_view().take(j as int).filter(member_of(ids)),
                    {
                        let ghost before = id_views(needed@);
                        proof {
                            assert(deps.deep_view().take(j + 1) == deps.deep_view().take(j as int).push(deps[j as int]@));
                            deps.deep_view().take(j as int).lemma_filter_push(deps[j as int]@, member_of(ids));
                        }
                        if list_has(order, &deps[j]) {
                            needed.push(deps[j].copy());
                            assert(id_views(needed@) =~= before.push(deps[j as int]@));
                        }
                    }
                    proof {
                        assert(deps.deep_view().take(deps.len() as int) == deps.deep_view());
                        assert(id_views(needed@) == needed_in(*db, ids, x));
                    }
                    if needed.len() > 0 {
                        let ghost prev = d@;
                        d.insert(order[i].copy(), needed);
                        proof {
                            assert(d@ =~= build_deps_upto(*db, ids, i + 1));
                        }
                    } else {
                        proof {
                            assert(d@ =~= build_deps_upto(*db, ids, i + 1));
                        }
                    }
                },
                None => {
                    proof {
                        assert(d@ =~= build_deps_upto(*db, ids, i + 1));
                    }
                },
            }
        }
        proof {
            assert(ids.take(order.len() as int) == ids);
            assert(d@ =~= build_deps(*db, ids));
        }
        d
    }
}

// ── Splitting ───────────────────────────────────────────────────────────────

/// How many pieces [`split`] cuts `len` items into when asked for `n`:
/// `n` clamped to 1 ..= max(len, 1).
pub open spec fn piece_count(len: int, n: int) -> int {
    let hi = if len > 1 { len } else { 1 };
    if n < 1 { 1 } else if n > hi { hi } else { n }
}

/// Where piece `i` of `k` begins.
pub open spec fn cut_at(len: int, k: int, i: int) -> int {
    len * i / k
}

/// `items` cut into `n` pieces about equally (see [`piece_count`]), empty
/// pieces left out.
pub open spec fn split_parts(items: Seq<Seq<char>>, n: int) -> Seq<Seq<Seq<char>>> {
    let len = items.len() as int;
    let k = piece_count(len, n);
    Seq::new(k as nat, |i: int| items.subrange(cut_at(len, k, i), cut_at(len, k, i + 1))).filter(nonempty())
}

pub open spec fn nonempty() -> spec_fn(Seq<Seq<char>>) -> bool {
    |p: Seq<Seq<char>>| p.len() > 0
}

proof fn lemma_cut_bounds(len: int, k: int, i: int)
    requires
        len >= 0,
        k >= 1,
        0 <= i < k,
    ensures
        0 <= cut_at(len, k, i) <= cut_at(len, k, i + 1) <= len,
        cut_at(len, k, 0) == 0,
        cut_at(len, k, k) == len,
{
    assert(0 <= len * i) by (nonlinear_arith)
        requires len >= 0, i >= 0;
    assert(len * i <= len * (i + 1)) by (nonlinear_arith)
        requires len >= 0, i >= 0;
    assert(len * (i + 1) <= len * k) by (nonlinear_arith)
        requires len >= 0, i + 1 <= k;
    assert(len * i / k <= len * (i + 1) / k) by (nonlinear_arith)
        requires len * i <= len * (i + 1), k >= 1, len * i >= 0;
    assert(len * (i + 1) / k <= len * k / k) by (nonlinear_arith)
        requires len * (i + 1) <= len * k, k >= 1, len * (i + 1) >= 0;
    assert(len * k / k == len) by (nonlinear_arith)
        requires k >= 1;
    assert(len * 0 / k == 0) by (nonlinear_arith)
        requires k >= 1;
    assert(0 <= len * i / k) by (nonlinear_arith)
        requires len * i >= 0, k >= 1;
}

/// With at least two pieces of at least two items, no piece is everything.
proof fn lemma_piece_smaller(len: int, k: int, i: int)
    requires
        len >= 2,
        2 <= k <= len,
        0 <= i < k,
    ensures
        cut_at(len, k, i + 1) - cut_at(len, k, i) < len,
{
    lemma_cut_bounds(len, k, i);
    if cut_at(len, k, i) == 0 && cut_at(len, k, i + 1) == len {
        assert(len * i < k) by (nonlinear_arith)
            requires len * i / k == 0, k >= 1, len * i >= 0;
        assert(i + 1 >= k) by (nonlinear_arith)
            requires len * (i + 1) / k == len, k >= 1, len >= 2, i >= 0;
        assert(len * (k - 1) >= k) by (nonlinear_arith)
            requires len >= 2, k >= 2;
        assert(false);
    }
}

/// The last piece is never empty when there is something to cut.
proof fn lemma_last_piece(len: int, k: int)
    requires
        len >= 1,
        1 <= k <= len,
    ensures
        cut_at(len, k, k - 1) < cut_at(len, k, k),
{
    lemma_cut_bounds(len, k, k - 1);
    assert(len * (k - 1) / k < len) by (nonlinear_arith)
        requires len >= 1, 1 <= k <= len;
}

/// Cuts a list into `n` pieces about equally, dropping empty pieces.
#[verifier::rlimit(60)]
fn split(items: &Vec<ModId>, n: usize) -> (r: Vec<Vec<ModId>>)
    ensures
        r@.map_values(|p: Vec<ModId>| id_views(p@)) == split_parts(id_views(items@), n as int),
{
    let len = items.len();
    let hi = if len > 1 { len } else { 1 };
    let k = if n < 1 { 1 } else if n > hi { hi } else { n };
    let ghost iv = id_views(items@);
    let ghost raw = Seq::new(k as nat, |i: int| iv.subrange(cut_at(len as int, k as int, i), cut_at(len as int, k as int, i + 1)));
    let mut parts: Vec<Vec<ModId>> = Vec::new();
    let mut start: usize = 0;
    for i in 0..k
        invariant
            iv == id_views(items@),
            len == items.len(),
            k >= 1,
            raw == Seq::new(k as nat, |i: int| iv.subrange(cut_at(len as int, k as int, i), cut_at(len as int, k as int, i + 1))),
            start as int == cut_at(len as int, k as int, i as int),
            parts@.map_values(|p: Vec<ModId>| id_views(p@)) == raw.take(i as int).filter(nonempty()),
    {
        proof {
            lemma_cut_bounds(len as int, k as int, i as int);
            assert((len as int) * ((i + 1) as int) <= (len as int) * (k as int)) by (nonlinear_arith)
                requires i + 1 <= k, len >= 0;
            assert((len as int) * ((i + 1) as int) <= 0xffff_ffff_ffff_ffff * 0xffff_ffff_ffff_ffff) by (nonlinear_arith)
                requires len <= 0xffff_ffff_ffff_ffff, i + 1 <= 0xffff_ffff_ffff_ffff, len >= 0, i >= 0;
        }
        let prod: u128 = (len as u128) * ((i + 1) as u128);
        let end = (prod / (k as u128)) as usize;
        let ghost before = parts@.map_values(|p: Vec<ModId>| id_views(p@));
        let mut piece: Vec<ModId> = Vec::new();
        for j in start..end
            invariant
                start <= end <= len,
                len == items.len(),
                id_views(piece@) == iv.subrange(start as int, j as int),
                iv == id_views(items@),
        {
            piece.push(items[j].copy());
            assert(id_views(piece@) =~= iv.subrange(start as int, j + 1));
        }
        proof {
            assert(raw[i as int] == iv.subrange(start as int, end as int));
            assert(raw.take(i + 1) == raw.take(i as int).push(raw[i as int]));
            raw.take(i as int).lemma_filter_push(raw[i as int], nonempty());
        }
        if piece.len() > 0 {
            parts.push(piece);
            assert(parts@.map_values(|p: Vec<ModId>| id_views(p@)) =~= before.push(raw[i as int]));
        }
        start = end;
    }
    assert(raw.take(k as int) == raw);
    parts
}

// ── The search ──────────────────────────────────────────────────────────────

/// Where a set to test came from, for the log shown to the user.
#[derive(Clone, Copy, PartialEq, Eq, Debug, Structural)]
pub enum Kind {
    /// The log analysis' suspects as a whole.
    Hint,
    /// A part of the current set.
    Part,
    /// All but one part.
    Rest,
    /// Whether the suspects were needed at all.
    Recheck,
}

/// One step taken.
#[derive(Clone, Debug)]
pub struct Step {
    pub kind: Kind,
    /// How many mods the tested set had.
    pub size: usize,
    pub reproduced: bool,
}

/// A set to run.
#[derive(Clone, Debug)]
pub struct Candidate {
    pub kind: Kind,
    /// The part being narrowed at this step.
    pub subset: Vec<ModId>,
    /// What to enable: the suspects plus those held on, vanilla content and
    /// the dependencies pulled in, in the original load order.
    pub active: Vec<ModId>,
}

impl Candidate {
    /// A copy of this candidate.
    pub fn copy(&self) -> (r: Candidate)
        ensures
            r.kind == self.kind,
            id_views(r.subset@) == id_views(self.subset@),
            id_views(r.active@) == id_views(self.active@),
    {
        Candidate { kind: self.kind, subset: copy_ids(&self.subset), active: copy_ids(&self.active) }
    }
}

/// What the search is busy with.
#[derive(Clone, Copy, PartialEq, Eq, Debug, Structural)]
pub enum Phase {
    /// Testing the log analysis' suspects on their own.
    HintAlone,
    /// They did not reproduce it alone: keep them on and look for a partner.
    WithHint,
    /// A partner was found; were the suspects needed at all?
    HintNeeded,
    /// They were: now narrow the suspects themselves.
    MinimizeHint,
    /// Plain narrowing without suspects.
    Plain,
    Done,
}

/// Where the search is within one partition.
#[derive(Clone, Copy, PartialEq, Eq, Debug, Structural)]
pub enum Stage {
    /// Trying the parts.
    Parts,
    /// Trying the complements of the parts.
    Rest,
}

/// The state of a search. It is driven from outside: [`Search::next`] hands
/// out a set, [`Search::record`] takes the answer.
pub struct Search {
    /// The load order of the original build: sets are laid out by it.
    order: Vec<ModId>,
    /// Vanilla content: always on and never under suspicion.
    base: Vec<ModId>,
    deps: Deps,
    /// The log analysis' suspects.
    hint: Vec<ModId>,
    /// Held on, besides vanilla content, while `pool` is narrowed.
    pinned: Vec<ModId>,
    /// What is being narrowed right now.
    pool: Vec<ModId>,
    /// The part of the answer already established.
    found: Vec<ModId>,
    phase: Phase,
    /// How many parts `pool` is cut into.
    parts: usize,
    stage: Stage,
    /// Which part is being tried.
    index: usize,
    /// Sets already run and whether each reproduced the problem. A run
    /// costs minutes: a set is never run twice.
    cache: Vec<(Vec<ModId>, bool)>,
    /// What was handed out last and awaits its answer.
    pending: Option<Candidate>,
    log: Vec<Step>,
    runs: usize,
}

/// What is not in `part`.
pub open spec fn outside(part: Seq<Seq<char>>) -> spec_fn(Seq<char>) -> bool {
    |x: Seq<char>| !part.contains(x)
}

/// What a run of `subset` enables: vanilla content, and `subset` and the
/// held-on mods with what they need.
pub open spec fn kept(
    deps: Map<Seq<char>, Seq<Seq<char>>>,
    base: Seq<Seq<char>>,
    pinned: Seq<Seq<char>>,
    subset: Seq<Seq<char>>,
) -> spec_fn(Seq<char>) -> bool {
    |x: Seq<char>| base.contains(x) || pulled_in(deps, subset, x) || pulled_in(deps, pinned, x)
}

/// Membership in any of three lists.
pub open spec fn in_any(a: Seq<Seq<char>>, b: Seq<Seq<char>>, c: Seq<Seq<char>>) -> spec_fn(Seq<char>) -> bool {
    |x: Seq<char>| a.contains(x) || b.contains(x) || c.contains(x)
}

pub open spec fn phase_rank(p: Phase) -> int {
    match p {
        Phase::HintAlone => 5,
        Phase::WithHint => 4,
        Phase::HintNeeded => 3,
        Phase::MinimizeHint => 2,
        Phase::Plain => 1,
        Phase::Done => 0,
    }
}

pub open spec fn stage_rank(s: Stage) -> int {
    match s {
        Stage::Parts => 1,
        Stage::Rest => 0,
    }
}

/// `a` comes before `b` in the lexicographic order of progress.
pub open spec fn lex_below(a: (int, int, int, int, int), b: (int, int, int, int, int)) -> bool {
    ||| 0 <= a.0 < b.0
    ||| (a.0 == b.0 && 0 <= a.1 < b.1)
    ||| (a.0 == b.0 && a.1 == b.1 && 0 <= a.2 < b.2)
    ||| (a.0 == b.0 && a.1 == b.1 && a.2 == b.2 && 0 <= a.3 < b.3)
    ||| (a.0 == b.0 && a.1 == b.1 && a.2 == b.2 && a.3 == b.3 && 0 <= a.4 < b.4)
}

/// The part of a search's state that its steps move: the phase, the lists
/// being narrowed and the current cut.
#[verifier::ext_equal]
pub struct Machine {
    pub phase: Phase,
    pub pool: Seq<Seq<char>>,
    pub pinned: Seq<Seq<char>>,
    pub found: Seq<Seq<char>>,
    pub parts: int,
    pub stage: Stage,
    pub index: int,
}

/// `m` on a new pool, cut in two, parts first.
pub open spec fn restarted_on(m: Machine, phase: Phase, pool: Seq<Seq<char>>, pinned: Seq<Seq<char>>, found: Seq<Seq<char>>) -> Machine {
    Machine { phase, pool, pinned, found, parts: 2, stage: Stage::Parts, index: 0 }
}

/// The current cut of the pool.
pub open spec fn pieces_m(m: Machine) -> Seq<Seq<Seq<char>>> {
    split_parts(m.pool, m.parts)
}

/// In one of the narrowing phases, with something left to narrow.
pub open spec fn narrowing_m(m: Machine) -> bool {
    &&& (m.phase == Phase::WithHint || m.phase == Phase::MinimizeHint || m.phase == Phase::Plain)
    &&& m.pool.len() >= 2
}

/// `subset` of `kind` is what a search with suspects `hint` tries in `m`.
pub open spec fn proposes_m(hint: Seq<Seq<char>>, m: Machine, kind: Kind, subset: Seq<Seq<char>>) -> bool {
    match kind {
        Kind::Hint => m.phase == Phase::HintAlone && subset == hint,
        Kind::Recheck => m.phase == Phase::HintNeeded && subset == m.found,
        Kind::Part => narrowing_m(m) && m.stage == Stage::Parts && m.index < pieces_m(m).len()
            && subset == pieces_m(m)[m.index],
        Kind::Rest => narrowing_m(m) && m.stage == Stage::Rest && m.index < pieces_m(m).len()
            && subset == m.pool.filter(outside(pieces_m(m)[m.index])),
    }
}

/// How far the search still has to go from `m`.
pub open spec fn progress_m(m: Machine) -> (int, int, int, int, int) {
    (phase_rank(m.phase), m.pool.len() as int, m.pool.len() - m.parts, stage_rank(m.stage), m.pool.len() - m.index)
}

/// The state after the answer `rep` for `subset` of `kind`.
pub open spec fn advance_m(hint: Seq<Seq<char>>, m: Machine, kind: Kind, subset: Seq<Seq<char>>, rep: bool) -> Machine {
    match (kind, rep) {
        (Kind::Hint, true) => restarted_on(m, Phase::Plain, subset, m.pinned, m.found),
        (Kind::Hint, false) => restarted_on(m, Phase::WithHint, m.pool.filter(outside(hint)), hint, m.found),
        (Kind::Recheck, true) => restarted_on(m, Phase::Plain, m.found, m.pinned, Seq::empty()),
        (Kind::Recheck, false) => restarted_on(m, Phase::MinimizeHint, hint, m.found, Seq::empty()),
        (Kind::Part, true) => restarted_on(m, m.phase, subset, m.pinned, m.found),
        (Kind::Rest, true) => Machine {
            pool: subset,
            parts: if m.parts > 2 { m.parts - 1 } else { 2 },
            stage: Stage::Parts,
            index: 0,
            ..m
        },
        (_, false) => Machine { index: m.index + 1, ..m },
    }
}

/// Nothing is left to narrow in this phase: after the hunt for a partner
/// of the suspects, the recheck; else the end.
pub open spec fn finished_m(m: Machine) -> Machine {
    if m.phase == Phase::WithHint {
        Machine { phase: Phase::HintNeeded, found: m.pool, pool: Seq::empty(), pinned: Seq::empty(), ..m }
    } else {
        Machine { phase: Phase::Done, ..m }
    }
}

/// What a finished phase proposes: the recheck, or nothing.
pub open spec fn after_finish_m(m: Machine) -> (Machine, Option<(Kind, Seq<Seq<char>>)>) {
    let f = finished_m(m);
    if f.phase == Phase::HintNeeded { (f, Some((Kind::Recheck, f.found))) } else { (f, None) }
}

/// What to test next from `m`, the cache aside, and the state it leaves:
/// the suspects alone; the recheck; the parts of the pool, then their
/// complements; then a cut twice as fine, at most into single mods; and
/// when there is no finer cut, the end of the phase.
pub open spec fn step_m(hint: Seq<Seq<char>>, m: Machine) -> (Machine, Option<(Kind, Seq<Seq<char>>)>) {
    match m.phase {
        Phase::Done => (m, None),
        Phase::HintAlone => (m, Some((Kind::Hint, hint))),
        Phase::HintNeeded => (m, Some((Kind::Recheck, m.found))),
        _ => if m.pool.len() < 2 {
            after_finish_m(m)
        } else if m.stage == Stage::Parts && m.index < pieces_m(m).len() {
            (m, Some((Kind::Part, pieces_m(m)[m.index])))
        } else if m.stage == Stage::Parts {
            (Machine { stage: Stage::Rest, index: 0, ..m }, Some((Kind::Rest, m.pool.filter(outside(pieces_m(m)[0])))))
        } else if m.index < pieces_m(m).len() {
            (m, Some((Kind::Rest, m.pool.filter(outside(pieces_m(m)[m.index])))))
        } else if m.parts >= m.pool.len() {
            after_finish_m(m)
        } else {
            let parts = if m.parts > m.pool.len() / 2 { m.pool.len() as int } else { m.parts * 2 };
            let f = Machine { parts, stage: Stage::Parts, index: 0, ..m };
            (f, Some((Kind::Part, pieces_m(f)[0])))
        },
    }
}

/// The answer recorded for the set `active`, if it was run.
pub open spec fn answer_in(cache: Seq<(Seq<Seq<char>>, bool)>, active: Seq<Seq<char>>) -> Option<bool>
    decreases cache.len(),
{
    if cache.len() == 0 {
        None
    } else if cache[0].0 == active {
        Some(cache[0].1)
    } else {
        answer_in(cache.drop_first(), active)
    }
}

/// What a run of `subset` enables with `pinned` held on, in load order.
pub open spec fn active_in(
    order: Seq<Seq<char>>,
    deps: Map<Seq<char>, Seq<Seq<char>>>,
    base: Seq<Seq<char>>,
    pinned: Seq<Seq<char>>,
    subset: Seq<Seq<char>>,
) -> Seq<Seq<char>> {
    order.filter(kept(deps, base, pinned, subset))
}

/// The set offered from `m`, and the state left: the steps are taken in
/// turn, and a set whose make-up is in the cache is answered from it
/// without a run, until an untried set comes up or nothing is left.
pub open spec fn next_m(
    order: Seq<Seq<char>>,
    base: Seq<Seq<char>>,
    deps: Map<Seq<char>, Seq<Seq<char>>>,
    hint: Seq<Seq<char>>,
    cache: Seq<(Seq<Seq<char>>, bool)>,
    m: Machine,
) -> (Machine, Option<(Kind, Seq<Seq<char>>, Seq<Seq<char>>)>)
    decreases phase_rank(m.phase), m.pool.len(), m.pool.len() - m.parts, stage_rank(m.stage), m.pool.len() - m.index,
{
    let (m1, o) = step_m(hint, m);
    match o {
        None => (m1, None),
        Some((k, sub)) => {
            let act = active_in(order, deps, base, m1.pinned, sub);
            match answer_in(cache, act) {
                None => (m1, Some((k, sub, act))),
                Some(rep) => {
                    let m2 = advance_m(hint, m1, k, sub, rep);
                    if lex_below(progress_m(m2), progress_m(m)) {
                        next_m(order, base, deps, hint, cache, m2)
                    } else {
                        (m2, None)
                    }
                },
            }
        },
    }
}

impl Search {
    pub closed spec fn order_v(&self) -> Seq<Seq<char>> {
        id_views(self.order@)
    }

    pub closed spec fn base_v(&self) -> Seq<Seq<char>> {
        id_views(self.base@)
    }

    pub closed spec fn deps_v(&self) -> Map<Seq<char>, Seq<Seq<char>>> {
        self.deps@
    }

    pub closed spec fn hint_v(&self) -> Seq<Seq<char>> {
        id_views(self.hint@)
    }

    pub closed spec fn pinned_v(&self) -> Seq<Seq<char>> {
        id_views(self.pinned@)
    }

    pub closed spec fn pool_v(&self) -> Seq<Seq<char>> {
        id_views(self.pool@)
    }

    pub closed spec fn found_v(&self) -> Seq<Seq<char>> {
        id_views(self.found@)
    }

    pub closed spec fn phase_v(&self) -> Phase {
        self.phase
    }

    pub closed spec fn stage_v(&self) -> Stage {
        self.stage
    }

    pub closed spec fn parts_v(&self) -> int {
        self.parts as int
    }

    pub closed spec fn index_v(&self) -> int {
        self.index as int
    }

    pub closed spec fn runs_v(&self) -> int {
        self.runs as int
    }

    /// The sets already run, in order, with whether each reproduced it.
    pub closed spec fn cache_v(&self) -> Seq<(Seq<Seq<char>>, bool)> {
        self.cache@.map_values(|e: (Vec<ModId>, bool)| (id_views(e.0@), e.1))
    }

    /// The sets already run, in order.
    pub closed spec fn tried(&self) -> Seq<Seq<Seq<char>>> {
        self.cache@.map_values(|e: (Vec<ModId>, bool)| id_views(e.0@))
    }

    /// The set handed out and awaiting its answer: kind, subset, active.
    pub closed spec fn pending_v(&self) -> Option<(Kind, Seq<Seq<char>>, Seq<Seq<char>>)> {
        match self.pending {
            Some(c) => Some((c.kind, id_views(c.subset@), id_views(c.active@))),
            None => None,
        }
    }

    pub closed spec fn log_v(&self) -> Seq<Step> {
        self.log@
    }

    /// What a run of `subset` enables, in load order.
    pub open spec fn active_for(&self, subset: Seq<Seq<char>>) -> Seq<Seq<char>> {
        self.order_v().filter(kept(self.deps_v(), self.base_v(), self.pinned_v(), subset))
    }

    /// The mods under suspicion: the build but vanilla content.
    pub open spec fn suspects(&self) -> Seq<Seq<char>> {
        self.order_v().skip(self.base_v().len() as int)
    }

    /// The moving part of the state.
    pub open spec fn machine(&self) -> Machine {
        Machine {
            phase: self.phase_v(),
            pool: self.pool_v(),
            pinned: self.pinned_v(),
            found: self.found_v(),
            parts: self.parts_v(),
            stage: self.stage_v(),
            index: self.index_v(),
        }
    }

    /// The current cut of the pool.
    pub open spec fn pieces(&self) -> Seq<Seq<Seq<char>>> {
        pieces_m(self.machine())
    }

    /// In one of the narrowing phases, with something left to narrow.
    pub open spec fn narrowing(&self) -> bool {
        narrowing_m(self.machine())
    }

    /// `subset` of `kind` is what the search tries in its current state.
    pub open spec fn proposes(&self, kind: Kind, subset: Seq<Seq<char>>) -> bool {
        proposes_m(self.hint_v(), self.machine(), kind, subset)
    }

    /// How far the search still has to go.
    pub open spec fn progress(&self) -> (int, int, int, int, int) {
        progress_m(self.machine())
    }

    /// What [`Search::next`] offers from this state, and the state it
    /// leaves, when nothing awaits an answer.
    pub open spec fn next_offer(&self) -> (Machine, Option<(Kind, Seq<Seq<char>>, Seq<Seq<char>>)>) {
        next_m(self.order_v(), self.base_v(), self.deps_v(), self.hint_v(), self.cache_v(), self.machine())
    }

    /// The state's invariant.
    pub open spec fn wf(&self) -> bool {
        &&& self.parts_v() >= 2
        &&& forall|x: Seq<char>| #[trigger] self.base_v().contains(x) ==> self.order_v().contains(x)
        &&& self.phase_v() == Phase::HintAlone ==> {
            &&& self.hint_v().len() > 0
            &&& self.hint_v().len() < self.pool_v().len()
            &&& forall|x: Seq<char>| #[trigger] self.hint_v().contains(x) ==> self.pool_v().contains(x)
        }
        &&& self.runs_v() == self.tried().len()
        &&& self.log_v().len() == self.runs_v()
        &&& self.base_v().len() <= self.order_v().len()
        &&& within(self.pool_v(), self.suspects())
        &&& within(self.pinned_v(), self.suspects())
        &&& within(self.found_v(), self.suspects())
        &&& within(self.hint_v(), self.suspects())
        &&& self.tried().no_duplicates()
        &&& match self.pending_v() {
            Some((k, sub, act)) => self.proposes(k, sub) && act == self.active_for(sub) && !self.tried().contains(act),
            None => true,
        }
    }

    /// The fields that a step of the state machine does not touch.
    pub open spec fn same_setup(&self, other: &Search) -> bool {
        &&& self.order_v() == other.order_v()
        &&& self.base_v() == other.base_v()
        &&& self.deps_v() == other.deps_v()
        &&& self.hint_v() == other.hint_v()
        &&& self.tried() == other.tried()
        &&& self.cache_v() == other.cache_v()
        &&& self.runs_v() == other.runs_v()
        &&& self.log_v() == other.log_v()
    }
}

/// A filter that drops an element present in the list shortens it.
proof fn lemma_filter_drops(s: Seq<Seq<char>>, pred: spec_fn(Seq<char>) -> bool, i: int)
    requires
        0 <= i < s.len(),
        !pred(s[i]),
    ensures
        s.filter(pred).len() < s.len(),
    decreases s.len(),
{
    let u = s.drop_last();
    assert(u.push(s.last()) == s);
    u.lemma_filter_push(s.last(), pred);
    u.lemma_filter_len(pred);
    if i < s.len() - 1 {
        assert(u[i] == s[i]);
        lemma_filter_drops(u, pred, i);
    }
}

/// The pieces of a list of at least two, cut in at least two.
proof fn lemma_pieces(items: Seq<Seq<char>>, n: int)
    requires
        items.len() >= 2,
        n >= 2,
    ensures
        1 <= split_parts(items, n).len() <= items.len(),
        forall|j: int| 0 <= j < split_parts(items, n).len() ==> {
            &&& 0 < #[trigger] split_parts(items, n)[j].len() < items.len()
            &&& items.contains(split_parts(items, n)[j][0])
        },
{
    let len = items.len() as int;
    let k = piece_count(len, n);
    let raw = Seq::new(k as nat, |i: int| items.subrange(cut_at(len, k, i), cut_at(len, k, i + 1)));
    let sp = raw.filter(nonempty());
    assert(sp == split_parts(items, n));
    raw.lemma_filter_len(nonempty());
    lemma_last_piece(len, k);
    lemma_cut_bounds(len, k, k - 1);
    assert(raw[k - 1] == items.subrange(cut_at(len, k, k - 1), cut_at(len, k, k)));
    assert(raw[k - 1].len() > 0);
    raw.lemma_filter_contains(nonempty(), k - 1);
    assert forall|j: int| 0 <= j < sp.len() implies {
        &&& 0 < #[trigger] sp[j].len() < items.len()
        &&& items.contains(sp[j][0])
    } by {
        raw.lemma_filter_pred(nonempty(), j);
        assert(sp.contains(sp[j]));
        raw.lemma_filter_contains_rev(nonempty(), sp[j]);
        let i = choose|i: int| 0 <= i < raw.len() && raw[i] == sp[j];
        lemma_piece_smaller(len, k, i);
        lemma_cut_bounds(len, k, i);
        assert(sp[j][0] == items[cut_at(len, k, i)]);
    }
}

/// Every mod of a piece is one of the items cut.
proof fn lemma_piece_in(items: Seq<Seq<char>>, n: int, j: int, x: Seq<char>)
    requires
        0 <= j < split_parts(items, n).len(),
        split_parts(items, n)[j].contains(x),
    ensures
        items.contains(x),
{
    let len = items.len() as int;
    let k = piece_count(len, n);
    let raw = Seq::new(k as nat, |i: int| items.subrange(cut_at(len, k, i), cut_at(len, k, i + 1)));
    let sp = raw.filter(nonempty());
    assert(sp == split_parts(items, n));
    assert(sp.contains(sp[j]));
    raw.lemma_filter_contains_rev(nonempty(), sp[j]);
    let i = choose|i: int| 0 <= i < raw.len() && raw[i] == sp[j];
    lemma_cut_bounds(len, k, i);
    let t = choose|t: int| 0 <= t < sp[j].len() && sp[j][t] == x;
    assert(items[cut_at(len, k, i) + t] == x);
}

/// Each mod of `a` is in `b`.
pub open spec fn within(a: Seq<Seq<char>>, b: Seq<Seq<char>>) -> bool {
    forall|x: Seq<char>| #[trigger] a.contains(x) ==> b.contains(x)
}

proof fn lemma_lex_step(a: (int, int, int, int, int), b: (int, int, int, int, int), c: (int, int, int, int, int))
    requires
        lex_below(b, a) || b == a,
        lex_below(c, b),
    ensures
        lex_below(c, a),
{
}

impl Search {
    /// Starts over on a new pool: two parts, parts first.
    fn restart(&mut self)
        ensures
            final(self).parts_v() == 2,
            final(self).stage_v() == Stage::Parts,
            final(self).index_v() == 0,
            final(self).same_setup(old(self)),
            final(self).pool_v() == old(self).pool_v(),
            final(self).pinned_v() == old(self).pinned_v(),
            final(self).found_v() == old(self).found_v(),
            final(self).phase_v() == old(self).phase_v(),
            final(self).pending_v() == old(self).pending_v(),
    {
        self.parts = 2;
        self.stage = Stage::Parts;
        self.index = 0;
    }

    /// Nothing is left to narrow in this phase: what comes next.
    fn finish_phase(&mut self)
        ensures
            final(self).same_setup(old(self)),
            final(self).parts_v() == old(self).parts_v(),
            final(self).stage_v() == old(self).stage_v(),
            final(self).index_v() == old(self).index_v(),
            final(self).pending_v() == old(self).pending_v(),
            old(self).phase_v() == Phase::WithHint ==> {
                &&& final(self).phase_v() == Phase::HintNeeded
                &&& final(self).found_v() == old(self).pool_v()
                &&& final(self).pool_v().len() == 0
                &&& final(self).pinned_v().len() == 0
            },
            old(self).phase_v() != Phase::WithHint ==> {
                &&& final(self).phase_v() == Phase::Done
                &&& final(self).found_v() == old(self).found_v()
                &&& final(self).pool_v() == old(self).pool_v()
                &&& final(self).pinned_v() == old(self).pinned_v()
            },
    {
        match self.phase {
            // The partner is found. Were the suspects needed at all? The log
            // analysis can be wrong, and then they only clutter the answer.
            Phase::WithHint => {
                self.found = copy_ids(&self.pool);
                self.pool = Vec::new();
                self.pinned = Vec::new();
                self.phase = Phase::HintNeeded;
                assert(id_views(self.pool@) =~= Seq::<Seq<char>>::empty());
                assert(id_views(self.pinned@) =~= Seq::<Seq<char>>::empty());
            },
            _ => {
                self.phase = Phase::Done;
            },
        }
    }

    /// Moves the state on by the answer for a set it proposed.
    fn advance(&mut self, kind: Kind, subset: &Vec<ModId>, reproduced: bool)
        requires
            old(self).wf(),
            old(self).pending_v().is_none(),
            old(self).proposes(kind, id_views(subset@)),
        ensures
            final(self).wf(),
            final(self).pending_v().is_none(),
            final(self).same_setup(old(self)),
            lex_below(final(self).progress(), old(self).progress()),
            advanced(old(self), final(self), kind, id_views(subset@), reproduced),
    {
        let ghost sub = id_views(subset@);
        proof {
            if kind == Kind::Part || kind == Kind::Rest {
                lemma_pieces(self.pool_v(), self.parts_v());
            }
        }
        match (kind, reproduced) {
            // The suspects reproduce it alone: the rest of the build is not
            // involved; narrow only them.
            (Kind::Hint, true) => {
                self.pool = copy_ids(subset);
                self.phase = Phase::Plain;
                self.restart();
            },
            // They do not, which does not clear them: keep them on and look
            // for what they are missing.
            (Kind::Hint, false) => {
                let ghost pool0 = id_views(self.pool@);
                let mut rest: Vec<ModId> = Vec::new();
                for i in 0..self.pool.len()
                    invariant
                        id_views(rest@) == id_views(self.pool@).take(i as int).filter(outside(id_views(self.hint@))),
                {
                    let ghost before = id_views(rest@);
                    proof {
                        assert(id_views(self.pool@).take(i + 1) == id_views(self.pool@).take(i as int).push(self.pool@[i as int]@));
                        id_views(self.pool@).take(i as int).lemma_filter_push(self.pool@[i as int]@, outside(id_views(self.hint@)));
                    }
                    if !list_has(&self.hint, &self.pool[i]) {
                        rest.push(self.pool[i].copy());
                        assert(id_views(rest@) =~= before.push(self.pool@[i as int]@));
                    }
                }
                proof {
                    assert(id_views(self.pool@).take(self.pool.len() as int) == id_views(self.pool@));
                    let h0 = self.hint_v()[0];
                    assert(self.hint_v().contains(h0));
                    let t = choose|t: int| 0 <= t < pool0.len() && pool0[t] == h0;
                    lemma_filter_drops(pool0, outside(self.hint_v()), t);
                    assert forall|x: Seq<char>| #[trigger] id_views(rest@).contains(x) implies pool0.contains(x) by {
                        pool0.lemma_filter_contains_rev(outside(self.hint_v()), x);
                    }
                }
                self.pool = rest;
                self.pinned = copy_ids(&self.hint);
                self.phase = Phase::WithHint;
                self.restart();
            },
            // It reproduces without the suspects too: they were not involved.
            (Kind::Recheck, true) => {
                self.pool = copy_ids(&self.found);
                self.found = Vec::new();
                self.phase = Phase::Plain;
                self.restart();
                assert(id_views(self.found@) =~= Seq::<Seq<char>>::empty());
            },
            // The suspects are needed after all: now narrow them.
            (Kind::Recheck, false) => {
                self.pinned = copy_ids(&self.found);
                self.found = Vec::new();
                self.pool = copy_ids(&self.hint);
                self.phase = Phase::MinimizeHint;
                self.restart();
                assert(id_views(self.found@) =~= Seq::<Seq<char>>::empty());
            },
            (Kind::Part, true) => {
                proof {
                    assert forall|x: Seq<char>| #[trigger] sub.contains(x) implies self.pool_v().contains(x) by {
                        lemma_piece_in(self.pool_v(), self.parts_v(), self.index_v(), x);
                    }
                }
                self.pool = copy_ids(subset);
                self.restart();
            },
            (Kind::Rest, true) => {
                proof {
                    let piece = self.pieces()[self.index_v()];
                    assert(self.pool_v().contains(piece[0]));
                    let t = choose|t: int| 0 <= t < self.pool_v().len() && self.pool_v()[t] == piece[0];
                    assert(piece.contains(piece[0]));
                    lemma_filter_drops(self.pool_v(), outside(piece), t);
                    assert forall|x: Seq<char>| #[trigger] sub.contains(x) implies self.pool_v().contains(x) by {
                        self.pool_v().lemma_filter_contains_rev(outside(piece), x);
                    }
                }
                self.pool = copy_ids(subset);
                // A part of the set is already excluded: cut one coarser.
                self.parts = if self.parts > 2 { self.parts - 1 } else { 2 };
                self.stage = Stage::Parts;
                self.index = 0;
            },
            (_, false) => {
                self.index = self.index + 1;
            },
        }
        proof {
            assert forall|x: Seq<char>| #[trigger] self.base_v().contains(x) implies self.order_v().contains(x) by {
                assert(old(self).base_v().contains(x));
            }
        }
    }
}

/// The state after the answer `rep` for `subset` of `kind`.
/// A candidate as values: where it came from, the part narrowed, what is
/// enabled.
pub open spec fn candidate_view(c: Option<Candidate>) -> Option<(Kind, Seq<Seq<char>>, Seq<Seq<char>>)> {
    match c {
        Some(c) => Some((c.kind, id_views(c.subset@), id_views(c.active@))),
        None => None,
    }
}

/// What [`Search::next`] does to `s`, giving `t` and offering `r`: the set
/// that awaits its answer is offered again, unchanged; otherwise the next
/// untried set is handed out and awaits its answer, or there is none left
/// and the search is done.
pub open spec fn offered(s: Search, t: Search, r: Option<(Kind, Seq<Seq<char>>, Seq<Seq<char>>)>) -> bool {
    &&& t.wf()
    &&& t.same_setup(&s)
    &&& s.pending_v().is_some() ==> t == s && r == s.pending_v()
    &&& s.pending_v().is_none() ==> {
        &&& t.machine() == s.next_offer().0
        &&& r == s.next_offer().1
        &&& t.pending_v() == r
        &&& r is None ==> t.phase_v() == Phase::Done
        &&& lex_below(t.progress(), s.progress()) || t.progress() == s.progress()
    }
}

/// What [`Search::record`] does to `s` with the answer `reproduced`, giving
/// `t`: nothing without a set awaiting an answer; else the set joins those
/// tried, the run and the step are counted and the search moves on.
pub open spec fn recorded(s: Search, t: Search, reproduced: bool) -> bool {
    &&& t.wf()
    &&& s.pending_v().is_none() ==> t == s
    &&& s.pending_v() matches Some((k, sub, act)) ==> {
        &&& t.tried() == s.tried().push(act)
        &&& t.cache_v() == s.cache_v().push((act, reproduced))
        &&& t.runs_v() == s.runs_v() + 1
        &&& t.log_v().len() == s.log_v().len() + 1
        &&& t.log_v().drop_last() == s.log_v()
        &&& lex_below(t.progress(), s.progress())
        &&& t.log_v().last().kind == k
        &&& t.log_v().last().size == sub.len()
        &&& t.log_v().last().reproduced == reproduced
        &&& t.pending_v().is_none()
        &&& t.order_v() == s.order_v()
        &&& t.base_v() == s.base_v()
        &&& t.deps_v() == s.deps_v()
        &&& t.hint_v() == s.hint_v()
        &&& advanced(&s, &t, k, sub, reproduced)
    }
}

pub open spec fn advanced(s: &Search, t: &Search, kind: Kind, subset: Seq<Seq<char>>, rep: bool) -> bool {
    t.machine() == advance_m(s.hint_v(), s.machine(), kind, subset, rep)
}

/// The mods the catalogue counts as vanilla content.
pub open spec fn vanilla_in(db: ModDb) -> spec_fn(Seq<char>) -> bool {
    |x: Seq<char>| db.lookup(x) matches Some(e) && (e.source is Core || e.source is DLC)
}

pub open spec fn not_vanilla_in(db: ModDb) -> spec_fn(Seq<char>) -> bool {
    |x: Seq<char>| !(db.lookup(x) matches Some(e) && (e.source is Core || e.source is DLC))
}

/// The suspects worth using: those among the candidates, when they are
/// fewer than all of them.
pub open spec fn useful_hint(candidates: Seq<Seq<char>>, hint: Seq<Seq<char>>) -> Seq<Seq<char>> {
    let h = hint.filter(member_of(candidates));
    if h.len() > 0 && h.len() < candidates.len() { h } else { Seq::empty() }
}

impl Search {
    /// `subset` and what it needs, plus the held-on mods, plus vanilla
    /// content, in load order.
    fn candidate(&self, kind: Kind, subset: Vec<ModId>) -> (r: Candidate)
        ensures
            r.kind == kind,
            id_views(r.subset@) == id_views(subset@),
            id_views(r.active@) == self.active_for(id_views(subset@)),
    {
        let ghost keepf = kept(self.deps_v(), self.base_v(), self.pinned_v(), id_views(subset@));
        let keep = self.deps.close(&subset);
        let pin = self.deps.close(&self.pinned);
        let ghost ov = self.order_v();
        let mut active: Vec<ModId> = Vec::new();
        for i in 0..self.order.len()
            invariant
                ov == self.order_v(),
                keepf == kept(self.deps_v(), self.base_v(), self.pinned_v(), id_views(subset@)),
                forall|y: Seq<char>| #[trigger] id_views(keep@).contains(y) <==> pulled_in(self.deps@, id_views(subset@), y),
                forall|y: Seq<char>| #[trigger] id_views(pin@).contains(y) <==> pulled_in(self.deps@, id_views(self.pinned@), y),
                id_views(active@) == ov.take(i as int).filter(keepf),
        {
            let ghost before = id_views(active@);
            let x = &self.order[i];
            proof {
                assert(ov.take(i + 1) == ov.take(i as int).push(x@));
                ov.take(i as int).lemma_filter_push(x@, keepf);
            }
            if list_has(&self.base, x) || list_has(&keep, x) || list_has(&pin, x) {
                active.push(x.copy());
                assert(id_views(active@) =~= before.push(x@));
            }
        }
        assert(ov.take(self.order.len() as int) == ov);
        Candidate { kind, subset, active }
    }

    /// The answer for a set already run, if it was.
    fn cached(&self, active: &Vec<ModId>) -> (r: Option<bool>)
        ensures
            r.is_some() == self.tried().contains(id_views(active@)),
            r == answer_in(self.cache_v(), id_views(active@)),
    {
        let ghost cv = self.cache_v();
        let ghost a = id_views(active@);
        assert(cv.skip(0) == cv);
        for i in 0..self.cache.len()
            invariant
                cv == self.cache_v(),
                a == id_views(active@),
                forall|j: int| 0 <= j < i ==> #[trigger] self.tried()[j] != id_views(active@),
                answer_in(cv, a) == answer_in(cv.skip(i as int), a),
        {
            assert(cv.skip(i as int)[0] == cv[i as int]);
            assert(cv.skip(i as int).drop_first() == cv.skip(i + 1));
            if same_ids(&self.cache[i].0, active) {
                assert(self.tried()[i as int] == id_views(active@));
                return Some(self.cache[i].1);
            }
        }
        assert(cv.skip(self.cache.len() as int) =~= Seq::<(Seq<Seq<char>>, bool)>::empty());
        None
    }

    /// `pool` without the mods of `piece`.
    fn rest_of(&self, piece: &Vec<ModId>) -> (r: Vec<ModId>)
        ensures
            id_views(r@) == self.pool_v().filter(outside(id_views(piece@))),
    {
        let ghost pv = self.pool_v();
        let mut rest: Vec<ModId> = Vec::new();
        for i in 0..self.pool.len()
            invariant
                pv == self.pool_v(),
                id_views(rest@) == pv.take(i as int).filter(outside(id_views(piece@))),
        {
            let ghost before = id_views(rest@);
            proof {
                assert(pv.take(i + 1) == pv.take(i as int).push(self.pool@[i as int]@));
                pv.take(i as int).lemma_filter_push(self.pool@[i as int]@, outside(id_views(piece@)));
            }
            if !list_has(piece, &self.pool[i]) {
                rest.push(self.pool[i].copy());
                assert(id_views(rest@) =~= before.push(self.pool@[i as int]@));
            }
        }
        assert(pv.take(self.pool.len() as int) == pv);
        rest
    }

    /// What to propose once a phase is finished: the recheck, or nothing.
    fn after_finish(&self) -> (r: Option<(Kind, Vec<ModId>)>)
        requires
            self.phase_v() == Phase::HintNeeded || self.phase_v() == Phase::Done,
        ensures
            match r {
                None => self.phase_v() == Phase::Done,
                Some((k, sub)) => self.proposes(k, id_views(sub@)),
            },
    {
        match self.phase {
            Phase::HintNeeded => Some((Kind::Recheck, copy_ids(&self.found))),
            _ => None,
        }
    }

    /// What to test next, the cache aside.
    #[verifier::rlimit(40)]
    fn step(&mut self) -> (r: Option<(Kind, Vec<ModId>)>)
        requires
            old(self).wf(),
            old(self).pending_v().is_none(),
        ensures
            final(self).wf(),
            final(self).pending_v().is_none(),
            final(self).same_setup(old(self)),
            lex_below(final(self).progress(), old(self).progress()) || final(self).progress() == old(self).progress(),
            match r {
                None => final(self).phase_v() == Phase::Done,
                Some((k, sub)) => final(self).proposes(k, id_views(sub@)),
            },
            final(self).machine() == step_m(old(self).hint_v(), old(self).machine()).0,
            step_m(old(self).hint_v(), old(self).machine()).1 == match r {
                None => None,
                Some((k, sub)) => Some((k, id_views(sub@))),
            },
    {
        match self.phase {
            Phase::Done => {
                return None;
            },
            Phase::HintAlone => {
                return Some((Kind::Hint, copy_ids(&self.hint)));
            },
            // An empty subset: the build keeps vanilla content and what was found.
            Phase::HintNeeded => {
                return Some((Kind::Recheck, copy_ids(&self.found)));
            },
            _ => {},
        }
        if self.pool.len() < 2 {
            self.finish_phase();
            proof {
                assert forall|x: Seq<char>| #[trigger] self.base_v().contains(x) implies self.order_v().contains(x) by {
                    assert(old(self).base_v().contains(x));
                }
            }
            return self.after_finish();
        }
        let pieces = split(&self.pool, self.parts);
        proof {
            lemma_pieces(self.pool_v(), self.parts_v());
        }
        if self.stage == Stage::Parts {
            if self.index < pieces.len() {
                let sub = copy_ids(&pieces[self.index]);
                proof {
                    assert(pieces@.map_values(|p: Vec<ModId>| id_views(p@))[self.index as int] == id_views(pieces@[self.index as int]@));
                }
                return Some((Kind::Part, sub));
            }
            self.stage = Stage::Rest;
            self.index = 0;
            let sub = self.rest_of(&pieces[0]);
            proof {
                assert(pieces@.map_values(|p: Vec<ModId>| id_views(p@))[0] == id_views(pieces@[0]@));
                assert forall|x: Seq<char>| #[trigger] self.base_v().contains(x) implies self.order_v().contains(x) by {
                    assert(old(self).base_v().contains(x));
                }
            }
            return Some((Kind::Rest, sub));
        }
        if self.index < pieces.len() {
            let sub = self.rest_of(&pieces[self.index]);
            proof {
                assert(pieces@.map_values(|p: Vec<ModId>| id_views(p@))[self.index as int] == id_views(pieces@[self.index as int]@));
            }
            return Some((Kind::Rest, sub));
        }
        if self.parts >= self.pool.len() {
            self.finish_phase();
            proof {
                assert forall|x: Seq<char>| #[trigger] self.base_v().contains(x) implies self.order_v().contains(x) by {
                    assert(old(self).base_v().contains(x));
                }
            }
            return self.after_finish();
        }
        // Cut twice as fine, at most into single mods.
        self.parts = if self.parts > self.pool.len() / 2 { self.pool.len() } else { self.parts * 2 };
        self.stage = Stage::Parts;
        self.index = 0;
        let pieces = split(&self.pool, self.parts);
        proof {
            lemma_pieces(self.pool_v(), self.parts_v());
            assert(pieces@.map_values(|p: Vec<ModId>| id_views(p@))[0] == id_views(pieces@[0]@));
            assert forall|x: Seq<char>| #[trigger] self.base_v().contains(x) implies self.order_v().contains(x) by {
                assert(old(self).base_v().contains(x));
            }
        }
        let sub = copy_ids(&pieces[0]);
        Some((Kind::Part, sub))
    }
}

impl Search {
    /// The next set to run; `None` when there is nothing left to narrow.
    ///
    /// Sets whose make-up was already tested are skipped without a run;
    /// until an answer is recorded the same set is offered again.
    #[verifier::rlimit(40)]
    pub fn next(&mut self) -> (r: Option<Candidate>)
        requires
            old(self).wf(),
        ensures
            offered(*old(self), *final(self), candidate_view(r)),
    {
        match &self.pending {
            Some(c) => {
                return Some(c.copy());
            },
            None => {},
        }
        loop
            invariant
                self.wf(),
                self.pending_v().is_none(),
                self.same_setup(old(self)),
                old(self).pending_v().is_none(),
                self.next_offer() == old(self).next_offer(),
                lex_below(self.progress(), old(self).progress()) || self.progress() == old(self).progress(),
            decreases phase_rank(self.phase), self.pool@.len(), self.pool@.len() - self.parts,
                stage_rank(self.stage), self.pool@.len() - self.index,
        {
            let ghost start = self.progress();
            let (kind, subset) = match self.step() {
                None => {
                    return None;
                },
                Some(x) => x,
            };
            let c = self.candidate(kind, subset);
            match self.cached(&c.active) {
                Some(reproduced) => {
                    let ghost mid = self.progress();
                    self.advance(c.kind, &c.subset, reproduced);
                    proof {
                        lemma_lex_step(start, mid, self.progress());
                        lemma_lex_step(old(self).progress(), start, self.progress());
                    }
                },
                None => {
                    let out = c.copy();
                    self.pending = Some(c);
                    return Some(out);
                },
            }
        }
    }

    /// Takes the answer for the set handed out.
    pub fn record(&mut self, reproduced: bool)
        requires
            old(self).wf(),
        ensures
            recorded(*old(self), *final(self), reproduced),
    {
        let c = match self.pending.take() {
            None => {
                return;
            },
            Some(c) => c,
        };
        let ghost t0 = self.tried();
        let ghost c0 = self.cache_v();
        let ghost l0 = self.log_v();
        self.cache.push((copy_ids(&c.active), reproduced));
        proof {
            assert(self.tried() =~= t0.push(id_views(c.active@)));
            assert(self.cache_v() =~= c0.push((id_views(c.active@), reproduced)));
            lemma_push_fresh(t0, id_views(c.active@));
        }
        // Every run made is in the cache.
        self.runs = self.cache.len();
        self.log.push(Step { kind: c.kind, size: c.subset.len(), reproduced });
        proof {
            assert(self.log_v().drop_last() =~= l0);
            assert forall|x: Seq<char>| #[trigger] self.base_v().contains(x) implies self.order_v().contains(x) by {
                assert(old(self).base_v().contains(x));
            }
        }
        self.advance(c.kind, &c.subset, reproduced);
    }

    /// Stops the search; the current approximation stays the result.
    pub fn stop(&mut self)
        requires
            old(self).wf(),
        ensures
            final(self).wf(),
            final(self).same_setup(old(self)),
            final(self).phase_v() == Phase::Done,
            final(self).pending_v().is_none(),
            final(self).pinned_v() == old(self).pinned_v(),
            final(self).pool_v() == old(self).pool_v(),
            final(self).found_v() == old(self).found_v(),
            final(self).parts_v() == old(self).parts_v(),
            final(self).stage_v() == old(self).stage_v(),
            final(self).index_v() == old(self).index_v(),
    {
        self.pending = None;
        self.phase = Phase::Done;
        proof {
            assert forall|x: Seq<char>| #[trigger] self.base_v().contains(x) implies self.order_v().contains(x) by {
                assert(old(self).base_v().contains(x));
            }
        }
    }

    pub fn is_done(&self) -> (r: bool)
        ensures
            r == (self.phase_v() == Phase::Done),
    {
        self.phase == Phase::Done
    }

    /// The set found; while the search runs, the current approximation:
    /// what is held on, narrowed and found, in load order.
    pub fn result(&self) -> (r: Vec<ModId>)
        ensures
            id_views(r@) == self.order_v().filter(in_any(self.pinned_v(), self.pool_v(), self.found_v())),
    {
        let ghost ov = self.order_v();
        let ghost f = in_any(self.pinned_v(), self.pool_v(), self.found_v());
        let mut out: Vec<ModId> = Vec::new();
        for i in 0..self.order.len()
            invariant
                ov == self.order_v(),
                f == in_any(self.pinned_v(), self.pool_v(), self.found_v()),
                id_views(out@) == ov.take(i as int).filter(f),
        {
            let ghost before = id_views(out@);
            let x = &self.order[i];
            proof {
                assert(ov.take(i + 1) == ov.take(i as int).push(x@));
                ov.take(i as int).lemma_filter_push(x@, f);
            }
            if list_has(&self.pinned, x) || list_has(&self.pool, x) || list_has(&self.found, x) {
                out.push(x.copy());
                assert(id_views(out@) =~= before.push(x@));
            }
        }
        assert(ov.take(self.order.len() as int) == ov);
        out
    }

    /// The steps taken so far.
    pub fn steps(&self) -> (r: &[Step])
        ensures
            r@ == self.log_v(),
    {
        self.log.as_slice()
    }

    /// How many runs were made (sets known from the cache do not count).
    pub fn runs(&self) -> (r: usize)
        ensures
            r == self.runs_v(),
    {
        self.runs
    }

    /// The load order of the original build.
    pub fn order(&self) -> (r: &[ModId])
        ensures
            id_views(r@) == self.order_v(),
    {
        self.order.as_slice()
    }

    /// `candidates` are the suspects in load order, `base` vanilla content,
    /// `hint` the log analysis' suspects.
    pub fn new(candidates: Vec<ModId>, base: Vec<ModId>, deps: Deps, hint: Vec<ModId>) -> (r: Search)
        ensures
            r.wf(),
            r.order_v() == id_views(base@) + id_views(candidates@),
            r.base_v() == id_views(base@),
            r.deps_v() == deps@,
            r.pool_v() == id_views(candidates@),
            r.hint_v() == useful_hint(id_views(candidates@), id_views(hint@)),
            r.pinned_v().len() == 0,
            r.found_v().len() == 0,
            r.phase_v() == (if candidates@.len() == 0 {
                Phase::Done
            } else if useful_hint(id_views(candidates@), id_views(hint@)).len() > 0 {
                Phase::HintAlone
            } else {
                Phase::Plain
            }),
            r.parts_v() == 2,
            r.stage_v() == Stage::Parts,
            r.index_v() == 0,
            r.tried().len() == 0,
            r.cache_v().len() == 0,
            r.runs_v() == 0,
            r.log_v().len() == 0,
            r.pending_v().is_none(),
    {
        let ghost cv = id_views(candidates@);
        let mut order = copy_ids(&base);
        let ghost b = id_views(order@);
        for i in 0..candidates.len()
            invariant
                id_views(order@) == b + id_views(candidates@).take(i as int),
        {
            let ghost before = id_views(order@);
            order.push(candidates[i].copy());
            assert(id_views(order@) =~= before.push(candidates@[i as int]@));
            assert(id_views(candidates@).take(i + 1) =~= id_views(candidates@).take(i as int).push(candidates@[i as int]@));
        }
        assert(id_views(candidates@).take(candidates.len() as int) == id_views(candidates@));
        let mut useful: Vec<ModId> = Vec::new();
        let ghost hv = id_views(hint@);
        for i in 0..hint.len()
            invariant
                hv == id_views(hint@),
                id_views(useful@) == hv.take(i as int).filter(member_of(id_views(candidates@))),
        {
            let ghost before = id_views(useful@);
            proof {
                assert(hv.take(i + 1) == hv.take(i as int).push(hint@[i as int]@));
                hv.take(i as int).lemma_filter_push(hint@[i as int]@, member_of(id_views(candidates@)));
            }
            if list_has(&candidates, &hint[i]) {
                useful.push(hint[i].copy());
                assert(id_views(useful@) =~= before.push(hint@[i as int]@));
            }
        }
        assert(hv.take(hint.len() as int) == hv);
        let use_hint = useful.len() > 0 && useful.len() < candidates.len();
        let phase = if candidates.len() == 0 {
            Phase::Done
        } else if use_hint {
            Phase::HintAlone
        } else {
            Phase::Plain
        };
        let hint_kept = if use_hint { useful } else { Vec::new() };
        let r = Search {
            order,
            base,
            deps,
            hint: hint_kept,
            pinned: Vec::new(),
            pool: candidates,
            found: Vec::new(),
            phase,
            parts: 2,
            stage: Stage::Parts,
            index: 0,
            cache: Vec::new(),
            pending: None,
            log: Vec::new(),
            runs: 0,
        };
        proof {
            assert(r.pinned_v() =~= Seq::<Seq<char>>::empty());
            assert(r.found_v() =~= Seq::<Seq<char>>::empty());
            assert(r.tried() =~= Seq::<Seq<Seq<char>>>::empty());
            assert(r.cache_v() =~= Seq::<(Seq<Seq<char>>, bool)>::empty());
            if !use_hint {
                assert(r.hint_v() =~= Seq::<Seq<char>>::empty());
            }
            assert forall|x: Seq<char>| #[trigger] r.base_v().contains(x) implies r.order_v().contains(x) by {
                let t = choose|t: int| 0 <= t < r.base_v().len() && r.base_v()[t] == x;
                assert(r.order_v()[t] == x);
            }
            if use_hint {
                assert forall|x: Seq<char>| #[trigger] r.hint_v().contains(x) implies r.pool_v().contains(x) by {
                    hv.lemma_filter_contains_rev(member_of(cv), x);
                    let t = choose|t: int| 0 <= t < r.hint_v().len() && r.hint_v()[t] == x;
                    hv.lemma_filter_pred(member_of(cv), t);
                }
            }
        }
        r
    }

    /// Sets up a search over a build and the log analysis' suspects.
    ///
    /// Vanilla content is never suspected: the game does not start without
    /// Core, and DLCs rarely break and are pointless to switch off.
    pub fn from_profile(db: &ModDb, profile: &Profile, hint: Vec<ModId>) -> (r: Search)
        requires
            db.wf(),
            profile.wf(),
        ensures
            r.wf(),
            r.order_v() == profile@.filter(vanilla_in(*db)) + profile@.filter(not_vanilla_in(*db)),
            r.base_v() == profile@.filter(vanilla_in(*db)),
            r.pool_v() == profile@.filter(not_vanilla_in(*db)),
            r.deps_v() == build_deps(*db, profile@),
            r.hint_v() == useful_hint(profile@.filter(not_vanilla_in(*db)), id_views(hint@)),
            r.phase_v() == (if profile@.filter(not_vanilla_in(*db)).len() == 0 {
                Phase::Done
            } else if useful_hint(profile@.filter(not_vanilla_in(*db)), id_views(hint@)).len() > 0 {
                Phase::HintAlone
            } else {
                Phase::Plain
            }),
            r.suspects() == profile@.filter(not_vanilla_in(*db)),
            r.pinned_v().len() == 0,
            r.found_v().len() == 0,
            r.parts_v() == 2,
            r.stage_v() == Stage::Parts,
            r.index_v() == 0,
            r.tried().len() == 0,
            r.cache_v().len() == 0,
            r.runs_v() == 0,
            r.log_v().len() == 0,
            r.pending_v().is_none(),
    {
        let order = profile.order();
        let ghost ids = profile@;
        let mut base: Vec<ModId> = Vec::new();
        let mut candidates: Vec<ModId> = Vec::new();
        for i in 0..order.len()
            invariant
                id_views(order@) == ids,
                db.wf(),
                id_views(base@) == ids.take(i as int).filter(vanilla_in(*db)),
                id_views(candidates@) == ids.take(i as int).filter(not_vanilla_in(*db)),
        {
            let ghost bb = id_views(base@);
            let ghost cb = id_views(candidates@);
            proof {
                assert(ids.take(i + 1) == ids.take(i as int).push(ids[i as int]));
                ids.take(i as int).lemma_filter_push(ids[i as int], vanilla_in(*db));
                ids.take(i as int).lemma_filter_push(ids[i as int], not_vanilla_in(*db));
            }
            let vanilla = match db.get(&order[i]) {
                Some(entry) => entry.is_vanilla(),
                None => false,
            };
            if vanilla {
                base.push(order[i].copy());
                assert(id_views(base@) =~= bb.push(ids[i as int]));
            } else {
                candidates.push(order[i].copy());
                assert(id_views(candidates@) =~= cb.push(ids[i as int]));
            }
        }
        assert(ids.take(order.len() as int) == ids);
        let deps = Deps::from_db(db, profile);
        let r = Search::new(candidates, base, deps, hint);
        assert(r.suspects() =~= ids.filter(not_vanilla_in(*db)));
        r
    }
}

/// No set is ever run twice: the sets run so far are all different.
pub proof fn law_no_set_is_run_twice(s: &Search)
    requires
        s.wf(),
    ensures
        s.tried().no_duplicates(),
        s.pending_v() matches Some((k, sub, act)) ==> !s.tried().contains(act),
{
}

/// Vanilla content is in every run.
pub proof fn law_base_is_in_every_run(s: &Search, subset: Seq<Seq<char>>)
    requires
        s.wf(),
    ensures
        forall|x: Seq<char>| #[trigger] s.base_v().contains(x) ==> s.active_for(subset).contains(x),
{
    assert forall|x: Seq<char>| #[trigger] s.base_v().contains(x) implies s.active_for(subset).contains(x) by {
        assert(s.order_v().contains(x));
        let t = choose|t: int| 0 <= t < s.order_v().len() && s.order_v()[t] == x;
        s.order_v().lemma_filter_contains(kept(s.deps_v(), s.base_v(), s.pinned_v(), subset), t);
    }
}

/// A run never lacks what its suspects need: every mod of the build that a
/// suspected mod of the run needs is in the run too.
#[verifier::spinoff_prover]
#[verifier::rlimit(30)]
pub proof fn law_dependencies_are_included(s: &Search, subset: Seq<Seq<char>>, x: Seq<char>, y: Seq<char>)
    requires
        s.active_for(subset).contains(x),
        !s.base_v().contains(x),
        needs(s.deps_v(), x, y),
        s.order_v().contains(y),
    ensures
        s.active_for(subset).contains(y),
{
    let f = kept(s.deps_v(), s.base_v(), s.pinned_v(), subset);
    s.order_v().lemma_filter_contains_rev(f, x);
    let i = choose|i: int| 0 <= i < s.active_for(subset).len() && s.active_for(subset)[i] == x;
    s.order_v().lemma_filter_pred(f, i);
    let src = if pulled_in(s.deps_v(), subset, x) { subset } else { s.pinned_v() };
    let p = choose|p: Seq<Seq<char>>| #[trigger] dep_path(s.deps_v(), src, p) && p.last() == x;
    let q = p.push(y);
    assert(dep_path(s.deps_v(), src, q)) by {
        assert forall|k: int| 0 <= k < q.len() - 1 implies needs(s.deps_v(), #[trigger] q[k], q[k + 1]) by {
            if k < p.len() - 1 {
                assert(needs(s.deps_v(), p[k], p[k + 1]));
            }
        }
    }
    assert(f(y));
    let t = choose|t: int| 0 <= t < s.order_v().len() && s.order_v()[t] == y;
    s.order_v().lemma_filter_contains(f, t);
}

/// The closure over a build's dependencies (what [`Deps::close`] gives on
/// [`Deps::from_db`]) adds only mods of the build: a dependency that is not
/// in the build is never pulled in.
pub proof fn law_closure_stays_in_build(db: ModDb, ids: Seq<Seq<char>>, subset: Seq<Seq<char>>, y: Seq<char>)
    requires
        pulled_in(build_deps(db, ids), subset, y),
        !subset.contains(y),
    ensures
        ids.contains(y),
{
    let m = build_deps(db, ids);
    let p = choose|p: Seq<Seq<char>>| #[trigger] dep_path(m, subset, p) && p.last() == y;
    assert(p.len() > 1);
    let x = p[p.len() - 2];
    assert(needs(m, x, p[p.len() - 2 + 1]));
    let ds = db.lookup(x).unwrap().dependencies.deep_view();
    assert(m[x] == ds.filter(member_of(ids)));
    let i = choose|i: int| 0 <= i < ds.filter(member_of(ids)).len() && ds.filter(member_of(ids))[i] == y;
    ds.lemma_filter_pred(member_of(ids), i);
}

/// A set handed out is made of suspects, and its run enables every one of
/// them.
pub proof fn law_subset_is_enabled(s: &Search)
    requires
        s.wf(),
    ensures
        s.pending_v() matches Some((k, sub, act)) ==> within(sub, act) && within(sub, s.suspects()),
{
    if let Some((k, sub, act)) = s.pending_v() {
        assert forall|x: Seq<char>| #[trigger] sub.contains(x) implies s.suspects().contains(x) by {
            if k == Kind::Part {
                lemma_piece_in(s.pool_v(), s.parts_v(), s.index_v(), x);
            } else if k == Kind::Rest {
                s.pool_v().lemma_filter_contains_rev(outside(s.pieces()[s.index_v()]), x);
            }
        }
        assert forall|x: Seq<char>| #[trigger] sub.contains(x) implies act.contains(x) by {
            let su = s.suspects();
            let i = choose|i: int| 0 <= i < su.len() && su[i] == x;
            assert(s.order_v()[s.base_v().len() + i] == x);
            assert(dep_path(s.deps_v(), sub, seq![x]));
            s.order_v().lemma_filter_contains(kept(s.deps_v(), s.base_v(), s.pinned_v(), sub), s.base_v().len() + i);
        }
    }
}

/// What the search holds as its result is made of suspects only.
pub proof fn law_result_is_suspected(s: &Search)
    requires
        s.wf(),
    ensures
        within(s.order_v().filter(in_any(s.pinned_v(), s.pool_v(), s.found_v())), s.suspects()),
{
    let f = in_any(s.pinned_v(), s.pool_v(), s.found_v());
    assert forall|x: Seq<char>| #[trigger] s.order_v().filter(f).contains(x) implies s.suspects().contains(x) by {
        let i = choose|i: int| 0 <= i < s.order_v().filter(f).len() && s.order_v().filter(f)[i] == x;
        s.order_v().lemma_filter_pred(f, i);
    }
}

/// A done search awaits no answer, offers nothing more and stays as it is.
pub proof fn law_done_search_offers_nothing(s: &Search)
    requires
        s.wf(),
        s.phase_v() == Phase::Done,
    ensures
        s.pending_v().is_none(),
        s.next_offer().0 == s.machine(),
        s.next_offer().1.is_none(),
{
}

/// The problem shows exactly when mod `c` is enabled, and only a run of `c`
/// itself enables it: it is in the build, is no vanilla content, and no mod
/// needs it.
pub open spec fn lone_culprit(s: &Search, c: Seq<char>) -> bool {
    &&& s.order_v().contains(c)
    &&& !s.base_v().contains(c)
    &&& forall|x: Seq<char>| !#[trigger] needs(s.deps_v(), x, c)
}

/// Every answer in `cache` says whether `c` was enabled.
pub open spec fn answers_by(cache: Seq<(Seq<Seq<char>>, bool)>, c: Seq<char>) -> bool {
    forall|i: int| 0 <= i < cache.len() ==> #[trigger] cache[i].1 == cache[i].0.contains(c)
}

/// A plain search, with nothing held on or found, on the track of `c`:
/// `c` is in the pool; while there is something to narrow, the parts are
/// being tried and none tried so far holds `c`; once done, `c` is all that
/// is left.
pub open spec fn narrows_to(m: Machine, c: Seq<char>) -> bool {
    &&& m.phase == Phase::Plain || m.phase == Phase::Done
    &&& m.pinned.len() == 0
    &&& m.found.len() == 0
    &&& m.parts == 2
    &&& m.index >= 0
    &&& m.pool.contains(c)
    &&& m.phase == Phase::Done ==> m.pool.len() == 1
    &&& m.phase == Phase::Plain && m.pool.len() >= 2 ==> {
        &&& m.stage == Stage::Parts
        &&& forall|j: int| 0 <= j < m.index && j < pieces_m(m).len() ==> !(#[trigger] pieces_m(m)[j]).contains(c)
    }
}

/// How many times a pool of `n` mods can be halved (rounding up) before
/// one is left.
pub open spec fn halvings(n: int) -> nat
    decreases n,
{
    if n <= 1 { 0 } else { 1 + halvings(n - n / 2) }
}

/// The runs a search on the track of a lone culprit can still make: two
/// per halving of the pool, less the part already found clean.
pub open spec fn runs_left(m: Machine) -> int {
    if m.phase == Phase::Plain && m.pool.len() >= 2 { 2 * halvings(m.pool.len() as int) - m.index } else { 0 }
}

/// The runs made, and those a search on the track of a lone culprit can
/// still make.
pub open spec fn run_budget(s: &Search) -> int {
    s.runs_v() + runs_left(s.machine())
}

proof fn lemma_halvings_monotone(a: int, b: int)
    requires
        a <= b,
    ensures
        halvings(a) <= halvings(b),
    decreases b,
{
    if a >= 2 {
        lemma_halvings_monotone(a - a / 2, b - b / 2);
    }
}

/// A pool of at least two cut in two: its first half (rounded down) and
/// the rest.
proof fn lemma_two_pieces(items: Seq<Seq<char>>)
    requires
        items.len() >= 2,
    ensures
        split_parts(items, 2).len() == 2,
        split_parts(items, 2)[0].len() == items.len() / 2,
        split_parts(items, 2)[1].len() == items.len() - items.len() / 2,
{
    let len = items.len() as int;
    assert(piece_count(len, 2) == 2);
    let raw = Seq::new(2, |i: int| items.subrange(cut_at(len, 2, i), cut_at(len, 2, i + 1)));
    assert(cut_at(len, 2, 0) == 0);
    assert(cut_at(len, 2, 1) == len / 2);
    assert(cut_at(len, 2, 2) == len);
    assert(raw[0].len() == len / 2);
    assert(raw[1].len() == len - len / 2);
    assert(raw =~= Seq::<Seq<Seq<char>>>::empty().push(raw[0]).push(raw[1]));
    Seq::<Seq<Seq<char>>>::empty().lemma_filter_push(raw[0], nonempty());
    Seq::<Seq<Seq<char>>>::empty().push(raw[0]).lemma_filter_push(raw[1], nonempty());
    assert(split_parts(items, 2) == raw.filter(nonempty()));
}

/// Some piece `i` at or after `a` of a cut begins at or before `t` and ends
/// after it.
proof fn lemma_cut_covers(len: int, k: int, a: int, t: int)
    requires
        len >= 0,
        k >= 1,
        0 <= a < k,
        cut_at(len, k, a) <= t < len,
    ensures
        exists|i: int| a <= i < k && cut_at(len, k, i) <= t < #[trigger] cut_at(len, k, i + 1),
    decreases k - a,
{
    lemma_cut_bounds(len, k, a);
    if t < cut_at(len, k, a + 1) {
        assert(cut_at(len, k, a) <= t < cut_at(len, k, a + 1));
    } else {
        assert(a + 1 < k);
        lemma_cut_covers(len, k, a + 1, t);
    }
}

/// Every item is in some piece of a cut.
proof fn lemma_pieces_cover(items: Seq<Seq<char>>, n: int, x: Seq<char>)
    requires
        items.contains(x),
    ensures
        exists|j: int| 0 <= j < split_parts(items, n).len() && (#[trigger] split_parts(items, n)[j]).contains(x),
{
    let len = items.len() as int;
    let k = piece_count(len, n);
    let raw = Seq::new(k as nat, |i: int| items.subrange(cut_at(len, k, i), cut_at(len, k, i + 1)));
    let sp = raw.filter(nonempty());
    assert(sp == split_parts(items, n));
    let t = choose|t: int| 0 <= t < items.len() && items[t] == x;
    lemma_cut_bounds(len, k, 0);
    lemma_cut_covers(len, k, 0, t);
    let i = choose|i: int| 0 <= i < k && cut_at(len, k, i) <= t < #[trigger] cut_at(len, k, i + 1);
    lemma_cut_bounds(len, k, i);
    assert(raw[i][t - cut_at(len, k, i)] == x);
    assert(raw[i].contains(x));
    raw.lemma_filter_contains(nonempty(), i);
    let j = choose|j: int| 0 <= j < sp.len() && sp[j] == raw[i];
    assert(sp[j].contains(x));
}

/// On the track of `c`, the step proposes the next part, or ends with `c`
/// alone in the pool.
proof fn lemma_step_on_track(hint: Seq<Seq<char>>, m: Machine, c: Seq<char>)
    requires
        narrows_to(m, c),
    ensures
        match step_m(hint, m).1 {
            Some((k, sub)) => k == Kind::Part && step_m(hint, m).0 == m && m.index < pieces_m(m).len()
                && sub == pieces_m(m)[m.index] && m.phase == Phase::Plain && m.pool.len() >= 2,
            None => step_m(hint, m).0.phase == Phase::Done && narrows_to(step_m(hint, m).0, c),
        },
        runs_left(step_m(hint, m).0) <= runs_left(m),
{
    if m.phase == Phase::Plain && m.pool.len() >= 2 {
        lemma_pieces_cover(m.pool, m.parts, c);
        let j = choose|j: int| 0 <= j < pieces_m(m).len() && (#[trigger] pieces_m(m)[j]).contains(c);
        assert(m.index < pieces_m(m).len());
    }
}

/// On the track of `c`, a true answer for the part proposed keeps the
/// search on it.
proof fn lemma_advance_on_track(hint: Seq<Seq<char>>, m: Machine, c: Seq<char>, rep: bool)
    requires
        narrows_to(m, c),
        m.phase == Phase::Plain,
        m.pool.len() >= 2,
        m.index < pieces_m(m).len(),
        rep == pieces_m(m)[m.index].contains(c),
    ensures
        narrows_to(advance_m(hint, m, Kind::Part, pieces_m(m)[m.index], rep), c),
        runs_left(advance_m(hint, m, Kind::Part, pieces_m(m)[m.index], rep)) <= runs_left(m) - 1,
{
    let sub = pieces_m(m)[m.index];
    let m2 = advance_m(hint, m, Kind::Part, sub, rep);
    let len = m.pool.len() as int;
    lemma_two_pieces(m.pool);
    lemma_pieces_cover(m.pool, m.parts, c);
    let jc = choose|j: int| 0 <= j < pieces_m(m).len() && (#[trigger] pieces_m(m)[j]).contains(c);
    assert(m.index <= jc);
    assert(halvings(len) == 1 + halvings(len - len / 2));
    if rep {
        assert(sub.len() <= len - len / 2);
        lemma_halvings_monotone(sub.len() as int, len - len / 2);
    }
    if rep {
        if sub.len() < 2 {
            assert(m2.pool.len() == 1);
        }
    } else {
        assert(pieces_m(m2) == pieces_m(m));
        assert forall|j: int| 0 <= j < m2.index && j < pieces_m(m2).len() implies !(#[trigger] pieces_m(m2)[j]).contains(c) by {
            if j < m.index {
                assert(pieces_m(m)[j] == pieces_m(m2)[j]);
            }
        }
    }
}

/// With nothing held on, a run enables a mod that nothing needs exactly
/// when it is one of the run's subset.
proof fn lemma_lone_active(
    order: Seq<Seq<char>>,
    deps: Map<Seq<char>, Seq<Seq<char>>>,
    base: Seq<Seq<char>>,
    pinned: Seq<Seq<char>>,
    sub: Seq<Seq<char>>,
    c: Seq<char>,
)
    requires
        order.contains(c),
        !base.contains(c),
        pinned.len() == 0,
        forall|x: Seq<char>| !#[trigger] needs(deps, x, c),
    ensures
        active_in(order, deps, base, pinned, sub).contains(c) == sub.contains(c),
{
    let f = kept(deps, base, pinned, sub);
    if sub.contains(c) {
        assert(dep_path(deps, sub, seq![c]));
        assert(f(c));
        let t = choose|t: int| 0 <= t < order.len() && order[t] == c;
        order.lemma_filter_contains(f, t);
    }
    if active_in(order, deps, base, pinned, sub).contains(c) {
        order.lemma_filter_contains_rev(f, c);
        let i = choose|i: int| 0 <= i < order.filter(f).len() && order.filter(f)[i] == c;
        order.lemma_filter_pred(f, i);
        if pulled_in(deps, pinned, c) {
            let p = choose|p: Seq<Seq<char>>| #[trigger] dep_path(deps, pinned, p) && p.last() == c;
            assert(pinned.contains(p[0]));
        }
        let p = choose|p: Seq<Seq<char>>| #[trigger] dep_path(deps, sub, p) && p.last() == c;
        if p.len() > 1 {
            assert(needs(deps, p[p.len() - 2], p[p.len() - 2 + 1]));
        }
        assert(sub.contains(p[0]));
    }
}

/// An answer from a cache that answers by `c` says whether `c` was enabled.
proof fn lemma_answer_by(cache: Seq<(Seq<Seq<char>>, bool)>, act: Seq<Seq<char>>, c: Seq<char>)
    requires
        answers_by(cache, c),
    ensures
        answer_in(cache, act) matches Some(b) ==> b == act.contains(c),
    decreases cache.len(),
{
    if cache.len() > 0 && cache[0].0 != act {
        assert forall|i: int| 0 <= i < cache.drop_first().len() implies
            #[trigger] cache.drop_first()[i].1 == cache.drop_first()[i].0.contains(c) by {
            assert(cache.drop_first()[i] == cache[i + 1]);
        }
        lemma_answer_by(cache.drop_first(), act, c);
    }
}

/// Taking steps and answers from the cache keeps a search on the track of
/// a lone culprit.
#[verifier::spinoff_prover]
#[verifier::rlimit(40)]
proof fn lemma_next_keeps(
    order: Seq<Seq<char>>,
    base: Seq<Seq<char>>,
    deps: Map<Seq<char>, Seq<Seq<char>>>,
    hint: Seq<Seq<char>>,
    cache: Seq<(Seq<Seq<char>>, bool)>,
    m: Machine,
    c: Seq<char>,
)
    requires
        order.contains(c),
        !base.contains(c),
        forall|x: Seq<char>| !#[trigger] needs(deps, x, c),
        answers_by(cache, c),
        narrows_to(m, c),
    ensures
        narrows_to(next_m(order, base, deps, hint, cache, m).0, c),
        next_m(order, base, deps, hint, cache, m).1 matches Some((k, sub, act)) ==>
            act.contains(c) == sub.contains(c),
        next_m(order, base, deps, hint, cache, m).1 is None ==> next_m(order, base, deps, hint, cache, m).0.phase == Phase::Done,
        runs_left(next_m(order, base, deps, hint, cache, m).0) <= runs_left(m),
    decreases phase_rank(m.phase), m.pool.len(), m.pool.len() - m.parts, stage_rank(m.stage), m.pool.len() - m.index,
{
    let (m1, o) = step_m(hint, m);
    lemma_step_on_track(hint, m, c);
    match o {
        None => {},
        Some((k, sub)) => {
            let act = active_in(order, deps, base, m1.pinned, sub);
            lemma_lone_active(order, deps, base, m1.pinned, sub, c);
            lemma_answer_by(cache, act, c);
            match answer_in(cache, act) {
                None => {},
                Some(rep) => {
                    lemma_advance_on_track(hint, m, c, rep);
                    lemma_pieces(m.pool, m.parts);
                    let m2 = advance_m(hint, m1, k, sub, rep);
                    assert(sub == split_parts(m.pool, m.parts)[m.index]);
                    assert(0 < split_parts(m.pool, m.parts)[m.index].len() < m.pool.len());
                    assert(lex_below(progress_m(m2), progress_m(m)));
                    lemma_next_keeps(order, base, deps, hint, cache, m2, c);
                },
            }
        },
    }
}

/// A plain search (started without suspects from the log) keeps to a lone
/// culprit `c` (see [`lone_culprit`]) while it is driven with true answers:
/// the set offered next enables `c` exactly when `c` is in its part, the
/// search stays on the track of `c`, and when nothing is left to offer the
/// search is done and its result is `c` alone.
pub proof fn law_offer_keeps_culprit(s: &Search, t: &Search, r: Option<(Kind, Seq<Seq<char>>, Seq<Seq<char>>)>, c: Seq<char>)
    requires
        s.wf(),
        s.pending_v().is_none(),
        lone_culprit(s, c),
        answers_by(s.cache_v(), c),
        narrows_to(s.machine(), c),
        offered(*s, *t, r),
    ensures
        lone_culprit(t, c),
        answers_by(t.cache_v(), c),
        narrows_to(t.machine(), c),
        r matches Some((k, sub, act)) ==> act.contains(c) == sub.contains(c),
        run_budget(t) <= run_budget(s),
        r is None ==> t.phase_v() == Phase::Done
            && t.order_v().filter(in_any(t.pinned_v(), t.pool_v(), t.found_v())) == t.order_v().filter(|x: Seq<char>| x == c),
{
    lemma_next_keeps(s.order_v(), s.base_v(), s.deps_v(), s.hint_v(), s.cache_v(), s.machine(), c);
    if r is None {
        let p = t.pool_v();
        assert(p.contains(c));
        assert(p =~= seq![c]);
        assert(in_any(t.pinned_v(), t.pool_v(), t.found_v()) =~= (|x: Seq<char>| x == c));
    }
}

/// A plain search at its start, before any run, is on the track of each of
/// the mods it narrows, and its (empty) cache answers by any of them. Its
/// run budget is two runs per halving of the pool: as [`Search::next`] and
/// [`Search::record`] never raise the budget (see
/// [`law_offer_keeps_culprit`] and [`law_answer_keeps_culprit`]), a hunt
/// for a lone culprit among `n` mods makes at most `2 * halvings(n)` runs.
pub proof fn law_plain_start_is_on_track(s: &Search, c: Seq<char>)
    requires
        s.wf(),
        s.phase_v() == Phase::Plain,
        s.pinned_v().len() == 0,
        s.found_v().len() == 0,
        s.parts_v() == 2,
        s.stage_v() == Stage::Parts,
        s.index_v() == 0,
        s.cache_v().len() == 0,
        s.pool_v().contains(c),
    ensures
        narrows_to(s.machine(), c),
        answers_by(s.cache_v(), c),
        run_budget(s) == if s.pool_v().len() >= 2 { 2 * halvings(s.pool_v().len() as int) } else { 0 },
{
}

/// A search that starts with the log analysis' suspects, when they hold a
/// lone culprit `c`, first runs the suspects alone; that run reproduces the
/// problem, and the search goes on plainly over the suspects only, on the
/// track of `c`. Its run budget is then one run plus two per halving of
/// the suspects, where a plain start over the whole build has two per
/// halving of the build (see [`law_plain_start_is_on_track`]).
pub proof fn law_hint_holding_culprit_saves_runs(
    s: &Search,
    t: &Search,
    r: Option<(Kind, Seq<Seq<char>>, Seq<Seq<char>>)>,
    u: &Search,
    c: Seq<char>,
)
    requires
        s.wf(),
        s.phase_v() == Phase::HintAlone,
        s.pinned_v().len() == 0,
        s.found_v().len() == 0,
        s.cache_v().len() == 0,
        s.pending_v().is_none(),
        lone_culprit(s, c),
        s.hint_v().contains(c),
        offered(*s, *t, r),
        t.pending_v() matches Some((k, sub, act)) && recorded(*t, *u, act.contains(c)),
    ensures
        r matches Some((k, sub, act)) && k == Kind::Hint && sub == s.hint_v() && act.contains(c),
        narrows_to(u.machine(), c),
        answers_by(u.cache_v(), c),
        lone_culprit(u, c),
        u.pool_v() == s.hint_v(),
        run_budget(u) == 1 + if s.hint_v().len() >= 2 { 2 * halvings(s.hint_v().len() as int) } else { 0 },
{
    let m = s.machine();
    let act = active_in(s.order_v(), s.deps_v(), s.base_v(), m.pinned, s.hint_v());
    assert(step_m(s.hint_v(), m) == (m, Some((Kind::Hint, s.hint_v()))));
    assert(answer_in(s.cache_v(), act) is None);
    assert(s.next_offer() == (m, Some((Kind::Hint, s.hint_v(), act))));
    lemma_lone_active(s.order_v(), s.deps_v(), s.base_v(), m.pinned, s.hint_v(), c);
    assert forall|i: int| 0 <= i < u.cache_v().len() implies
        #[trigger] u.cache_v()[i].1 == u.cache_v()[i].0.contains(c) by {
        assert(i == 0);
        assert(u.cache_v()[0] == (act, true));
    }
}

/// A true answer keeps a plain search on the track of a lone culprit `c`,
/// and every answer moves the search on: the runs of a search are finitely
/// many.
pub proof fn law_answer_keeps_culprit(t: &Search, u: &Search, c: Seq<char>)
    requires
        t.wf(),
        lone_culprit(t, c),
        answers_by(t.cache_v(), c),
        narrows_to(t.machine(), c),
        t.pending_v() matches Some((k, sub, act)) && recorded(*t, *u, act.contains(c)),
    ensures
        lone_culprit(u, c),
        answers_by(u.cache_v(), c),
        narrows_to(u.machine(), c),
        lex_below(u.progress(), t.progress()),
        run_budget(u) <= run_budget(t),
{
    let (k, sub, act) = t.pending_v().unwrap();
    lemma_lone_active(t.order_v(), t.deps_v(), t.base_v(), t.pinned_v(), sub, c);
    assert(k == Kind::Part);
    lemma_advance_on_track(t.hint_v(), t.machine(), c, act.contains(c));
    assert forall|i: int| 0 <= i < u.cache_v().len() implies
        #[trigger] u.cache_v()[i].1 == u.cache_v()[i].0.contains(c) by {
        if i < t.cache_v().len() {
            assert(u.cache_v()[i] == t.cache_v()[i]);
        }
    }
}

} // verus!
