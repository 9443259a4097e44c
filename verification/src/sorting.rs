//! Load-order sorting: tiers, dependency edges and Kahn's algorithm with a
//! priority on ties, after the scheme RimSort uses.

use vstd::prelude::*;
use crate::text::{chars_of, first_at, lex_lt, lower_chars, lowercase, seq_lt, str_eq, to_lower};
use crate::text::{lemma_first_at, lemma_first_at_exists, lemma_push_fresh};
use crate::text::{lemma_seq_lt_irreflexive, lemma_seq_lt_total, lemma_seq_lt_transitive};
use crate::mod_data::mod_id::ModId;
use crate::mod_data::mod_entry::{ModEntry, ModSource};
use crate::mod_data::db::{ids_of, ModDb};
use crate::mod_data::profile::{id_views, lemma_filter_no_duplicates, Profile};

verus! {

broadcast use vstd::seq_lib::group_seq_properties;

// ── Community rules ─────────────────────────────────────────────────────────

/// What the community rules database says of one mod.
pub struct ModRule {
    /// packageIds this mod must load before.
    pub load_before: Vec<String>,
    /// packageIds this mod must load after.
    pub load_after: Vec<String>,
    /// A framework: load right after Core and the DLCs.
    pub load_top: bool,
    /// Load at the very end.
    pub load_bottom: bool,
}

/// A rule as values: (loadBefore, loadAfter, loadTop, loadBottom).
pub type RuleView = (Seq<Seq<char>>, Seq<Seq<char>>, bool, bool);

impl View for ModRule {
    type V = RuleView;

    open spec fn view(&self) -> RuleView {
        (self.load_before.deep_view(), self.load_after.deep_view(), self.load_top, self.load_bottom)
    }
}

/// Each identifier lowercased.
pub open spec fn lowered(s: Seq<Seq<char>>) -> Seq<Seq<char>> {
    s.map_values(|x: Seq<char>| lowercase(x))
}

/// A rule with its identifiers lowercased.
pub open spec fn lowered_rule(r: RuleView) -> RuleView {
    (lowered(r.0), lowered(r.1), r.2, r.3)
}

/// The rules database as a map from lowercased packageId to rule: entries
/// are taken in order and a later entry for the same key replaces an earlier
/// one.
pub open spec fn rules_map(raw: Seq<(Seq<char>, RuleView)>) -> Map<Seq<char>, RuleView>
    decreases raw.len(),
{
    if raw.len() == 0 {
        Map::empty()
    } else {
        rules_map(raw.drop_last()).insert(lowercase(raw.last().0), lowered_rule(raw.last().1))
    }
}

/// The community rules database (RimSort's Community-Rules-Database).
pub struct CommunityRules {
    pub timestamp: u64,
    rules: Vec<(String, ModRule)>,
}

impl View for CommunityRules {
    type V = Map<Seq<char>, RuleView>;

    closed spec fn view(&self) -> Map<Seq<char>, RuleView> {
        Map::new(
            |k: Seq<char>| keys_of(self.rules@).contains(k),
            |k: Seq<char>| self.rules@[first_at(keys_of(self.rules@), k)].1@,
        )
    }
}

spec fn keys_of(s: Seq<(String, ModRule)>) -> Seq<Seq<char>> {
    s.map_values(|e: (String, ModRule)| e.0@)
}

/// The pairs of `raw` as values.
pub open spec fn raw_view(raw: Seq<(String, ModRule)>) -> Seq<(Seq<char>, RuleView)> {
    raw.map_values(|e: (String, ModRule)| (e.0@, e.1@))
}

fn lower_all(v: &Vec<String>) -> (r: Vec<String>)
    ensures
        r.deep_view() == lowered(v.deep_view()),
{
    let mut out: Vec<String> = Vec::new();
    for i in 0..v.len()
        invariant
            out.deep_view() == lowered(v.deep_view().take(i as int)),
    {
        let ghost before = out.deep_view();
        out.push(to_lower(v[i].as_str()));
        assert(out.deep_view() =~= before.push(lowercase(v[i as int]@)));
        assert(lowered(v.deep_view().take(i + 1)) =~= lowered(v.deep_view().take(i as int)).push(
            lowercase(v[i as int]@),
        ));
    }
    assert(v.deep_view().take(v.len() as int) == v.deep_view());
    out
}

impl CommunityRules {
    /// When the database was published.
    pub closed spec fn stamp(&self) -> u64 {
        self.timestamp
    }

    spec fn wf(&self) -> bool {
        keys_of(self.rules@).no_duplicates()
    }

    /// Builds the database from its entries: packageIds, in the keys and in
    /// the rules, are lowercased; a later entry for the same packageId
    /// replaces an earlier one.
    pub fn from_raw(timestamp: u64, raw: Vec<(String, ModRule)>) -> (r: CommunityRules)
        ensures
            r.stamp() == timestamp,
            r@ == rules_map(raw_view(raw@)),
    {
        let mut out = CommunityRules { timestamp, rules: Vec::new() };
        let ghost rv = raw_view(raw@);
        proof {
            assert(out@ =~= rules_map(rv.take(0)));
        }
        for i in 0..raw.len()
            invariant
                rv == raw_view(raw@),
                out.stamp() == timestamp,
                out.wf(),
                out@ == rules_map(rv.take(i as int)),
        {
            let key = to_lower(raw[i].0.as_str());
            let rule = ModRule {
                load_before: lower_all(&raw[i].1.load_before),
                load_after: lower_all(&raw[i].1.load_after),
                load_top: raw[i].1.load_top,
                load_bottom: raw[i].1.load_bottom,
            };
            proof {
                assert(rv.take(i + 1).drop_last() == rv.take(i as int));
                assert(rv.take(i + 1).last() == rv[i as int]);
                assert(rule@ == lowered_rule(rv[i as int].1));
            }
            let ghost old_map = out@;
            let ghost k = key@;
            let ghost v = rule@;
            let mut found: Option<usize> = None;
            for j in 0..out.rules.len()
                invariant
                    forall|t: int| 0 <= t < j ==> keys_of(out.rules@)[t] != k,
                    found.is_none(),
                    key@ == k,
            {
                if str_eq(out.rules[j].0.as_str(), key.as_str()) {
                    found = Some(j);
                    break;
                }
            }
            match found {
                Some(j) => {
                    let ghost before = out.rules@;
                    out.rules.set(j, (key, rule));
                    proof {
                        assert(keys_of(out.rules@) =~= keys_of(before));
                        assert(keys_of(before)[j as int] == k);
                        assert forall|x: Seq<char>| #[trigger] keys_of(before).contains(x) implies
                            first_at(keys_of(before), x) == keys_of(before).index_of(x) by {
                            lemma_first_at_exists(keys_of(before), x);
                        }
                        lemma_first_at(keys_of(before), k, j as int);
                        assert(out@ =~= old_map.insert(k, v));
                    }
                },
                None => {
                    let ghost before = out.rules@;
                    out.rules.push((key, rule));
                    proof {
                        assert(keys_of(out.rules@) =~= keys_of(before).push(k));
                        assert forall|t: int| 0 <= t < keys_of(before).len() implies keys_of(before)[t] != k by {}
                        assert forall|x: Seq<char>| #[trigger] keys_of(before).contains(x) implies
                            first_at(keys_of(out.rules@), x) == first_at(keys_of(before), x) by {
                            lemma_first_at_exists(keys_of(before), x);
                            let t = first_at(keys_of(before), x);
                            lemma_first_at(keys_of(out.rules@), x, t);
                        }
                        lemma_first_at(keys_of(out.rules@), k, before.len() as int);
                        assert(out@ =~= old_map.insert(k, v));
                    }
                },
            }
        }
        assert(rv.take(raw.len() as int) == rv);
        out
    }

    /// The rule for packageId `id`, if the database has one.
    pub fn get(&self, id: &ModId) -> (r: Option<&ModRule>)
        ensures
            match r {
                Some(rule) => self@.contains_key(id@) && self@[id@] == rule@,
                None => !self@.contains_key(id@),
            },
    {
        for j in 0..self.rules.len()
            invariant
                forall|t: int| 0 <= t < j ==> keys_of(self.rules@)[t] != id@,
        {
            if str_eq(self.rules[j].0.as_str(), id.as_str()) {
                proof {
                    assert(keys_of(self.rules@)[j as int] == id@);
                    lemma_first_at(keys_of(self.rules@), id@, j as int);
                }
                return Some(&self.rules[j].1);
            }
        }
        None
    }
}

} // verus!

verus! {

// ── The ordering rules as values ────────────────────────────────────────────

/// The rules database as an optional map.
pub open spec fn rules_view(rules: Option<&CommunityRules>) -> Option<Map<Seq<char>, RuleView>> {
    match rules {
        Some(r) => Some(r@),
        None => None,
    }
}

/// The community rule for packageId `x`.
pub open spec fn rule_of(rv: Option<Map<Seq<char>, RuleView>>, x: Seq<char>) -> Option<RuleView> {
    match rv {
        Some(m) => if m.contains_key(x) { Some(m[x]) } else { None },
        None => None,
    }
}

pub open spec fn core_id() -> Seq<char> {
    "ludeon.rimworld"@
}

/// DLCs in release order.
pub open spec fn dlc_release_order() -> Seq<Seq<char>> {
    seq![
        "ludeon.rimworld.royalty"@,
        "ludeon.rimworld.ideology"@,
        "ludeon.rimworld.biotech"@,
        "ludeon.rimworld.anomaly"@,
        "ludeon.rimworld.odyssey"@,
    ]
}

/// Mods that must load before Core (RimSort's tier zero).
pub open spec fn tier_zero_mods() -> Seq<Seq<char>> {
    seq![
        "zetrith.prepatcher"@,
        "brrainz.harmony"@,
        "brrainz.visualexceptions"@,
        "fishery.core"@,
        "gottimeline.loadingprogress"@,
        "fastergameloading.core"@,
        "justincc.sitecore"@,
    ]
}

/// Frameworks: right after Core and the DLCs (RimSort's tier one).
pub open spec fn tier_one_mods() -> Seq<Seq<char>> {
    seq![
        "oskarpotocki.vanillafactionsexpanded.core"@,
        "vanillaexpanded.backgrounds"@,
        "unlimitedhugs.hugslib"@,
        "imranfish.xmlextensions"@,
        "smashphil.vehicleframework"@,
        "redmattis.betterprerequisites"@,
        "owlchemist.cherrypicker"@,
        "adaptive.storage.framework"@,
        "aoba.framework"@,
        "aoba.exosuit.framework"@,
        "ebsg.framework"@,
        "thesepeople.ritualattachableoutcomes"@,
        "ohno.asf.ab.local"@,
    ]
}

/// Mods that load last (RimSort's tier three).
pub open spec fn tier_three_mods() -> Seq<Seq<char>> {
    seq!["krkr.rocketman"@]
}

/// Position of a DLC in release order; 99 for an unknown one.
pub open spec fn dlc_index(x: Seq<char>) -> int {
    if x == dlc_release_order()[0] {
        0
    } else if x == dlc_release_order()[1] {
        1
    } else if x == dlc_release_order()[2] {
        2
    } else if x == dlc_release_order()[3] {
        3
    } else if x == dlc_release_order()[4] {
        4
    } else {
        99
    }
}

pub open spec fn is_vanilla(e: ModEntry) -> bool {
    e.source is Core || e.source is DLC
}

/// Mod `b` names mod `a` among those it loads after: in loadAfter, in its
/// dependencies or in its community rule.
pub open spec fn wants_after(act: Seq<ModEntry>, rv: Option<Map<Seq<char>, RuleView>>, b: int, a: int) -> bool {
    let x = act[a].package_id@;
    ||| act[b].load_after.deep_view().contains(x)
    ||| act[b].dependencies.deep_view().contains(x)
    ||| (rule_of(rv, act[b].package_id@) matches Some(r) && r.1.contains(x))
}

/// Mod `a` names mod `b` among those it loads before.
pub open spec fn wants_before(act: Seq<ModEntry>, rv: Option<Map<Seq<char>, RuleView>>, a: int, b: int) -> bool {
    let x = act[b].package_id@;
    ||| act[a].load_before.deep_view().contains(x)
    ||| (rule_of(rv, act[a].package_id@) matches Some(r) && r.0.contains(x))
}

/// Mod `a` must load before mod `b`.
pub open spec fn must_precede(act: Seq<ModEntry>, rv: Option<Map<Seq<char>, RuleView>>, a: int, b: int) -> bool {
    &&& 0 <= a < act.len()
    &&& 0 <= b < act.len()
    &&& a != b
    &&& (wants_after(act, rv, b, a) || wants_before(act, rv, a, b))
}

/// `must_precede` as a relation.
pub open spec fn precedes(act: Seq<ModEntry>, rv: Option<Map<Seq<char>, RuleView>>) -> spec_fn(int, int) -> bool {
    |a: int, b: int| must_precede(act, rv, a, b)
}

/// `must_precede` backwards.
pub open spec fn follows(act: Seq<ModEntry>, rv: Option<Map<Seq<char>, RuleView>>) -> spec_fn(int, int) -> bool {
    |a: int, b: int| must_precede(act, rv, b, a)
}

/// `a` leads through `step`s, over mods that are `ok`, to a `seed`.
pub open spec fn reaches(
    n: int,
    step: spec_fn(int, int) -> bool,
    ok: spec_fn(int) -> bool,
    seed: spec_fn(int) -> bool,
    a: int,
) -> bool {
    exists|p: Seq<int>| #[trigger] path_to(n, step, ok, seed, p) && p[0] == a
}

/// `p` is a path of `step`s over `ok` mods that ends in a `seed`.
pub open spec fn path_to(
    n: int,
    step: spec_fn(int, int) -> bool,
    ok: spec_fn(int) -> bool,
    seed: spec_fn(int) -> bool,
    p: Seq<int>,
) -> bool {
    &&& p.len() > 0
    &&& seed(p.last())
    &&& forall|k: int| 0 <= k < p.len() ==> 0 <= #[trigger] p[k] < n && ok(p[k])
    &&& forall|k: int| 0 <= k < p.len() - 1 ==> step(#[trigger] p[k], p[k + 1])
}

pub open spec fn loads_before_core(act: Seq<ModEntry>, rv: Option<Map<Seq<char>, RuleView>>, i: int) -> bool {
    ||| act[i].load_before.deep_view().contains(core_id())
    ||| (rule_of(rv, act[i].package_id@) matches Some(r) && r.0.contains(core_id()))
}

pub open spec fn not_vanilla(act: Seq<ModEntry>) -> spec_fn(int) -> bool {
    |i: int| !is_vanilla(act[i])
}

/// Where tier zero starts: known pre-Core mods and mods that load before Core.
pub open spec fn pre_core_seed(act: Seq<ModEntry>, rv: Option<Map<Seq<char>, RuleView>>) -> spec_fn(int) -> bool {
    |i: int| !is_vanilla(act[i]) && (tier_zero_mods().contains(act[i].package_id@) || loads_before_core(act, rv, i))
}

/// Tier zero: a non-vanilla mod that, through non-vanilla mods, must load
/// before a pre-Core mod.
pub open spec fn pre_core(act: Seq<ModEntry>, rv: Option<Map<Seq<char>, RuleView>>, i: int) -> bool {
    reaches(act.len() as int, precedes(act, rv), not_vanilla(act), pre_core_seed(act, rv), i)
}

pub open spec fn not_vanilla_or_pre_core(act: Seq<ModEntry>, rv: Option<Map<Seq<char>, RuleView>>) -> spec_fn(int) -> bool {
    |i: int| !is_vanilla(act[i]) && !pre_core(act, rv, i)
}

pub open spec fn load_top(rv: Option<Map<Seq<char>, RuleView>>, x: Seq<char>) -> bool {
    rule_of(rv, x) matches Some(r) && r.2
}

pub open spec fn load_bottom(rv: Option<Map<Seq<char>, RuleView>>, x: Seq<char>) -> bool {
    rule_of(rv, x) matches Some(r) && r.3
}

/// Where the frameworks start: known frameworks and loadTop mods.
pub open spec fn framework_seed(act: Seq<ModEntry>, rv: Option<Map<Seq<char>, RuleView>>) -> spec_fn(int) -> bool {
    |i: int| !is_vanilla(act[i]) && !pre_core(act, rv, i)
        && (tier_one_mods().contains(act[i].package_id@) || load_top(rv, act[i].package_id@))
}

/// Frameworks: mods that, through mods of their kind, must load before a
/// known framework or a loadTop mod.
pub open spec fn framework(act: Seq<ModEntry>, rv: Option<Map<Seq<char>, RuleView>>, i: int) -> bool {
    reaches(act.len() as int, precedes(act, rv), not_vanilla_or_pre_core(act, rv), framework_seed(act, rv), i)
}

pub open spec fn bottom_seed(act: Seq<ModEntry>, rv: Option<Map<Seq<char>, RuleView>>) -> spec_fn(int) -> bool {
    |i: int| !is_vanilla(act[i]) && (tier_three_mods().contains(act[i].package_id@) || load_bottom(rv, act[i].package_id@))
}

/// The last tier: non-vanilla mods that must load after a loadBottom mod.
pub open spec fn load_last(act: Seq<ModEntry>, rv: Option<Map<Seq<char>, RuleView>>, i: int) -> bool {
    reaches(act.len() as int, follows(act, rv), not_vanilla(act), bottom_seed(act, rv), i)
}

/// The (tier, sub-tier) of mod `i`: pre-Core, Core, DLCs by release,
/// frameworks, the rest, load-last.
pub open spec fn tier(act: Seq<ModEntry>, rv: Option<Map<Seq<char>, RuleView>>, i: int) -> (int, int) {
    if pre_core(act, rv, i) {
        (0, 0)
    } else {
        match act[i].source {
            ModSource::Core => (1, 0),
            ModSource::DLC(_) => (2, dlc_index(act[i].package_id@)),
            _ => if framework(act, rv, i) {
                (3, 0)
            } else if load_last(act, rv, i) {
                (5, 0)
            } else {
                (4, 0)
            },
        }
    }
}

/// The order of priority: tier, sub-tier, lowercased name, then position.
pub open spec fn key_lt(act: Seq<ModEntry>, rv: Option<Map<Seq<char>, RuleView>>, i: int, j: int) -> bool {
    let (ti, si) = tier(act, rv, i);
    let (tj, sj) = tier(act, rv, j);
    let ni = lowercase(act[i].name@);
    let nj = lowercase(act[j].name@);
    ||| ti < tj
    ||| (ti == tj && si < sj)
    ||| (ti == tj && si == sj && seq_lt(ni, nj))
    ||| (ti == tj && si == sj && ni == nj && i < j)
}

/// Mod `i` can go next after the mods of `placed`: all that must load
/// before it are placed.
pub open spec fn ready(act: Seq<ModEntry>, rv: Option<Map<Seq<char>, RuleView>>, placed: Seq<int>, i: int) -> bool {
    &&& 0 <= i < act.len()
    &&& !placed.contains(i)
    &&& forall|a: int| #[trigger] must_precede(act, rv, a, i) ==> placed.contains(a)
}

/// `out` is the order of Kahn's algorithm over `must_precede` that always
/// takes the ready mod first in [`key_lt`] order; the mods that cycles keep
/// from ever being ready follow, in [`key_lt`] order.
pub open spec fn kahn_order(act: Seq<ModEntry>, rv: Option<Map<Seq<char>, RuleView>>, out: Seq<int>) -> bool {
    exists|p: int| kahn_split(act, rv, out, p)
}

/// [`kahn_order`] with the length `p` of its acyclic part.
pub open spec fn kahn_split(act: Seq<ModEntry>, rv: Option<Map<Seq<char>, RuleView>>, out: Seq<int>, p: int) -> bool {
    &&& 0 <= p <= out.len()
    &&& out.len() == act.len()
    &&& out.no_duplicates()
    &&& forall|k: int| 0 <= k < out.len() ==> 0 <= #[trigger] out[k] < act.len()
    &&& forall|k: int| 0 <= k < p ==> #[trigger] ready(act, rv, out.take(k), out[k])
    &&& forall|k: int, j: int| 0 <= k < p && #[trigger] ready(act, rv, out.take(k), j) ==> !key_lt(act, rv, j, #[trigger] out[k])
    &&& forall|j: int| !#[trigger] ready(act, rv, out.take(p), j)
    &&& forall|k: int, l: int| p <= k < l < out.len() ==> key_lt(act, rv, #[trigger] out[k], #[trigger] out[l])
}

pub proof fn lemma_key_lt_order(act: Seq<ModEntry>, rv: Option<Map<Seq<char>, RuleView>>, i: int, j: int, k: int)
    ensures
        !key_lt(act, rv, i, i),
        i != j ==> (key_lt(act, rv, i, j) || key_lt(act, rv, j, i)),
        !(key_lt(act, rv, i, j) && key_lt(act, rv, j, i)),
        key_lt(act, rv, i, j) && key_lt(act, rv, j, k) ==> key_lt(act, rv, i, k),
{
    let ni = lowercase(act[i].name@);
    let nj = lowercase(act[j].name@);
    let nk = lowercase(act[k].name@);
    lemma_seq_lt_irreflexive(ni);
    lemma_seq_lt_total(ni, nj);
    lemma_seq_lt_total(nj, nk);
    lemma_seq_lt_total(ni, nk);
    if seq_lt(ni, nj) && seq_lt(nj, nk) {
        lemma_seq_lt_transitive(ni, nj, nk);
    }
}

// ── Marking closures ────────────────────────────────────────────────────────

/// How many flags are set.
pub open spec fn count_true(s: Seq<bool>) -> nat
    decreases s.len(),
{
    if s.len() == 0 {
        0
    } else {
        count_true(s.drop_last()) + if s.last() { 1nat } else { 0nat }
    }
}

proof fn lemma_count_bound(s: Seq<bool>)
    ensures
        count_true(s) <= s.len(),
        (forall|i: int| 0 <= i < s.len() ==> #[trigger] s[i]) ==> count_true(s) == s.len(),
    decreases s.len(),
{
    if s.len() > 0 {
        lemma_count_bound(s.drop_last());
        if forall|i: int| 0 <= i < s.len() ==> #[trigger] s[i] {
            assert forall|i: int| 0 <= i < s.drop_last().len() implies #[trigger] s.drop_last()[i] by {
                assert(s[i]);
            }
            assert(s[s.len() - 1]);
        }
    }
}

proof fn lemma_count_set(s: Seq<bool>, i: int)
    requires
        0 <= i < s.len(),
        !s[i],
    ensures
        count_true(s.update(i, true)) == count_true(s) + 1,
    decreases s.len(),
{
    if i < s.len() - 1 {
        assert(s.update(i, true).drop_last() =~= s.drop_last().update(i, true));
        lemma_count_set(s.drop_last(), i);
    } else {
        assert(s.update(i, true).drop_last() =~= s.drop_last());
    }
}

/// Everything reachable from a marked node's list is marked, so every
/// node with a path to a seed is marked.
proof fn lemma_closed_marks_paths(
    lists: Seq<Vec<usize>>,
    marks: Seq<bool>,
    step: spec_fn(int, int) -> bool,
    ok: spec_fn(int) -> bool,
    seed: spec_fn(int) -> bool,
    p: Seq<int>,
)
    requires
        lists.len() == marks.len(),
        forall|a: int, b: int| 0 <= a < lists.len() && 0 <= b < lists.len() ==>
            (lists[b]@.contains(a as usize) <==> #[trigger] step(a, b)),
        forall|i: int| 0 <= i < marks.len() && #[trigger] seed(i) ==> marks[i],
        forall|x: int, a: int| 0 <= x < marks.len() && 0 <= a < marks.len() && marks[x] && #[trigger] step(a, x) && ok(a) ==> #[trigger] marks[a],
        path_to(marks.len() as int, step, ok, seed, p),
    ensures
        marks[p[0]],
    decreases p.len(),
{
    if p.len() > 1 {
        let q = p.drop_first();
        assert(path_to(marks.len() as int, step, ok, seed, q)) by {
            assert forall|k: int| 0 <= k < q.len() - 1 implies step(#[trigger] q[k], q[k + 1]) by {
                assert(step(p[k + 1], p[k + 2]));
            }
            assert forall|k: int| 0 <= k < q.len() implies 0 <= #[trigger] q[k] < marks.len() && ok(q[k]) by {
                assert(0 <= p[k + 1] < marks.len() && ok(p[k + 1]));
            }
        }
        lemma_closed_marks_paths(lists, marks, step, ok, seed, q);
        assert(step(p[0], p[1]));
        assert(0 <= p[0] < marks.len() && ok(p[0]));
    }
}

/// Nodes with a path to a seed are marked: every marked node is reached.
pub open spec fn sound_marks(
    marks: Seq<bool>,
    step: spec_fn(int, int) -> bool,
    ok: spec_fn(int) -> bool,
    seed: spec_fn(int) -> bool,
) -> bool {
    forall|i: int| 0 <= i < marks.len() && #[trigger] marks[i] ==> reaches(marks.len() as int, step, ok, seed, i)
}

/// Marks the unmarked `ok` nodes of `lists[x]`.
fn mark_list(
    lists: &Vec<Vec<usize>>,
    ok: &Vec<bool>,
    marks: &mut Vec<bool>,
    count: &mut usize,
    x: usize,
    Ghost(step): Ghost<spec_fn(int, int) -> bool>,
    Ghost(okf): Ghost<spec_fn(int) -> bool>,
    Ghost(seedf): Ghost<spec_fn(int) -> bool>,
)
    requires
        lists.len() == ok.len(),
        old(marks).len() == ok.len(),
        x < ok.len(),
        old(marks)@[x as int],
        *old(count) == count_true(old(marks)@),
        forall|b: int, j: int| 0 <= b < lists.len() && 0 <= j < lists[b]@.len() ==> #[trigger] lists[b]@[j] < lists.len(),
        forall|a: int, b: int| 0 <= a < lists.len() && 0 <= b < lists.len() ==>
            (lists[b]@.contains(a as usize) <==> #[trigger] step(a, b)),
        forall|i: int| 0 <= i < ok.len() ==> #[trigger] ok@[i] == okf(i),
        sound_marks(old(marks)@, step, okf, seedf),
    ensures
        final(marks).len() == ok.len(),
        *final(count) == count_true(final(marks)@),
        *final(count) >= *old(count),
        *final(count) == *old(count) ==> final(marks)@ == old(marks)@,
        sound_marks(final(marks)@, step, okf, seedf),
        forall|i: int| 0 <= i < ok.len() && #[trigger] old(marks)@[i] ==> final(marks)@[i],
        forall|a: int| 0 <= a < ok.len() && #[trigger] step(a, x as int) && okf(a) ==> final(marks)@[a],
{
    let n = ok.len();
    let ghost nn = n as int;
    let preds = &lists[x];
    let ghost xi = x as int;
    let ghost m0 = marks@;
    let ghost c0 = *count as int;
    proof {
        lemma_count_bound(marks@);
    }
    for j in 0..preds.len()
        invariant
            n == ok.len(),
            nn == n,
            xi == x,
            marks.len() == n,
            m0.len() == n,
            *count == count_true(marks@),
            *count <= n,
            *count >= c0,
            *count == c0 ==> marks@ == m0,
            sound_marks(marks@, step, okf, seedf),
            marks@[xi],
            forall|i: int| 0 <= i < n && #[trigger] m0[i] ==> marks@[i],
            forall|t: int| 0 <= t < j ==> (okf(preds@[t] as int) ==> #[trigger] marks@[preds@[t] as int]),
    {
        let a = preds[j];
        proof {
            assert(lists[xi]@[j as int] == a);
        }
        if ok[a] && !marks[a] {
            proof {
                lemma_count_set(marks@, a as int);
                lemma_count_bound(marks@.update(a as int, true));
                let q = choose|q: Seq<int>| #[trigger] path_to(nn, step, okf, seedf, q) && q[0] == xi;
                let p = seq![a as int] + q;
                assert(lists[xi]@.contains(a));
                assert(step(a as int, xi));
                assert(path_to(nn, step, okf, seedf, p)) by {
                    assert forall|k: int| 0 <= k < p.len() - 1 implies step(#[trigger] p[k], p[k + 1]) by {
                        if k > 0 {
                            assert(p[k] == q[k - 1] && p[k + 1] == q[k]);
                        }
                    }
                    assert forall|k: int| 0 <= k < p.len() implies 0 <= #[trigger] p[k] < nn && okf(p[k]) by {
                        if k > 0 {
                            assert(p[k] == q[k - 1]);
                        }
                    }
                    assert(p.last() == q.last());
                }
                assert(p[0] == a);
            }
            marks.set(a, true);
            *count = *count + 1;
        }
    }
    proof {
        assert forall|a: int| 0 <= a < n && #[trigger] step(a, xi) && okf(a) implies marks@[a] by {
            assert(lists[xi]@.contains(a as usize));
            let t = choose|t: int| 0 <= t < preds@.len() && preds@[t] == a as usize;
            assert(okf(preds@[t] as int));
        }
    }
}

/// Marks every node that has a path to a seed: `lists[b]` holds the nodes
/// `a` with `step(a, b)`, and paths only go through `ok` nodes.
fn close_over(
    lists: &Vec<Vec<usize>>,
    ok: &Vec<bool>,
    seeds: Vec<bool>,
    Ghost(step): Ghost<spec_fn(int, int) -> bool>,
    Ghost(okf): Ghost<spec_fn(int) -> bool>,
    Ghost(seedf): Ghost<spec_fn(int) -> bool>,
) -> (r: Vec<bool>)
    requires
        lists.len() == ok.len(),
        seeds.len() == ok.len(),
        forall|b: int, j: int| 0 <= b < lists.len() && 0 <= j < lists[b]@.len() ==> #[trigger] lists[b]@[j] < lists.len(),
        forall|a: int, b: int| 0 <= a < lists.len() && 0 <= b < lists.len() ==>
            (lists[b]@.contains(a as usize) <==> #[trigger] step(a, b)),
        forall|i: int| 0 <= i < ok.len() ==> #[trigger] ok@[i] == okf(i),
        forall|i: int| 0 <= i < seeds.len() ==> #[trigger] seeds@[i] == seedf(i),
        forall|i: int| 0 <= i < seeds.len() && #[trigger] seedf(i) ==> okf(i),
    ensures
        r.len() == ok.len(),
        forall|i: int| 0 <= i < r.len() ==> #[trigger] r@[i] == reaches(ok.len() as int, step, okf, seedf, i),
{
    let n = ok.len();
    let ghost nn = n as int;
    let mut marks = seeds;
    let mut count: usize = 0;
    proof {
        assert(count_true(marks@.take(0)) == 0);
    }
    for i in 0..n
        invariant
            marks.len() == n,
            marks@ == seeds@,
            count == count_true(marks@.take(i as int)),
            count <= i,
    {
        proof {
            assert(marks@.take(i + 1).drop_last() == marks@.take(i as int));
        }
        if marks[i] {
            count = count + 1;
        }
    }
    proof {
        assert(marks@.take(n as int) == marks@);
        assert forall|i: int| 0 <= i < n && #[trigger] marks@[i] implies reaches(nn, step, okf, seedf, i) by {
            let p = seq![i];
            assert(path_to(nn, step, okf, seedf, p));
        }
    }
    loop
        invariant
            n == ok.len(),
            nn == n,
            marks.len() == n,
            count == count_true(marks@),
            sound_marks(marks@, step, okf, seedf),
            forall|i: int| 0 <= i < n && #[trigger] seedf(i) ==> marks@[i],
        decreases n - count,
    {
        proof {
            lemma_count_bound(marks@);
        }
        let ghost m_start = marks@;
        let c_start = count;
        for x in 0..n
            invariant
                n == ok.len(),
                nn == n,
                marks.len() == n,
                count == count_true(marks@),
                count >= c_start,
                sound_marks(marks@, step, okf, seedf),
                forall|i: int| 0 <= i < n && #[trigger] m_start[i] ==> marks@[i],
                count == c_start ==> marks@ == m_start,
                count == c_start ==> forall|y: int, a: int| 0 <= y < x && 0 <= a < n && m_start[y]
                    && #[trigger] step(a, y) && okf(a) ==> #[trigger] m_start[a],
        {
            if marks[x] {
                let ghost m_before = marks@;
                let ghost c_before = count;
                mark_list(lists, ok, &mut marks, &mut count, x, Ghost(step), Ghost(okf), Ghost(seedf));
                proof {
                    assert forall|i: int| 0 <= i < n && #[trigger] m_start[i] implies marks@[i] by {
                        assert(m_before[i]);
                    }
                }
            }
        }
        proof {
            lemma_count_bound(marks@);
        }
        if count == c_start {
            proof {
                assert forall|i: int| 0 <= i < n implies #[trigger] marks@[i] == reaches(nn, step, okf, seedf, i) by {
                    if reaches(nn, step, okf, seedf, i) {
                        let p = choose|p: Seq<int>| #[trigger] path_to(nn, step, okf, seedf, p) && p[0] == i;
                        lemma_closed_marks_paths(lists@, marks@, step, okf, seedf, p);
                    }
                }
            }
            return marks;
        }
    }
}

// ── The graph ───────────────────────────────────────────────────────────────

/// The entries behind references.
pub open spec fn unref(s: Seq<&ModEntry>) -> Seq<ModEntry> {
    s.map_values(|e: &ModEntry| *e)
}

/// The mods' packageIds are distinct.
pub open spec fn distinct_ids(act: Seq<ModEntry>) -> bool {
    forall|i: int, j: int| 0 <= i < act.len() && 0 <= j < act.len() && i != j ==>
        #[trigger] act[i].package_id@ != #[trigger] act[j].package_id@
}

/// The mod with packageId `name`.
fn find_local(act: &Vec<&ModEntry>, name: &str) -> (r: Option<usize>)
    ensures
        match r {
            Some(a) => a < act.len() && act@[a as int].package_id@ == name@,
            None => forall|a: int| 0 <= a < act.len() ==> #[trigger] act@[a].package_id@ != name@,
        },
{
    for a in 0..act.len()
        invariant
            forall|t: int| 0 <= t < a ==> #[trigger] act@[t].package_id@ != name@,
    {
        if str_eq(act[a].package_id.as_str(), name) {
            return Some(a);
        }
    }
    None
}

/// The positions of the mods named in `names`.
fn locals_of_ids(act: &Vec<&ModEntry>, names: &Vec<ModId>) -> (r: Vec<usize>)
    requires
        distinct_ids(unref(act@)),
    ensures
        forall|k: int| 0 <= k < r@.len() ==> #[trigger] r@[k] < act.len(),
        forall|a: int| 0 <= a < act.len() ==> (r@.contains(a as usize) <==> names.deep_view().contains(#[trigger] act@[a].package_id@)),
{
    let mut out: Vec<usize> = Vec::new();
    for j in 0..names.len()
        invariant
            distinct_ids(unref(act@)),
            forall|k: int| 0 <= k < out@.len() ==> #[trigger] out@[k] < act.len(),
            forall|a: int| 0 <= a < act.len() ==> (out@.contains(a as usize) <==> names.deep_view().take(j as int).contains(#[trigger] act@[a].package_id@)),
    {
        let ghost before = out@;
        match find_local(act, names[j].as_str()) {
            Some(a) => {
                out.push(a);
                proof {
                    assert(unref(act@)[a as int] == *act@[a as int]);
                    assert forall|b: int| 0 <= b < act.len() implies (out@.contains(b as usize) <==> names.deep_view().take(j + 1).contains(#[trigger] act@[b].package_id@)) by {
                        assert(names.deep_view().take(j + 1) == names.deep_view().take(j as int).push(names[j as int]@));
                        if b != a {
                            assert(unref(act@)[b] == *act@[b]);
                            if out@.contains(b as usize) {
                                let t = choose|t: int| 0 <= t < out@.len() && out@[t] == b as usize;
                                assert(before[t] == b as usize);
                            }
                            if before.contains(b as usize) {
                                let t = choose|t: int| 0 <= t < before.len() && before[t] == b as usize;
                                assert(out@[t] == b as usize);
                            }
                        } else {
                            assert(out@[out@.len() - 1] == a);
                        }
                    }
                }
            },
            None => {
                proof {
                    assert forall|b: int| 0 <= b < act.len() implies (out@.contains(b as usize) <==> names.deep_view().take(j + 1).contains(#[trigger] act@[b].package_id@)) by {
                        assert(names.deep_view().take(j + 1) == names.deep_view().take(j as int).push(names[j as int]@));
                    }
                }
            },
        }
    }
    assert(names.deep_view().take(names.len() as int) == names.deep_view());
    out
}

/// The positions of the mods named in `names` (identifiers as text).
fn locals_of_strs(act: &Vec<&ModEntry>, names: &Vec<String>) -> (r: Vec<usize>)
    requires
        distinct_ids(unref(act@)),
    ensures
        forall|k: int| 0 <= k < r@.len() ==> #[trigger] r@[k] < act.len(),
        forall|a: int| 0 <= a < act.len() ==> (r@.contains(a as usize) <==> names.deep_view().contains(#[trigger] act@[a].package_id@)),
{
    let mut out: Vec<usize> = Vec::new();
    for j in 0..names.len()
        invariant
            distinct_ids(unref(act@)),
            forall|k: int| 0 <= k < out@.len() ==> #[trigger] out@[k] < act.len(),
            forall|a: int| 0 <= a < act.len() ==> (out@.contains(a as usize) <==> names.deep_view().take(j as int).contains(#[trigger] act@[a].package_id@)),
    {
        let ghost before = out@;
        match find_local(act, names[j].as_str()) {
            Some(a) => {
                out.push(a);
                proof {
                    assert(unref(act@)[a as int] == *act@[a as int]);
                    assert forall|b: int| 0 <= b < act.len() implies (out@.contains(b as usize) <==> names.deep_view().take(j + 1).contains(#[trigger] act@[b].package_id@)) by {
                        assert(names.deep_view().take(j + 1) == names.deep_view().take(j as int).push(names[j as int]@));
                        if b != a {
                            assert(unref(act@)[b] == *act@[b]);
                            if out@.contains(b as usize) {
                                let t = choose|t: int| 0 <= t < out@.len() && out@[t] == b as usize;
                                assert(before[t] == b as usize);
                            }
                            if before.contains(b as usize) {
                                let t = choose|t: int| 0 <= t < before.len() && before[t] == b as usize;
                                assert(out@[t] == b as usize);
                            }
                        } else {
                            assert(out@[out@.len() - 1] == a);
                        }
                    }
                }
            },
            None => {
                proof {
                    assert forall|b: int| 0 <= b < act.len() implies (out@.contains(b as usize) <==> names.deep_view().take(j + 1).contains(#[trigger] act@[b].package_id@)) by {
                        assert(names.deep_view().take(j + 1) == names.deep_view().take(j as int).push(names[j as int]@));
                    }
                }
            },
        }
    }
    assert(names.deep_view().take(names.len() as int) == names.deep_view());
    out
}

/// The community rule of packageId `id`, if rules are in use.
fn rule_for<'a>(rules: Option<&'a CommunityRules>, id: &ModId) -> (r: Option<&'a ModRule>)
    ensures
        match r {
            Some(rule) => rule_of(rules_view(rules), id@) == Some(rule@),
            None => rule_of(rules_view(rules), id@).is_none(),
        },
{
    match rules {
        Some(db) => db.get(id),
        None => None,
    }
}

/// Mod `k`'s own lists put `a` before `b`.
pub open spec fn stated_by(act: Seq<ModEntry>, rv: Option<Map<Seq<char>, RuleView>>, k: int, a: int, b: int) -> bool {
    &&& a != b
    &&& ((b == k && wants_after(act, rv, b, a)) || (a == k && wants_before(act, rv, a, b)))
}

pub open spec fn stated_before(act: Seq<ModEntry>, rv: Option<Map<Seq<char>, RuleView>>, m: int, a: int, b: int) -> bool {
    exists|k: int| 0 <= k < m && #[trigger] stated_by(act, rv, k, a, b)
}

/// Appends `(a, idx)` for each `a` of `locs` but `idx` itself.
fn push_incoming(edges: &mut Vec<(usize, usize)>, locs: &Vec<usize>, idx: usize)
    ensures
        forall|a: usize, b: usize| #[trigger] final(edges)@.contains((a, b)) <==>
            (old(edges)@.contains((a, b)) || (b == idx && a != idx && locs@.contains(a))),
{
    let ghost e0 = edges@;
    for j in 0..locs.len()
        invariant
            e0 == old(edges)@,
            forall|a: usize, b: usize| #[trigger] edges@.contains((a, b)) <==>
                (e0.contains((a, b)) || (b == idx && a != idx && locs@.take(j as int).contains(a))),
    {
        let ghost before = edges@;
        if locs[j] != idx {
            edges.push((locs[j], idx));
        }
        proof {
            assert(locs@.take(j + 1) == locs@.take(j as int).push(locs@[j as int]));
            assert forall|a: usize, b: usize| #[trigger] edges@.contains((a, b)) <==>
                (e0.contains((a, b)) || (b == idx && a != idx && locs@.take(j + 1).contains(a))) by {
                if edges@.contains((a, b)) && !before.contains((a, b)) {
                    assert(edges@[edges@.len() - 1] == (a, b));
                }
                if before.contains((a, b)) {
                    let t = choose|t: int| 0 <= t < before.len() && before[t] == (a, b);
                    assert(edges@[t] == (a, b));
                }
                if b == idx && a != idx && a == locs@[j as int] {
                    assert(edges@[edges@.len() - 1] == (a, b));
                }
                if edges@.contains((a, b)) && edges@.len() > before.len() {
                    let t = choose|t: int| 0 <= t < edges@.len() && edges@[t] == (a, b);
                    if t < before.len() {
                        assert(before[t] == (a, b));
                    }
                }
            }
        }
    }
    assert(locs@.take(locs.len() as int) == locs@);
}

/// Appends `(idx, b)` for each `b` of `locs` but `idx` itself.
fn push_outgoing(edges: &mut Vec<(usize, usize)>, locs: &Vec<usize>, idx: usize)
    ensures
        forall|a: usize, b: usize| #[trigger] final(edges)@.contains((a, b)) <==>
            (old(edges)@.contains((a, b)) || (a == idx && b != idx && locs@.contains(b))),
{
    let ghost e0 = edges@;
    for j in 0..locs.len()
        invariant
            e0 == old(edges)@,
            forall|a: usize, b: usize| #[trigger] edges@.contains((a, b)) <==>
                (e0.contains((a, b)) || (a == idx && b != idx && locs@.take(j as int).contains(b))),
    {
        let ghost before = edges@;
        if locs[j] != idx {
            edges.push((idx, locs[j]));
        }
        proof {
            assert(locs@.take(j + 1) == locs@.take(j as int).push(locs@[j as int]));
            assert forall|a: usize, b: usize| #[trigger] edges@.contains((a, b)) <==>
                (e0.contains((a, b)) || (a == idx && b != idx && locs@.take(j + 1).contains(b))) by {
                if edges@.contains((a, b)) && !before.contains((a, b)) {
                    assert(edges@[edges@.len() - 1] == (a, b));
                }
                if before.contains((a, b)) {
                    let t = choose|t: int| 0 <= t < before.len() && before[t] == (a, b);
                    assert(edges@[t] == (a, b));
                }
                if a == idx && b != idx && b == locs@[j as int] {
                    assert(edges@[edges@.len() - 1] == (a, b));
                }
                if edges@.contains((a, b)) && edges@.len() > before.len() {
                    let t = choose|t: int| 0 <= t < edges@.len() && edges@[t] == (a, b);
                    if t < before.len() {
                        assert(before[t] == (a, b));
                    }
                }
            }
        }
    }
    assert(locs@.take(locs.len() as int) == locs@);
}

/// The pairs `(a, b)` of mods where `a` must load before `b`.
#[verifier::spinoff_prover]
#[verifier::rlimit(80)]
fn collect_edges(act: &Vec<&ModEntry>, rules: Option<&CommunityRules>) -> (r: Vec<(usize, usize)>)
    requires
        distinct_ids(unref(act@)),
    ensures
        forall|a: usize, b: usize| #[trigger] r@.contains((a, b)) <==> must_precede(unref(act@), rules_view(rules), a as int, b as int),
{
    let ghost ua = unref(act@);
    let ghost rv = rules_view(rules);
    let n = act.len();
    let mut edges: Vec<(usize, usize)> = Vec::new();
    for idx in 0..n
        invariant
            n == act.len(),
            ua == unref(act@),
            rv == rules_view(rules),
            distinct_ids(ua),
            forall|a: usize, b: usize| #[trigger] edges@.contains((a, b)) <==>
                (a < n && b < n && stated_before(ua, rv, idx as int, a as int, b as int)),
    {
        let m = act[idx];
        let ghost e0 = edges@;
        let la = locals_of_ids(act, &m.load_after);
        push_incoming(&mut edges, &la, idx);
        let dp = locals_of_ids(act, &m.dependencies);
        push_incoming(&mut edges, &dp, idx);
        let lb = locals_of_ids(act, &m.load_before);
        push_outgoing(&mut edges, &lb, idx);
        let ghost e1 = edges@;
        let rule = rule_for(rules, &m.package_id);
        let mut ra: Vec<usize> = Vec::new();
        let mut rb: Vec<usize> = Vec::new();
        match rule {
            Some(r) => {
                ra = locals_of_strs(act, &r.load_after);
                rb = locals_of_strs(act, &r.load_before);
            },
            None => {},
        }
        push_incoming(&mut edges, &ra, idx);
        push_outgoing(&mut edges, &rb, idx);
        proof {
            assert(ua[idx as int] == *m);
            assert forall|a: usize, b: usize| #[trigger] edges@.contains((a, b)) <==>
                (a < n && b < n && stated_before(ua, rv, idx + 1, a as int, b as int)) by {
                if a < n && b < n {
                    assert(ua[a as int] == *act@[a as int]);
                    assert(ua[b as int] == *act@[b as int]);
                    let ai = a as int;
                    let bi = b as int;
                    if stated_before(ua, rv, idx + 1, ai, bi) {
                        let k = choose|k: int| 0 <= k < idx + 1 && #[trigger] stated_by(ua, rv, k, ai, bi);
                        if k < idx {
                            assert(stated_before(ua, rv, idx as int, ai, bi));
                        }
                    }
                    if stated_by(ua, rv, idx as int, ai, bi) {
                        assert(stated_before(ua, rv, idx + 1, ai, bi));
                    }
                    if stated_before(ua, rv, idx as int, ai, bi) {
                        let k = choose|k: int| 0 <= k < idx && #[trigger] stated_by(ua, rv, k, ai, bi);
                        assert(stated_by(ua, rv, k, ai, bi));
                        assert(stated_before(ua, rv, idx + 1, ai, bi));
                    }
                }
            }
        }
    }
    proof {
        assert forall|a: usize, b: usize| #[trigger] edges@.contains((a, b)) <==> must_precede(ua, rv, a as int, b as int) by {
            let ai = a as int;
            let bi = b as int;
            if must_precede(ua, rv, ai, bi) {
                if wants_after(ua, rv, bi, ai) {
                    assert(stated_by(ua, rv, bi, ai, bi));
                } else {
                    assert(stated_by(ua, rv, ai, ai, bi));
                }
            }
            if a < n && b < n && stated_before(ua, rv, n as int, ai, bi) {
                let k = choose|k: int| 0 <= k < n && #[trigger] stated_by(ua, rv, k, ai, bi);
            }
        }
    }
    edges
}

/// For each mod `b`, the mods `a` with `(a, b)` among the pairs (or, going
/// `forward`, those with `(b, a)`).
fn rows_of(edges: &Vec<(usize, usize)>, n: usize, forward: bool) -> (r: Vec<Vec<usize>>)
    requires
        forall|a: usize, b: usize| #[trigger] edges@.contains((a, b)) ==> a < n && b < n,
    ensures
        r.len() == n,
        forall|b: int, j: int| 0 <= b < r.len() && 0 <= j < r[b]@.len() ==> #[trigger] r[b]@[j] < n,
        forall|a: int, b: int| 0 <= a < n && 0 <= b < n ==> (#[trigger] r[b]@.contains(a as usize) <==> (if forward {
            edges@.contains((b as usize, a as usize))
        } else {
            edges@.contains((a as usize, b as usize))
        })),
{
    let mut rows: Vec<Vec<usize>> = Vec::new();
    for b in 0..n
        invariant
            rows.len() == b,
            forall|bb: int, j: int| 0 <= bb < rows.len() && 0 <= j < rows[bb]@.len() ==> #[trigger] rows[bb]@[j] < n,
            forall|a: int, bb: int| 0 <= a < n && 0 <= bb < b ==> (#[trigger] rows[bb]@.contains(a as usize) <==> (if forward {
                edges@.contains((bb as usize, a as usize))
            } else {
                edges@.contains((a as usize, bb as usize))
            })),
    {
        let mut row: Vec<usize> = Vec::new();
        for t in 0..edges.len()
            invariant
                forall|j: int| 0 <= j < row@.len() ==> #[trigger] row@[j] < n,
                forall|a: int| 0 <= a < n ==> (#[trigger] row@.contains(a as usize) <==> (if forward {
                    edges@.take(t as int).contains((b as usize, a as usize))
                } else {
                    edges@.take(t as int).contains((a as usize, b as usize))
                })),
        {
            let e = edges[t];
            let ghost before = row@;
            proof {
                assert(edges@.take(t + 1) == edges@.take(t as int).push(e));
                assert(edges@.contains(e));
            }
            if forward {
                if e.0 == b {
                    row.push(e.1);
                }
            } else {
                if e.1 == b {
                    row.push(e.0);
                }
            }
            proof {
                assert forall|j: int| 0 <= j < row@.len() implies #[trigger] row@[j] < n by {
                    if j < before.len() {
                        assert(row@[j] == before[j]);
                    }
                }
                assert forall|a: int| 0 <= a < n implies (#[trigger] row@.contains(a as usize) <==> (if forward {
                    edges@.take(t + 1).contains((b as usize, a as usize))
                } else {
                    edges@.take(t + 1).contains((a as usize, b as usize))
                })) by {
                    if row@.contains(a as usize) && row@.len() > before.len() {
                        let j = choose|j: int| 0 <= j < row@.len() && row@[j] == a as usize;
                        if j < before.len() {
                            assert(before[j] == a as usize);
                        }
                    }
                    if before.contains(a as usize) {
                        let j = choose|j: int| 0 <= j < before.len() && before[j] == a as usize;
                        assert(row@[j] == a as usize);
                    }
                    if row@.len() > before.len() {
                        assert(row@[row@.len() - 1] == (if forward { e.1 } else { e.0 }));
                    }
                }
            }
        }
        proof {
            assert(edges@.take(edges.len() as int) == edges@);
        }
        rows.push(row);
    }
    rows
}

// ── Named lists ─────────────────────────────────────────────────────────────

pub open spec fn strs_view(s: Seq<&str>) -> Seq<Seq<char>> {
    s.map_values(|x: &str| x@)
}

/// Whether `id` is one of `list`.
fn listed(id: &ModId, list: &Vec<&str>) -> (r: bool)
    ensures
        r == strs_view(list@).contains(id@),
{
    for j in 0..list.len()
        invariant
            forall|t: int| 0 <= t < j ==> #[trigger] strs_view(list@)[t] != id@,
    {
        if str_eq(list[j], id.as_str()) {
            assert(strs_view(list@)[j as int] == id@);
            return true;
        }
    }
    false
}

/// Whether `id` is one of `list` (identifiers as text).
fn listed_str(id: &str, list: &Vec<String>) -> (r: bool)
    ensures
        r == list.deep_view().contains(id@),
{
    for j in 0..list.len()
        invariant
            forall|t: int| 0 <= t < j ==> #[trigger] list.deep_view()[t] != id@,
    {
        if str_eq(list[j].as_str(), id) {
            assert(list.deep_view()[j as int] == id@);
            return true;
        }
    }
    false
}

fn tier_zero_list() -> (r: Vec<&'static str>)
    ensures
        strs_view(r@) == tier_zero_mods(),
{
    let r = vec![
        "zetrith.prepatcher",
        "brrainz.harmony",
        "brrainz.visualexceptions",
        "fishery.core",
        "gottimeline.loadingprogress",
        "fastergameloading.core",
        "justincc.sitecore",
    ];
    assert(strs_view(r@) =~= tier_zero_mods());
    r
}

fn tier_one_list() -> (r: Vec<&'static str>)
    ensures
        strs_view(r@) == tier_one_mods(),
{
    let r = vec![
        "oskarpotocki.vanillafactionsexpanded.core",
        "vanillaexpanded.backgrounds",
        "unlimitedhugs.hugslib",
        "imranfish.xmlextensions",
        "smashphil.vehicleframework",
        "redmattis.betterprerequisites",
        "owlchemist.cherrypicker",
        "adaptive.storage.framework",
        "aoba.framework",
        "aoba.exosuit.framework",
        "ebsg.framework",
        "thesepeople.ritualattachableoutcomes",
        "ohno.asf.ab.local",
    ];
    assert(strs_view(r@) =~= tier_one_mods());
    r
}

fn tier_three_list() -> (r: Vec<&'static str>)
    ensures
        strs_view(r@) == tier_three_mods(),
{
    let r = vec!["krkr.rocketman"];
    assert(strs_view(r@) =~= tier_three_mods());
    r
}

fn dlc_list() -> (r: Vec<&'static str>)
    ensures
        strs_view(r@) == dlc_release_order(),
{
    let r = vec![
        "ludeon.rimworld.royalty",
        "ludeon.rimworld.ideology",
        "ludeon.rimworld.biotech",
        "ludeon.rimworld.anomaly",
        "ludeon.rimworld.odyssey",
    ];
    assert(strs_view(r@) =~= dlc_release_order());
    r
}

/// Position of a DLC in release order; 99 for an unknown one.
fn dlc_release_index(id: &ModId) -> (r: u8)
    ensures
        r as int == dlc_index(id@),
{
    let list = dlc_list();
    assert(dlc_release_order().len() == 5);
    for j in 0..list.len()
        invariant
            strs_view(list@) == dlc_release_order(),
            list@.len() == 5,
            forall|t: int| 0 <= t < j ==> #[trigger] dlc_release_order()[t] != id@,
    {
        if str_eq(list[j], id.as_str()) {
            assert(dlc_release_order()[j as int] == id@);
            return j as u8;
        }
    }
    99
}

/// Whether the mod asks to load before Core, itself or through its rule.
fn before_core(m: &ModEntry, rule: Option<&ModRule>) -> (r: bool)
    ensures
        r == (m.load_before.deep_view().contains(core_id())
            || (rule matches Some(x) && x@.0.contains(core_id()))),
{
    let core = "ludeon.rimworld";
    let mut hit = false;
    for j in 0..m.load_before.len()
        invariant
            hit == m.load_before.deep_view().take(j as int).contains(core_id()),
    {
        proof {
            assert(m.load_before.deep_view().take(j + 1) == m.load_before.deep_view().take(j as int).push(m.load_before[j as int]@));
        }
        if str_eq(m.load_before[j].as_str(), core) {
            hit = true;
        }
    }
    assert(m.load_before.deep_view().take(m.load_before.len() as int) == m.load_before.deep_view());
    if hit {
        return true;
    }
    match rule {
        Some(x) => listed_str(core, &x.load_before),
        None => false,
    }
}

// ── Tiers ───────────────────────────────────────────────────────────────────

/// The (tier, sub-tier) of every mod.
#[verifier::rlimit(40)]
fn compute_tiers(
    act: &Vec<&ModEntry>,
    rules: Option<&CommunityRules>,
    pred_rows: &Vec<Vec<usize>>,
    succ_rows: &Vec<Vec<usize>>,
) -> (r: Vec<(u8, u8)>)
    requires
        pred_rows.len() == act.len(),
        succ_rows.len() == act.len(),
        forall|b: int, j: int| 0 <= b < pred_rows.len() && 0 <= j < pred_rows[b]@.len() ==> #[trigger] pred_rows[b]@[j] < act.len(),
        forall|b: int, j: int| 0 <= b < succ_rows.len() && 0 <= j < succ_rows[b]@.len() ==> #[trigger] succ_rows[b]@[j] < act.len(),
        forall|a: int, b: int| 0 <= a < act.len() && 0 <= b < act.len() ==>
            (pred_rows[b]@.contains(a as usize) <==> #[trigger] precedes(unref(act@), rules_view(rules))(a, b)),
        forall|a: int, b: int| 0 <= a < act.len() && 0 <= b < act.len() ==>
            (succ_rows[b]@.contains(a as usize) <==> #[trigger] follows(unref(act@), rules_view(rules))(a, b)),
    ensures
        r.len() == act.len(),
        forall|i: int| 0 <= i < act.len() ==> (r@[i].0 as int, r@[i].1 as int) == #[trigger] tier(unref(act@), rules_view(rules), i),
{
    let ghost ua = unref(act@);
    let ghost rv = rules_view(rules);
    let n = act.len();
    let t0 = tier_zero_list();
    let t1 = tier_one_list();
    let t3 = tier_three_list();
    let mut ok0: Vec<bool> = Vec::new();
    let mut pre_seed: Vec<bool> = Vec::new();
    let mut bot_seed: Vec<bool> = Vec::new();
    for i in 0..n
        invariant
            ua == unref(act@),
            rv == rules_view(rules),
            n == act.len(),
            strs_view(t0@) == tier_zero_mods(),
            strs_view(t3@) == tier_three_mods(),
            ok0.len() == i,
            pre_seed.len() == i,
            bot_seed.len() == i,
            forall|k: int| 0 <= k < i ==> #[trigger] ok0@[k] == not_vanilla(ua)(k),
            forall|k: int| 0 <= k < i ==> #[trigger] pre_seed@[k] == pre_core_seed(ua, rv)(k),
            forall|k: int| 0 <= k < i ==> #[trigger] bot_seed@[k] == bottom_seed(ua, rv)(k),
    {
        let m = act[i];
        proof {
            assert(ua[i as int] == *m);
        }
        let van = m.is_vanilla();
        let rule = rule_for(rules, &m.package_id);
        ok0.push(!van);
        let zero = listed(&m.package_id, &t0);
        let early = before_core(m, rule);
        pre_seed.push(!van && (zero || early));
        let three = listed(&m.package_id, &t3);
        let bottom = match rule {
            Some(x) => x.load_bottom,
            None => false,
        };
        bot_seed.push(!van && (three || bottom));
    }
    let pre = close_over(pred_rows, &ok0, pre_seed, Ghost(precedes(ua, rv)), Ghost(not_vanilla(ua)), Ghost(pre_core_seed(ua, rv)));
    let bot = close_over(succ_rows, &ok0, bot_seed, Ghost(follows(ua, rv)), Ghost(not_vanilla(ua)), Ghost(bottom_seed(ua, rv)));
    let mut fw_ok: Vec<bool> = Vec::new();
    let mut fw_seed: Vec<bool> = Vec::new();
    for i in 0..n
        invariant
            ua == unref(act@),
            rv == rules_view(rules),
            n == act.len(),
            pre.len() == n,
            strs_view(t1@) == tier_one_mods(),
            forall|k: int| 0 <= k < n ==> #[trigger] pre@[k] == pre_core(ua, rv, k),
            fw_ok.len() == i,
            fw_seed.len() == i,
            forall|k: int| 0 <= k < i ==> #[trigger] fw_ok@[k] == not_vanilla_or_pre_core(ua, rv)(k),
            forall|k: int| 0 <= k < i ==> #[trigger] fw_seed@[k] == framework_seed(ua, rv)(k),
    {
        let m = act[i];
        proof {
            assert(ua[i as int] == *m);
        }
        let van = m.is_vanilla();
        let rule = rule_for(rules, &m.package_id);
        let okf = !van && !pre[i];
        fw_ok.push(okf);
        let one = listed(&m.package_id, &t1);
        let top = match rule {
            Some(x) => x.load_top,
            None => false,
        };
        fw_seed.push(okf && (one || top));
    }
    let fw = close_over(pred_rows, &fw_ok, fw_seed, Ghost(precedes(ua, rv)), Ghost(not_vanilla_or_pre_core(ua, rv)), Ghost(framework_seed(ua, rv)));
    let mut tiers: Vec<(u8, u8)> = Vec::new();
    for i in 0..n
        invariant
            ua == unref(act@),
            rv == rules_view(rules),
            n == act.len(),
            pre.len() == n,
            fw.len() == n,
            bot.len() == n,
            forall|k: int| 0 <= k < n ==> #[trigger] pre@[k] == pre_core(ua, rv, k),
            forall|k: int| 0 <= k < n ==> #[trigger] fw@[k] == framework(ua, rv, k),
            forall|k: int| 0 <= k < n ==> #[trigger] bot@[k] == load_last(ua, rv, k),
            tiers.len() == i,
            forall|k: int| 0 <= k < i ==> (tiers@[k].0 as int, tiers@[k].1 as int) == #[trigger] tier(ua, rv, k),
    {
        let m = act[i];
        proof {
            assert(ua[i as int] == *m);
        }
        let t: (u8, u8) = if pre[i] {
            (0, 0)
        } else {
            match m.source {
                ModSource::Core => (1, 0),
                ModSource::DLC(_) => (2, dlc_release_index(&m.package_id)),
                _ => if fw[i] {
                    (3, 0)
                } else if bot[i] {
                    (5, 0)
                } else {
                    (4, 0)
                },
            }
        };
        tiers.push(t);
    }
    tiers
}

// ── Kahn's algorithm ────────────────────────────────────────────────────────

pub open spec fn ints(s: Seq<usize>) -> Seq<int> {
    s.map_values(|i: usize| i as int)
}

/// The facts about the mods that the selection needs, computed.
spec fn keyed(
    act: Seq<ModEntry>,
    rv: Option<Map<Seq<char>, RuleView>>,
    rows: Seq<Vec<usize>>,
    tiers: Seq<(u8, u8)>,
    names: Seq<Vec<char>>,
) -> bool {
    &&& rows.len() == act.len()
    &&& tiers.len() == act.len()
    &&& names.len() == act.len()
    &&& forall|b: int, j: int| 0 <= b < rows.len() && 0 <= j < rows[b]@.len() ==> #[trigger] rows[b]@[j] < act.len()
    &&& forall|a: int, b: int| 0 <= a < act.len() && 0 <= b < act.len() ==>
        (rows[b]@.contains(a as usize) <==> #[trigger] must_precede(act, rv, a, b))
    &&& forall|i: int| 0 <= i < act.len() ==> (tiers[i].0 as int, tiers[i].1 as int) == #[trigger] tier(act, rv, i)
    &&& forall|i: int| 0 <= i < act.len() ==> #[trigger] names[i]@ == lowercase(act[i].name@)
}

/// Mod `i` comes before mod `j` in priority.
fn key_less(
    tiers: &Vec<(u8, u8)>,
    names: &Vec<Vec<char>>,
    i: usize,
    j: usize,
    Ghost(act): Ghost<Seq<ModEntry>>,
    Ghost(rv): Ghost<Option<Map<Seq<char>, RuleView>>>,
    Ghost(rows): Ghost<Seq<Vec<usize>>>,
) -> (r: bool)
    requires
        keyed(act, rv, rows, tiers@, names@),
        i < act.len(),
        j < act.len(),
    ensures
        r == key_lt(act, rv, i as int, j as int),
{
    let (ti, si) = tiers[i];
    let (tj, sj) = tiers[j];
    proof {
        assert((tiers@[i as int].0 as int, tiers@[i as int].1 as int) == tier(act, rv, i as int));
        assert((tiers@[j as int].0 as int, tiers@[j as int].1 as int) == tier(act, rv, j as int));
        assert(names@[i as int]@ == lowercase(act[i as int].name@));
        assert(names@[j as int]@ == lowercase(act[j as int].name@));
        lemma_seq_lt_total(names@[i as int]@, names@[j as int]@);
    }
    if ti != tj {
        ti < tj
    } else if si != sj {
        si < sj
    } else if lex_lt(&names[i], &names[j]) {
        true
    } else if lex_lt(&names[j], &names[i]) {
        false
    } else {
        i < j
    }
}

/// Whether all mods that must precede `i` are placed.
fn all_placed_before(rows: &Vec<Vec<usize>>, placed: &Vec<bool>, i: usize) -> (r: bool)
    requires
        i < rows.len(),
        placed.len() == rows.len(),
        forall|b: int, j: int| 0 <= b < rows.len() && 0 <= j < rows[b]@.len() ==> #[trigger] rows[b]@[j] < rows.len(),
    ensures
        r == (forall|a: usize| a < rows.len() && #[trigger] rows[i as int]@.contains(a) ==> placed@[a as int]),
{
    let row = &rows[i];
    for k in 0..row.len()
        invariant
            forall|t: int| 0 <= t < k ==> #[trigger] placed@[row@[t] as int],
    {
        let a = row[k];
        assert(rows[i as int]@[k as int] == a);
        if !placed[a] {
            assert(rows[i as int]@.contains(a));
            assert(a < rows.len());
            assert(!placed@[a as int]);
            return false;
        }
    }
    proof {
        assert forall|a: usize| a < rows.len() && #[trigger] rows[i as int]@.contains(a) implies placed@[a as int] by {
            let t = choose|t: int| 0 <= t < row@.len() && row@[t] == a;
            assert(placed@[row@[t] as int]);
        }
    }
    true
}

/// The mods in the order of [`kahn_order`].
#[verifier::rlimit(60)]
fn kahn(
    rows: &Vec<Vec<usize>>,
    tiers: &Vec<(u8, u8)>,
    names: &Vec<Vec<char>>,
    Ghost(act): Ghost<Seq<ModEntry>>,
    Ghost(rv): Ghost<Option<Map<Seq<char>, RuleView>>>,
) -> (r: Vec<usize>)
    requires
        keyed(act, rv, rows@, tiers@, names@),
    ensures
        kahn_order(act, rv, ints(r@)),
        forall|i: int| 0 <= i < act.len() ==> #[trigger] ints(r@).contains(i),
{
    let n = rows.len();
    let ghost rs = rows@;
    let mut placed: Vec<bool> = Vec::new();
    for i in 0..n
        invariant
            placed.len() == i,
            forall|k: int| 0 <= k < i ==> !#[trigger] placed@[k],
    {
        placed.push(false);
    }
    let mut out: Vec<usize> = Vec::new();
    proof {
        assert(count_true(placed@) == 0) by {
            lemma_count_zero(placed@);
        }
    }
    // Kahn's algorithm proper.
    loop
        invariant
            n == act.len(),
            rs == rows@,
            keyed(act, rv, rs, tiers@, names@),
            placed.len() == n,
            out.len() == count_true(placed@),
            ints(out@).no_duplicates(),
            forall|k: int| 0 <= k < out@.len() ==> #[trigger] out@[k] < n,
            forall|i: int| 0 <= i < n ==> (#[trigger] placed@[i] <==> ints(out@).contains(i)),
            forall|k: int| 0 <= k < out@.len() ==> #[trigger] ready(act, rv, ints(out@).take(k), ints(out@)[k]),
            forall|k: int, j: int| 0 <= k < out@.len() && #[trigger] ready(act, rv, ints(out@).take(k), j) ==> !key_lt(act, rv, j, #[trigger] ints(out@)[k]),
        decreases n - out.len(),
    {
        proof {
            lemma_count_bound(placed@);
        }
        let mut best: Option<usize> = None;
        for i in 0..n
            invariant
                n == act.len(),
                keyed(act, rv, rs, tiers@, names@),
                rs == rows@,
                placed.len() == n,
                forall|i: int| 0 <= i < n ==> (#[trigger] placed@[i] <==> ints(out@).contains(i)),
                match best {
                    Some(b) => b < i && ready(act, rv, ints(out@), b as int)
                        && forall|j: int| 0 <= j < i && #[trigger] ready(act, rv, ints(out@), j) ==> !key_lt(act, rv, j, b as int),
                    None => forall|j: int| 0 <= j < i ==> !#[trigger] ready(act, rv, ints(out@), j),
                },
        {
            if !placed[i] {
                let all = all_placed_before(rows, &placed, i);
                proof {
                    assert(all == ready(act, rv, ints(out@), i as int)) by {
                        if all {
                            assert forall|a: int| #[trigger] must_precede(act, rv, a, i as int) implies ints(out@).contains(a) by {
                                assert(rs[i as int]@.contains(a as usize));
                                assert(placed@[a]);
                            }
                        } else {
                            let a = choose|a: usize| a < rows.len() && #[trigger] rows[i as int]@.contains(a) && !placed@[a as int];
                            assert(must_precede(act, rv, a as int, i as int));
                        }
                    }
                }
                if all {
                    match best {
                        None => {
                            proof {
                                lemma_key_lt_order(act, rv, i as int, i as int, i as int);
                            }
                            best = Some(i);
                        },
                        Some(b) => {
                            if key_less(tiers, names, i, b, Ghost(act), Ghost(rv), Ghost(rs)) {
                                proof {
                                    assert forall|j: int| 0 <= j < i + 1 && #[trigger] ready(act, rv, ints(out@), j) implies !key_lt(act, rv, j, i as int) by {
                                        lemma_key_lt_order(act, rv, j, i as int, b as int);
                                        if j < i {
                                            assert(!key_lt(act, rv, j, b as int));
                                        }
                                    }
                                }
                                best = Some(i);
                            } else {
                                proof {
                                    lemma_key_lt_order(act, rv, i as int, b as int, b as int);
                                }
                            }
                        },
                    }
                }
            } else {
                proof {
                    assert(!ready(act, rv, ints(out@), i as int));
                }
            }
        }
        match best {
            None => {
                break;
            },
            Some(b) => {
                let ghost before = ints(out@);
                proof {
                    lemma_count_set(placed@, b as int);
                }
                out.push(b);
                placed.set(b, true);
                proof {
                    assert(ints(out@) =~= before.push(b as int));
                    assert(ints(out@).take(before.len() as int) =~= before);
                    lemma_push_fresh(before, b as int);
                    assert forall|k: int| 0 <= k < out@.len() implies #[trigger] ready(act, rv, ints(out@).take(k), ints(out@)[k]) by {
                        if k < before.len() {
                            assert(ints(out@).take(k) =~= before.take(k));
                        }
                    }
                    assert forall|k: int, j: int| 0 <= k < out@.len() && #[trigger] ready(act, rv, ints(out@).take(k), j) implies !key_lt(act, rv, j, #[trigger] ints(out@)[k]) by {
                        if k < before.len() {
                            assert(ints(out@).take(k) =~= before.take(k));
                            assert(ready(act, rv, before.take(k), j));
                        } else {
                            assert(ints(out@).take(k) =~= before);
                        }
                    }
                    assert forall|i: int| 0 <= i < n implies (#[trigger] placed@[i] <==> ints(out@).contains(i)) by {
                        if i != b {
                            if ints(out@).contains(i) {
                                let t = choose|t: int| 0 <= t < ints(out@).len() && ints(out@)[t] == i;
                                assert(before[t] == i);
                            }
                            if before.contains(i) {
                                let t = choose|t: int| 0 <= t < before.len() && before[t] == i;
                                assert(ints(out@)[t] == i);
                            }
                        } else {
                            assert(ints(out@)[before.len() as int] == i);
                        }
                    }
                    assert forall|k: int| 0 <= k < out@.len() implies #[trigger] out@[k] < n by {
                        if k < before.len() {
                            assert(ints(out@)[k] == before[k]);
                        }
                    }
                    lemma_count_bound(placed@);
                }
            },
        }
    }
    let ghost p = out@.len() as int;
    let ghost prefix = ints(out@);
    // What cycles hold back, by priority.
    loop
        invariant
            n == act.len(),
            rs == rows@,
            keyed(act, rv, rs, tiers@, names@),
            placed.len() == n,
            out.len() == count_true(placed@),
            0 <= p <= out@.len(),
            ints(out@).take(p) == prefix,
            ints(out@).no_duplicates(),
            forall|k: int| 0 <= k < out@.len() ==> #[trigger] out@[k] < n,
            forall|i: int| 0 <= i < n ==> (#[trigger] placed@[i] <==> ints(out@).contains(i)),
            forall|k: int| 0 <= k < p ==> #[trigger] ready(act, rv, ints(out@).take(k), ints(out@)[k]),
            forall|k: int, j: int| 0 <= k < p && #[trigger] ready(act, rv, ints(out@).take(k), j) ==> !key_lt(act, rv, j, #[trigger] ints(out@)[k]),
            forall|j: int| !#[trigger] ready(act, rv, prefix, j),
            forall|k: int, l: int| p <= k < l < out@.len() ==> key_lt(act, rv, #[trigger] ints(out@)[k], #[trigger] ints(out@)[l]),
            forall|k: int, j: int| p <= k < out@.len() && 0 <= j < n && !#[trigger] placed@[j] ==> key_lt(act, rv, #[trigger] ints(out@)[k], j),
        decreases n - out.len(),
    {
        proof {
            lemma_count_bound(placed@);
        }
        let mut best: Option<usize> = None;
        for i in 0..n
            invariant
                n == act.len(),
                keyed(act, rv, rs, tiers@, names@),
                rs == rows@,
                placed.len() == n,
                match best {
                    Some(b) => b < i && !placed@[b as int]
                        && forall|j: int| 0 <= j < i && !#[trigger] placed@[j] ==> !key_lt(act, rv, j, b as int),
                    None => forall|j: int| 0 <= j < i ==> #[trigger] placed@[j],
                },
        {
            if !placed[i] {
                match best {
                    None => {
                        proof {
                            lemma_key_lt_order(act, rv, i as int, i as int, i as int);
                        }
                        best = Some(i);
                    },
                    Some(b) => {
                        if key_less(tiers, names, i, b, Ghost(act), Ghost(rv), Ghost(rs)) {
                            proof {
                                assert forall|j: int| 0 <= j < i + 1 && !#[trigger] placed@[j] implies !key_lt(act, rv, j, i as int) by {
                                    lemma_key_lt_order(act, rv, j, i as int, b as int);
                                }
                            }
                            best = Some(i);
                        } else {
                            proof {
                                lemma_key_lt_order(act, rv, i as int, b as int, b as int);
                            }
                        }
                    },
                }
            }
        }
        match best {
            None => {
                break;
            },
            Some(b) => {
                let ghost before = ints(out@);
                let ghost pl = placed@;
                proof {
                    lemma_count_set(placed@, b as int);
                }
                out.push(b);
                placed.set(b, true);
                proof {
                    assert(ints(out@) =~= before.push(b as int));
                    assert(ints(out@).take(before.len() as int) =~= before);
                    assert(ints(out@).take(p) =~= before.take(p));
                    lemma_push_fresh(before, b as int);
                    assert forall|k: int| 0 <= k < p implies #[trigger] ready(act, rv, ints(out@).take(k), ints(out@)[k]) by {
                        assert(ints(out@).take(k) =~= before.take(k));
                    }
                    assert forall|k: int, j: int| 0 <= k < p && #[trigger] ready(act, rv, ints(out@).take(k), j) implies !key_lt(act, rv, j, #[trigger] ints(out@)[k]) by {
                        assert(ints(out@).take(k) =~= before.take(k));
                        assert(ready(act, rv, before.take(k), j));
                    }
                    assert forall|i: int| 0 <= i < n implies (#[trigger] placed@[i] <==> ints(out@).contains(i)) by {
                        if i != b {
                            if ints(out@).contains(i) {
                                let t = choose|t: int| 0 <= t < ints(out@).len() && ints(out@)[t] == i;
                                assert(before[t] == i);
                            }
                            if before.contains(i) {
                                let t = choose|t: int| 0 <= t < before.len() && before[t] == i;
                                assert(ints(out@)[t] == i);
                            }
                        } else {
                            assert(ints(out@)[before.len() as int] == i);
                        }
                    }
                    assert forall|k: int| 0 <= k < out@.len() implies #[trigger] out@[k] < n by {
                        if k < before.len() {
                            assert(ints(out@)[k] == before[k]);
                        }
                    }
                    lemma_count_bound(placed@);
                    assert forall|k: int, l: int| p <= k < l < out@.len() implies key_lt(act, rv, #[trigger] ints(out@)[k], #[trigger] ints(out@)[l]) by {
                        if l == before.len() {
                            assert(!pl[b as int]);
                            assert(key_lt(act, rv, before[k], b as int));
                        }
                    }
                    assert forall|k: int, j: int| p <= k < out@.len() && 0 <= j < n && !#[trigger] placed@[j] implies key_lt(act, rv, #[trigger] ints(out@)[k], j) by {
                        assert(!pl[j]);
                        if k == before.len() {
                            lemma_key_lt_order(act, rv, j, b as int, b as int);
                            assert(!key_lt(act, rv, j, b as int));
                        }
                    }
                }
            },
        }
    }
    proof {
        lemma_count_bound(placed@);
        assert forall|k: int| 0 <= k < out@.len() implies 0 <= #[trigger] ints(out@)[k] < act.len() by {
            assert(out@[k] < n);
        }
        assert(kahn_split(act, rv, ints(out@), p));
        assert forall|i: int| 0 <= i < act.len() implies #[trigger] ints(out@).contains(i) by {
            assert(placed@[i]);
        }
    }
    out
}

proof fn lemma_count_zero(s: Seq<bool>)
    requires
        forall|k: int| 0 <= k < s.len() ==> !#[trigger] s[k],
    ensures
        count_true(s) == 0,
    decreases s.len(),
{
    if s.len() > 0 {
        lemma_count_zero(s.drop_last());
    }
}

} // verus!

verus! {

// ── Sorting a build ─────────────────────────────────────────────────────────

/// The entries of the build's mods that the database knows, in load order.
pub open spec fn known_entries(db: ModDb, order: Seq<Seq<char>>) -> Seq<ModEntry>
    decreases order.len(),
{
    if order.len() == 0 {
        Seq::empty()
    } else {
        let p = known_entries(db, order.drop_last());
        match db.lookup(order.last()) {
            Some(e) => p.push(e),
            None => p,
        }
    }
}

/// The build's mods that the database does not know, in load order.
pub open spec fn unknown_ids(db: ModDb, order: Seq<Seq<char>>) -> Seq<Seq<char>>
    decreases order.len(),
{
    if order.len() == 0 {
        Seq::empty()
    } else {
        let p = unknown_ids(db, order.drop_last());
        match db.lookup(order.last()) {
            Some(e) => p,
            None => p.push(order.last()),
        }
    }
}

/// The packageIds of the mods in the order `out` gives.
pub open spec fn ids_in_order(act: Seq<ModEntry>, out: Seq<int>) -> Seq<Seq<char>> {
    out.map_values(|i: int| act[i].package_id@)
}

/// A sorted build: the known mods in an order of [`kahn_order`], then the
/// mods the database does not know, as they were.
pub open spec fn sorted_build(db: ModDb, rv: Option<Map<Seq<char>, RuleView>>, order: Seq<Seq<char>>, out: Seq<int>) -> bool {
    &&& kahn_order(known_entries(db, order), rv, out)
    &&& forall|i: int| 0 <= i < known_entries(db, order).len() ==> #[trigger] out.contains(i)
}

proof fn lemma_lookup_id(db: ModDb, x: Seq<char>)
    requires
        db.wf(),
    ensures
        db.lookup(x) matches Some(e) ==> e.package_id@ == x,
{
    if ids_of(db.entries()).contains(x) {
        let i = ids_of(db.entries()).index_of(x);
        assert(ids_of(db.entries())[i] == db.entries()[i].package_id@);
    }
}

/// What the pass over the build has gathered so far.
spec fn split_ok(db: ModDb, seen: Seq<Seq<char>>, act: Seq<ModEntry>, unknown: Seq<Seq<char>>) -> bool {
    &&& act == known_entries(db, seen)
    &&& unknown == unknown_ids(db, seen)
    &&& act.len() + unknown.len() == seen.len()
    &&& forall|x: Seq<char>| #[trigger] seen.contains(x) <==> (ids_of(act).contains(x) || unknown.contains(x))
    &&& forall|i: int| 0 <= i < act.len() ==> db.lookup(#[trigger] act[i].package_id@) == Some(act[i])
    &&& forall|i: int| 0 <= i < unknown.len() ==> db.lookup(#[trigger] unknown[i]) is None
    &&& ids_of(act).no_duplicates()
    &&& unknown.no_duplicates()
}

proof fn lemma_split_step(db: ModDb, seen: Seq<Seq<char>>, act: Seq<ModEntry>, unknown: Seq<Seq<char>>, x: Seq<char>)
    requires
        db.wf(),
        split_ok(db, seen, act, unknown),
        !seen.contains(x),
    ensures
        db.lookup(x) matches Some(e) ==> split_ok(db, seen.push(x), act.push(e), unknown),
        db.lookup(x) is None ==> split_ok(db, seen.push(x), act, unknown.push(x)),
{
    lemma_lookup_id(db, x);
    let s2 = seen.push(x);
    assert(s2.drop_last() == seen);
    assert forall|y: Seq<char>| #[trigger] s2.contains(y) <==> (seen.contains(y) || y == x) by {
        if s2.contains(y) && y != x {
            let t = choose|t: int| 0 <= t < s2.len() && s2[t] == y;
            assert(seen[t] == y);
        }
        if seen.contains(y) {
            let t = choose|t: int| 0 <= t < seen.len() && seen[t] == y;
            assert(s2[t] == y);
        }
        if y == x {
            assert(s2[seen.len() as int] == y);
        }
    }
    match db.lookup(x) {
        Some(e) => {
            let a2 = act.push(e);
            assert(ids_of(a2) == ids_of(act).push(x));
            crate::text::lemma_push_fresh(ids_of(act), x);
            assert forall|y: Seq<char>| #[trigger] s2.contains(y) <==> (ids_of(a2).contains(y) || unknown.contains(y)) by {
                if ids_of(a2).contains(y) && y != x {
                    let t = choose|t: int| 0 <= t < ids_of(a2).len() && ids_of(a2)[t] == y;
                    assert(ids_of(act)[t] == y);
                }
                if ids_of(act).contains(y) {
                    let t = choose|t: int| 0 <= t < ids_of(act).len() && ids_of(act)[t] == y;
                    assert(ids_of(a2)[t] == y);
                }
                if y == x {
                    assert(ids_of(a2)[act.len() as int] == y);
                }
            }
            assert forall|i: int| 0 <= i < a2.len() implies db.lookup(#[trigger] a2[i].package_id@) == Some(a2[i]) by {
                if i < act.len() {
                    assert(a2[i] == act[i]);
                }
            }
        },
        None => {
            let u2 = unknown.push(x);
            if unknown.contains(x) {
                assert(seen.contains(x));
            }
            crate::text::lemma_push_fresh(unknown, x);
            assert forall|y: Seq<char>| #[trigger] s2.contains(y) <==> (ids_of(act).contains(y) || u2.contains(y)) by {
                if u2.contains(y) && y != x {
                    let t = choose|t: int| 0 <= t < u2.len() && u2[t] == y;
                    assert(unknown[t] == y);
                }
                if unknown.contains(y) {
                    let t = choose|t: int| 0 <= t < unknown.len() && unknown[t] == y;
                    assert(u2[t] == y);
                }
                if y == x {
                    assert(u2[unknown.len() as int] == y);
                }
            }
            assert forall|i: int| 0 <= i < u2.len() implies db.lookup(#[trigger] u2[i]) is None by {
                if i < unknown.len() {
                    assert(u2[i] == unknown[i]);
                }
            }
        },
    }
}

} // verus!

verus! {

/// The build's mods the database knows, and those it does not.
fn split_build<'a>(order: &[ModId], db: &'a ModDb) -> (r: (Vec<&'a ModEntry>, Vec<ModId>))
    requires
        db.wf(),
        id_views(order@).no_duplicates(),
    ensures
        split_ok(*db, id_views(order@), unref(r.0@), id_views(r.1@)),
{
    let ghost ov = id_views(order@);
    let mut act: Vec<&ModEntry> = Vec::new();
    let mut unknown: Vec<ModId> = Vec::new();
    assert(split_ok(*db, ov.take(0), unref(act@), id_views(unknown@))) by {
        assert(ov.take(0) == Seq::<Seq<char>>::empty());
        assert forall|x: Seq<char>| #[trigger] ov.take(0).contains(x) <==> (ids_of(unref(act@)).contains(x) || id_views(unknown@).contains(x)) by {}
    }
    for k in 0..order.len()
        invariant
            db.wf(),
            ov == id_views(order@),
            ov.no_duplicates(),
            split_ok(*db, ov.take(k as int), unref(act@), id_views(unknown@)),
    {
        let ghost seen = ov.take(k as int);
        assert(ov.take(k + 1) == seen.push(ov[k as int]));
        assert(ov[k as int] == order@[k as int]@);
        assert(!seen.contains(ov[k as int])) by {
            if seen.contains(ov[k as int]) {
                let t = choose|t: int| 0 <= t < seen.len() && seen[t] == ov[k as int];
                assert(ov[t] == ov[k as int]);
            }
        }
        proof {
            lemma_split_step(*db, seen, unref(act@), id_views(unknown@), ov[k as int]);
        }
        match db.get(&order[k]) {
            Some(e) => {
                let ghost before = unref(act@);
                act.push(e);
                assert(unref(act@) == before.push(*e));
            },
            None => {
                let ghost before = id_views(unknown@);
                unknown.push(order[k].copy());
                assert(id_views(unknown@) == before.push(order@[k as int]@));
            },
        }
    }
    assert(ov.take(order.len() as int) == ov);
    (act, unknown)
}

/// Sorts the build's load order.
///
/// The known mods are ordered by Kahn's algorithm over what must load before
/// what (loadAfter, dependencies, loadBefore, and the community rules when
/// given), always taking the ready mod of the highest priority: tier, then
/// name, then the old position. Mods that cycles keep from becoming ready
/// follow in priority order. Mods the database does not know go last, as
/// they were.
pub fn sort_active_mods(profile: &mut Profile, db: &ModDb, rules: Option<&CommunityRules>)
    requires
        old(profile).wf(),
        db.wf(),
    ensures
        final(profile).wf(),
        exists|out: Seq<int>| #[trigger] sorted_build(*db, rules_view(rules), old(profile)@, out)
            && final(profile)@ == ids_in_order(known_entries(*db, old(profile)@), out) + unknown_ids(*db, old(profile)@),
{
    let ghost rv = rules_view(rules);
    let ghost ov = profile@;
    let (act, unknown) = split_build(profile.order(), db);
    let ghost ua = unref(act@);
    assert(distinct_ids(ua)) by {
        assert forall|i: int, j: int| 0 <= i < ua.len() && 0 <= j < ua.len() && i != j implies #[trigger] ua[i].package_id@ != #[trigger] ua[j].package_id@ by {
            assert(ids_of(ua)[i] == ua[i].package_id@);
            assert(ids_of(ua)[j] == ua[j].package_id@);
        }
    }
    let n = act.len();
    let edges = collect_edges(&act, rules);
    let pred_rows = rows_of(&edges, n, false);
    let succ_rows = rows_of(&edges, n, true);
    let tiers = compute_tiers(&act, rules, &pred_rows, &succ_rows);
    let mut names: Vec<Vec<char>> = Vec::new();
    for i in 0..n
        invariant
            n == act.len(),
            ua == unref(act@),
            names.len() == i,
            forall|k: int| 0 <= k < i ==> #[trigger] names@[k]@ == lowercase(ua[k].name@),
    {
        names.push(lower_chars(&chars_of(act[i].name.as_str())));
    }
    let out = kahn(&pred_rows, &tiers, &names, Ghost(ua), Ghost(rv));
    let mut order: Vec<ModId> = Vec::new();
    for k in 0..out.len()
        invariant
            ua == unref(act@),
            forall|k: int| 0 <= k < out@.len() ==> 0 <= #[trigger] ints(out@)[k] < ua.len(),
            id_views(order@) == ids_in_order(ua, ints(out@)).take(k as int),
    {
        assert(ints(out@)[k as int] == out@[k as int] as int);
        let ghost before = id_views(order@);
        order.push(act[out[k]].package_id.copy());
        assert(id_views(order@) == before.push(ua[out@[k as int] as int].package_id@));
        assert(ids_in_order(ua, ints(out@)).take(k + 1) == ids_in_order(ua, ints(out@)).take(k as int).push(
            ua[out@[k as int] as int].package_id@,
        ));
    }
    assert(ids_in_order(ua, ints(out@)).take(out@.len() as int) == ids_in_order(ua, ints(out@)));
    let ghost sorted = id_views(order@);
    for k in 0..unknown.len()
        invariant
            id_views(order@) == sorted + id_views(unknown@).take(k as int),
    {
        let ghost before = id_views(order@);
        order.push(unknown[k].copy());
        assert(id_views(order@) == before.push(unknown@[k as int]@));
        assert(id_views(unknown@).take(k + 1) == id_views(unknown@).take(k as int).push(unknown@[k as int]@));
    }
    assert(id_views(unknown@).take(unknown@.len() as int) == id_views(unknown@));
    proof {
        lemma_sorted_permutes(*db, ov, ua, id_views(unknown@), ints(out@), rv);
    }
    profile.set_order(order);
    assert(sorted_build(*db, rv, ov, ints(out@)));
}

proof fn lemma_sorted_permutes(
    db: ModDb,
    ov: Seq<Seq<char>>,
    act: Seq<ModEntry>,
    unknown: Seq<Seq<char>>,
    out: Seq<int>,
    rv: Option<Map<Seq<char>, RuleView>>,
)
    requires
        split_ok(db, ov, act, unknown),
        kahn_order(act, rv, out),
        forall|i: int| 0 <= i < act.len() ==> #[trigger] out.contains(i),
    ensures
        (ids_in_order(act, out) + unknown).no_duplicates(),
        (ids_in_order(act, out) + unknown).len() == ov.len(),
        forall|x: Seq<char>| ov.contains(x) ==> #[trigger] (ids_in_order(act, out) + unknown).contains(x),
{
    let p = choose|p: int| kahn_split(act, rv, out, p);
    let s = ids_in_order(act, out);
    let all = s + unknown;
    assert forall|i: int, j: int| 0 <= i < all.len() && 0 <= j < all.len() && i != j implies all[i] != all[j] by {
        if i < s.len() && j < s.len() {
            assert(out[i] != out[j]);
            assert(ids_of(act)[out[i]] == s[i]);
            assert(ids_of(act)[out[j]] == s[j]);
        } else if i < s.len() {
            assert(db.lookup(act[out[i]].package_id@) == Some(act[out[i]]));
            assert(db.lookup(unknown[j - s.len()]) is None);
        } else if j < s.len() {
            assert(db.lookup(act[out[j]].package_id@) == Some(act[out[j]]));
            assert(db.lookup(unknown[i - s.len()]) is None);
        } else {
            assert(unknown[i - s.len()] != unknown[j - s.len()]);
        }
    }
    assert forall|x: Seq<char>| ov.contains(x) implies #[trigger] all.contains(x) by {
        if ids_of(act).contains(x) {
            let i = choose|i: int| 0 <= i < ids_of(act).len() && ids_of(act)[i] == x;
            assert(out.contains(i));
            let t = choose|t: int| 0 <= t < out.len() && out[t] == i;
            assert(all[t] == x);
        } else {
            let t = choose|t: int| 0 <= t < unknown.len() && unknown[t] == x;
            assert(all[s.len() + t] == x);
        }
    }
}

} // verus!

verus! {

// ── Laws ────────────────────────────────────────────────────────────────────

/// A sorted mod that no cycle holds back comes after every mod it must load
/// after (loadAfter, dependencies, loadBefore of the other, community
/// rules).
pub proof fn law_sort_respects_precedence(
    act: Seq<ModEntry>,
    rv: Option<Map<Seq<char>, RuleView>>,
    out: Seq<int>,
    p: int,
    k: int,
    a: int,
)
    requires
        kahn_split(act, rv, out, p),
        0 <= k < p,
        must_precede(act, rv, a, out[k]),
    ensures
        exists|j: int| 0 <= j < k && out[j] == a,
{
    assert(ready(act, rv, out.take(k), out[k]));
    assert(out.take(k).contains(a));
    let j = choose|j: int| 0 <= j < out.take(k).len() && out.take(k)[j] == a;
    assert(out[j] == a);
}

/// Where nothing must load before anything, the sorted order is the order
/// of priority: tier, then lowercased name, then the old position.
pub proof fn law_unconstrained_sort_is_by_priority(
    act: Seq<ModEntry>,
    rv: Option<Map<Seq<char>, RuleView>>,
    out: Seq<int>,
    p: int,
)
    requires
        kahn_split(act, rv, out, p),
        forall|a: int, b: int| !#[trigger] must_precede(act, rv, a, b),
    ensures
        forall|k: int, l: int| 0 <= k < l < out.len() ==> key_lt(act, rv, #[trigger] out[k], #[trigger] out[l]),
{
    assert forall|k: int, l: int| 0 <= k < l < out.len() implies key_lt(act, rv, #[trigger] out[k], #[trigger] out[l]) by {
        if k < p {
            assert(!out.take(k).contains(out[l])) by {
                if out.take(k).contains(out[l]) {
                    let t = choose|t: int| 0 <= t < out.take(k).len() && out.take(k)[t] == out[l];
                    assert(out[t] == out[l]);
                }
            }
            assert(ready(act, rv, out.take(k), out[l]));
            assert(!key_lt(act, rv, out[l], out[k]));
            lemma_key_lt_order(act, rv, out[k], out[l], out[k]);
        }
    }
}

} // verus!
