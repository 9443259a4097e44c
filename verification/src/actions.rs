//! What the user asks of the build, and the operations on a whole build.
//!
//! Lists and the keyboard only hand back an [`Action`]; changing the build
//! in the middle of drawing would put the lists' caches out of step.

use vstd::prelude::*;
use crate::mod_data::db::{ids_of, ModDb};
use crate::mod_data::mod_entry::ModEntry;
use crate::mod_data::mod_id::ModId;
use crate::mod_data::profile::{activated_at, id_views, list_has, moved_down, moved_up, picked, with_active, without, Profile};
use crate::tags::{toggled, TagId, Tags};
use crate::text::{first_at, lemma_first_at};

verus! {

/// What is dragged between the lists.
pub struct DragPayload {
    pub id: ModId,
}

/// Everything the interface can ask to do with a mod.
pub enum Action {
    Activate(ModId),
    Deactivate(ModId),
    MoveUp(ModId),
    MoveDown(ModId),
    /// Drag and drop: move the mod to row `to_pos` of the list `to_active`;
    /// the row is one of the *shown* (filtered) list.
    DragDrop { id: ModId, to_active: bool, to_pos: usize },
    OpenFolder(ModId),
    /// Put a tag on or take it off.
    ToggleTag { id: ModId, tag: TagId },
    OpenTagEditor,
}

/// What the application has to do after an action.
pub enum Effect {
    /// The build changed: caches are stale.
    BuildChanged,
    /// The tags changed: save them; caches are stale.
    TagsChanged,
    /// Open this folder in the file manager.
    OpenFolder(String),
    OpenTagEditor,
}

/// The mod is Core, the base game.
pub open spec fn is_core_id(db: ModDb, x: Seq<char>) -> bool {
    db.lookup(x) matches Some(e) && e.source is Core
}

/// Whether the mod is Core.
pub fn is_core(db: &ModDb, id: &ModId) -> (r: bool)
    requires
        db.wf(),
    ensures
        r == is_core_id(*db, id@),
{
    match db.get(id) {
        Some(m) => m.is_core(),
        None => false,
    }
}

/// Where a mod dropped on row `to_pos` of the shown active list goes in the
/// build: before the mod shown there, or at the end.
pub open spec fn drop_target(build: Seq<Seq<char>>, shown: Seq<Seq<char>>, to_pos: int) -> int {
    if 0 <= to_pos < shown.len() && build.contains(shown[to_pos]) {
        build.index_of(shown[to_pos])
    } else {
        build.len() as int
    }
}

/// Carries out an action on the build (and the tags), given the active
/// mods as the list shows them. Only installed mods are switched on; Core
/// is never switched off.
pub fn apply(profile: &mut Profile, tags: &mut Tags, db: &ModDb, action: Action, shown_active: &[ModId]) -> (r: Effect)
    requires
        old(profile).wf(),
        old(tags).wf(),
        db.wf(),
    ensures
        final(profile).wf(),
        final(tags).wf(),
        match action {
            Action::Activate(id) => r is BuildChanged && *final(tags) == *old(tags) && final(profile)@ == if ids_of(db.entries()).contains(id@) {
                with_active(old(profile)@, id@)
            } else {
                old(profile)@
            },
            Action::Deactivate(id) => r is BuildChanged && *final(tags) == *old(tags) && final(profile)@ == if is_core_id(*db, id@) {
                old(profile)@
            } else {
                without(old(profile)@, id@)
            },
            Action::MoveUp(id) => r is BuildChanged && *final(tags) == *old(tags) && final(profile)@ == moved_up(old(profile)@, id@),
            Action::MoveDown(id) => r is BuildChanged && *final(tags) == *old(tags) && final(profile)@ == moved_down(old(profile)@, id@),
            Action::DragDrop { id, to_active, to_pos } => r is BuildChanged && *final(tags) == *old(tags) && final(profile)@ == if to_active {
                if ids_of(db.entries()).contains(id@) {
                    activated_at(old(profile)@, id@, drop_target(old(profile)@, id_views(shown_active@), to_pos as int))
                } else {
                    old(profile)@
                }
            } else if is_core_id(*db, id@) {
                old(profile)@
            } else {
                without(old(profile)@, id@)
            },
            Action::OpenFolder(id) => *final(profile) == *old(profile) && *final(tags) == *old(tags) && match db.lookup(id@) {
                Some(e) => r matches Effect::OpenFolder(p) && p@ == e.path@,
                None => r is BuildChanged,
            },
            Action::ToggleTag { id, tag } => {
                &&& r is TagsChanged
                &&& *final(profile) == *old(profile)
                &&& final(tags).tags_v() == old(tags).tags_v()
                &&& forall|x: Seq<char>| x != id@ ==> #[trigger] final(tags).of_v(x) == old(tags).of_v(x)
                &&& final(tags).of_v(id@) == if tag.at() < old(tags).tags_v().len() {
                    toggled(old(tags).of_v(id@), tag.at() as usize)
                } else {
                    old(tags).of_v(id@)
                }
            },
            Action::OpenTagEditor => r is OpenTagEditor && *final(profile) == *old(profile) && *final(tags) == *old(tags),
        },
{
    match action {
        Action::Activate(id) => {
            if db.contains(&id) {
                profile.activate(id);
            }
            Effect::BuildChanged
        },
        Action::Deactivate(id) => {
            if !is_core(db, &id) {
                profile.deactivate(&id);
            }
            Effect::BuildChanged
        },
        Action::MoveUp(id) => {
            profile.move_up(&id);
            Effect::BuildChanged
        },
        Action::MoveDown(id) => {
            profile.move_down(&id);
            Effect::BuildChanged
        },
        Action::DragDrop { id, to_active, to_pos } => {
            if to_active {
                if db.contains(&id) {
                    let ghost build = profile@;
                    let target = if to_pos < shown_active.len() {
                        match profile.position(&shown_active[to_pos]) {
                            Some(p) => p,
                            None => profile.len(),
                        }
                    } else {
                        profile.len()
                    };
                    proof {
                        if to_pos < shown_active.len() && build.contains(id_views(shown_active@)[to_pos as int]) {
                            assert(id_views(shown_active@)[to_pos as int] == shown_active@[to_pos as int]@);
                            lemma_index_of_first(build, shown_active@[to_pos as int]@, target as int);
                        }
                        if to_pos < shown_active.len() {
                            assert(id_views(shown_active@)[to_pos as int] == shown_active@[to_pos as int]@);
                        }
                    }
                    profile.activate_at(id, target);
                }
            } else if !is_core(db, &id) {
                profile.deactivate(&id);
            }
            Effect::BuildChanged
        },
        Action::OpenFolder(id) => {
            match db.get(&id) {
                Some(m) => Effect::OpenFolder(crate::text::string_of(&crate::text::chars_of(m.path.as_str()))),
                None => Effect::BuildChanged,
            }
        },
        Action::ToggleTag { id, tag } => {
            tags.toggle(&id, tag);
            Effect::TagsChanged
        },
        Action::OpenTagEditor => Effect::OpenTagEditor,
    }
}

/// In a build without repeats, the position of a mod is its index.
proof fn lemma_index_of_first(v: Seq<Seq<char>>, x: Seq<char>, i: int)
    requires
        0 <= i < v.len(),
        v[i] == x,
        v.no_duplicates(),
    ensures
        v.index_of(x) == i,
{
    assert(v.contains(x));
    let k = v.index_of(x);
    assert(v[k] == x);
}

} // verus!

verus! {

// ── Whole-build operations ──────────────────────────────────────────────────

/// The dependencies a mod declares (none for a mod that is not installed).
pub open spec fn deps_of(db: ModDb, x: Seq<char>) -> Seq<Seq<char>> {
    match db.lookup(x) {
        Some(e) => id_views(e.dependencies@),
        None => Seq::empty(),
    }
}

pub open spec fn installed(db: ModDb, d: Seq<char>) -> bool {
    ids_of(db.entries()).contains(d)
}

/// Every installed dependency of a mod of the build is in the build.
pub open spec fn deps_closed(db: ModDb, build: Seq<Seq<char>>) -> bool {
    forall|i: int, d: Seq<char>|
        0 <= i < build.len() && #[trigger] deps_of(db, build[i]).contains(d) && installed(db, d) ==> build.contains(d)
}

/// The mod at `k` is a dependency of a mod before it.
pub open spec fn dep_before(db: ModDb, build: Seq<Seq<char>>, k: int) -> bool {
    exists|j: int| 0 <= j < k && #[trigger] deps_of(db, build[j]).contains(build[k])
}

/// Each mod after the first `n` is a dependency of a mod before it.
pub open spec fn added_as_dependencies(db: ModDb, build: Seq<Seq<char>>, n: int) -> bool {
    forall|k: int| n <= k < build.len() ==> #[trigger] dep_before(db, build, k)
}

proof fn lemma_distinct_within(a: Seq<Seq<char>>, d: Seq<Seq<char>>)
    requires
        a.no_duplicates(),
        forall|i: int| 0 <= i < a.len() ==> d.contains(#[trigger] a[i]),
    ensures
        a.len() <= d.len(),
{
    a.unique_seq_to_set();
    d.lemma_cardinality_of_set();
    assert(a.to_set().subset_of(d.to_set())) by {
        assert forall|x: Seq<char>| a.to_set().contains(x) implies d.to_set().contains(x) by {
            let i = choose|i: int| 0 <= i < a.len() && a[i] == x;
            assert(d.contains(a[i]));
        }
    }
    vstd::set_lib::lemma_len_subset(a.to_set(), d.to_set());
}

/// Switches on the missing dependencies of the build's mods, and theirs in
/// turn. Dependencies that are not installed are skipped. Returns how many
/// mods were switched on.
pub fn add_missing_dependencies(profile: &mut Profile, db: &ModDb) -> (count: usize)
    requires
        old(profile).wf(),
        db.wf(),
    ensures
        final(profile).wf(),
        final(profile)@.len() == old(profile)@.len() + count,
        final(profile)@.take(old(profile)@.len() as int) == old(profile)@,
        forall|k: int| old(profile)@.len() <= k < final(profile)@.len() ==> installed(*db, #[trigger] final(profile)@[k]),
        deps_closed(*db, final(profile)@),
        added_as_dependencies(*db, final(profile)@, old(profile)@.len() as int),
{
    let ghost start = profile@;
    let ghost dbi = ids_of(db.entries());
    let ghost budget = start.len() + dbi.len();
    let mut queue = crate::mod_data::profile::copy_ids(profile.order());
    let mut visited: Vec<ModId> = Vec::new();
    let mut count: usize = 0;
    let base = profile.len();
    assert(profile@.take(start.len() as int) == start);
    while queue.len() > 0
        invariant
            db.wf(),
            dbi == ids_of(db.entries()),
            profile.wf(),
            profile@.len() == start.len() + count,
            profile@.take(start.len() as int) == start,
            budget == start.len() + dbi.len(),
            base == start.len(),
            forall|k: int| start.len() <= k < profile@.len() ==> installed(*db, #[trigger] profile@[k]),
            forall|i: int| 0 <= i < queue@.len() ==> profile@.contains(#[trigger] id_views(queue@)[i]),
            forall|i: int| 0 <= i < visited@.len() ==> profile@.contains(#[trigger] id_views(visited@)[i]),
            id_views(visited@).no_duplicates(),
            forall|i: int| 0 <= i < profile@.len() ==> id_views(visited@).contains(#[trigger] profile@[i]) || id_views(queue@).contains(profile@[i]),
            forall|i: int, d: Seq<char>| 0 <= i < visited@.len() && #[trigger] deps_of(*db, id_views(visited@)[i]).contains(d) && installed(*db, d) ==> profile@.contains(d),
            added_as_dependencies(*db, profile@, start.len() as int),
        decreases budget - visited@.len(), queue@.len(),
    {
        let ghost q0 = id_views(queue@);
        let id = queue.pop().unwrap();
        assert(q0 == id_views(queue@).push(id@));
        assert forall|i: int| 0 <= i < queue@.len() implies profile@.contains(#[trigger] id_views(queue@)[i]) by {
            assert(id_views(queue@)[i] == q0[i]);
        }
        if list_has(&visited, &id) {
            continue;
        }
        let ghost v0 = id_views(visited@);
        visited.push(id.copy());
        assert(id_views(visited@) == v0.push(id@));
        proof {
            crate::text::lemma_push_fresh(v0, id@);
        }
        let ghost p0 = profile@;
        let ghost qa = id_views(queue@);
        assert(p0.contains(id@)) by {
            assert(q0[q0.len() - 1] == id@);
        }
        visit(profile, db, &id, &mut queue, &mut count, base, Ghost(start));
        proof {
            let a = profile@.skip(start.len() as int);
            assert forall|i: int| 0 <= i < a.len() implies dbi.contains(#[trigger] a[i]) by {
                assert(a[i] == profile@[start.len() + i]);
            }
            assert(a.no_duplicates()) by {
                assert forall|i: int, j: int| 0 <= i < a.len() && 0 <= j < a.len() && i != j implies a[i] != a[j] by {
                    assert(a[i] == profile@[start.len() + i]);
                    assert(a[j] == profile@[start.len() + j]);
                }
            }
            lemma_distinct_within(a, dbi);
            assert forall|i: int| 0 <= i < visited@.len() implies profile@.contains(#[trigger] id_views(visited@)[i]) by {
                if i < v0.len() {
                    assert(p0.contains(v0[i]));
                    let t = choose|t: int| 0 <= t < p0.len() && p0[t] == v0[i];
                    assert(profile@.take(p0.len() as int)[t] == p0[t]);
                    assert(profile@[t] == p0[t]);
                } else {
                    let t = choose|t: int| 0 <= t < p0.len() && p0[t] == id@;
                    assert(profile@.take(p0.len() as int)[t] == p0[t]);
                    assert(profile@[t] == p0[t]);
                }
            }
            lemma_distinct_within(id_views(visited@), profile@);
            let qn = id_views(queue@);
            let extra = profile@.skip(p0.len() as int);
            assert(qn == qa + extra);
            assert forall|i: int| 0 <= i < queue@.len() implies profile@.contains(#[trigger] id_views(queue@)[i]) by {
                if i < qa.len() {
                    assert(qn[i] == qa[i]);
                    assert(q0[i] == qa[i]);
                    assert(p0.contains(qa[i]));
                    let t = choose|t: int| 0 <= t < p0.len() && p0[t] == qa[i];
                    assert(profile@.take(p0.len() as int)[t] == p0[t]);
                    assert(profile@[t] == qa[i]);
                } else {
                    assert(qn.len() == qa.len() + extra.len());
                    assert(extra.len() == profile@.len() - p0.len());
                    assert(qn[i] == extra[i - qa.len()]);
                    assert(extra[i - qa.len()] == profile@[p0.len() + i - qa.len()]);
                }
            }
            assert forall|i: int| 0 <= i < profile@.len() implies id_views(visited@).contains(#[trigger] profile@[i]) || id_views(queue@).contains(profile@[i]) by {
                if i < p0.len() {
                    assert(profile@.take(p0.len() as int)[i] == p0[i]);
                    assert(profile@[i] == p0[i]);
                    if p0[i] == id@ {
                        assert(id_views(visited@)[v0.len() as int] == id@);
                    } else if v0.contains(p0[i]) {
                        let t = choose|t: int| 0 <= t < v0.len() && v0[t] == p0[i];
                        assert(id_views(visited@)[t] == p0[i]);
                    } else {
                        assert(q0.contains(p0[i]));
                        let t = choose|t: int| 0 <= t < q0.len() && q0[t] == p0[i];
                        assert(t < qa.len());
                        assert(qn[t] == qa[t]);
                    }
                } else {
                    assert(extra[i - p0.len()] == profile@[i]);
                    assert(qn[qa.len() + i - p0.len()] == profile@[i]);
                }
            }
            assert forall|i: int, d: Seq<char>| 0 <= i < visited@.len() && #[trigger] deps_of(*db, id_views(visited@)[i]).contains(d) && installed(*db, d) implies profile@.contains(d) by {
                if i < v0.len() {
                    assert(id_views(visited@)[i] == v0[i]);
                    assert(p0.contains(d));
                    let t = choose|t: int| 0 <= t < p0.len() && p0[t] == d;
                    assert(profile@.take(p0.len() as int)[t] == p0[t]);
                    assert(profile@[t] == d);
                } else {
                    assert(id_views(visited@)[i] == id@);
                }
            }
        }
    }
    count
}

proof fn lemma_added_push(db: ModDb, build: Seq<Seq<char>>, n: int, xp: int, d: Seq<char>)
    requires
        0 <= n,
        added_as_dependencies(db, build, n),
        0 <= xp < build.len(),
        deps_of(db, build[xp]).contains(d),
    ensures
        added_as_dependencies(db, build.push(d), n),
{
    let b2 = build.push(d);
    assert forall|k: int| n <= k < b2.len() implies #[trigger] dep_before(db, b2, k) by {
        if k < build.len() {
            assert(b2[k] == build[k]);
            assert(dep_before(db, build, k));
            let j = choose|j: int| 0 <= j < k && #[trigger] deps_of(db, build[j]).contains(build[k]);
            assert(b2[j] == build[j]);
            assert(deps_of(db, b2[j]).contains(b2[k]));
        } else {
            assert(b2[xp] == build[xp]);
            assert(b2[k] == d);
            assert(deps_of(db, b2[xp]).contains(b2[k]));
        }
    }
}

/// Switches on the missing installed dependencies of mod `x`, queueing each.
fn visit(profile: &mut Profile, db: &ModDb, x: &ModId, queue: &mut Vec<ModId>, count: &mut usize, base: usize, Ghost(start): Ghost<Seq<Seq<char>>>)
    requires
        base == start.len(),
        db.wf(),
        old(profile).wf(),
        old(profile)@.contains(x@),
        old(profile)@.len() == start.len() + *old(count),
        old(profile)@.take(start.len() as int) == start,
        forall|k: int| start.len() <= k < old(profile)@.len() ==> installed(*db, #[trigger] old(profile)@[k]),
        added_as_dependencies(*db, old(profile)@, start.len() as int),
    ensures
        final(profile).wf(),
        final(profile)@.len() == start.len() + *final(count),
        final(profile)@.len() >= old(profile)@.len(),
        final(profile)@.take(old(profile)@.len() as int) == old(profile)@,
        final(profile)@.take(start.len() as int) == start,
        forall|k: int| start.len() <= k < final(profile)@.len() ==> installed(*db, #[trigger] final(profile)@[k]),
        added_as_dependencies(*db, final(profile)@, start.len() as int),
        forall|d: Seq<char>| #[trigger] deps_of(*db, x@).contains(d) && installed(*db, d) ==> final(profile)@.contains(d),
        id_views(final(queue)@) == id_views(old(queue)@) + final(profile)@.skip(old(profile)@.len() as int),
{
    let ghost p0 = profile@;
    let ghost q0 = id_views(queue@);
    let ghost xi = p0.index_of(x@);
    proof {
        assert(p0[xi] == x@);
    }
    let m = match db.get(x) {
        Some(m) => m,
        None => {
            assert(p0.skip(p0.len() as int) == Seq::<Seq<char>>::empty());
            assert(deps_of(*db, x@) == Seq::<Seq<char>>::empty());
            return;
        },
    };
    let ghost dv = id_views(m.dependencies@);
    assert(deps_of(*db, x@) == dv);
    assert(p0.skip(p0.len() as int) == Seq::<Seq<char>>::empty());
    for k in 0..m.dependencies.len()
        invariant
            db.wf(),
            dv == id_views(m.dependencies@),
            dv == deps_of(*db, x@),
            0 <= xi < p0.len(),
            p0[xi] == x@,
            profile.wf(),
            profile@.len() == start.len() + *count,
            base == start.len(),
            profile@.len() >= p0.len(),
            profile@.take(p0.len() as int) == p0,
            p0.take(start.len() as int) == start,
            p0.len() >= start.len(),
            forall|k: int| start.len() <= k < profile@.len() ==> installed(*db, #[trigger] profile@[k]),
            added_as_dependencies(*db, profile@, start.len() as int),
            forall|t: int| 0 <= t < k && installed(*db, #[trigger] dv[t]) ==> profile@.contains(dv[t]),
            id_views(queue@) == q0 + profile@.skip(p0.len() as int),
    {
        let dep = &m.dependencies[k];
        assert(dv[k as int] == dep@);
        if db.contains(dep) && !profile.is_active(dep) {
            let ghost pb = profile@;
            let ghost qb = id_views(queue@);
            profile.activate(dep.copy());
            assert(profile@ == pb.push(dep@));
            *count = profile.len() - base;
            queue.push(dep.copy());
            assert(id_views(queue@) == qb.push(dep@));
            assert(profile@.skip(p0.len() as int) == pb.skip(p0.len() as int).push(dep@));
            assert(profile@.take(p0.len() as int) == p0) by {
                assert(pb.take(p0.len() as int) == p0);
            }
            assert forall|kk: int| start.len() <= kk < profile@.len() implies installed(*db, #[trigger] profile@[kk]) by {
                if kk < pb.len() {
                    assert(profile@[kk] == pb[kk]);
                }
            }
            assert(profile@[xi] == x@) by {
                assert(profile@.take(p0.len() as int)[xi] == p0[xi]);
            }
            proof {
                lemma_added_push(*db, pb, start.len() as int, xi, dep@);
            }
            assert(added_as_dependencies(*db, profile@, start.len() as int));
            assert forall|t: int| 0 <= t < k + 1 && installed(*db, #[trigger] dv[t]) implies profile@.contains(dv[t]) by {
                if t < k {
                    let i = choose|i: int| 0 <= i < pb.len() && pb[i] == dv[t];
                    assert(profile@[i] == pb[i]);
                } else {
                    assert(profile@[pb.len() as int] == dv[t]);
                }
            }
        }
    }
    proof {
        assert forall|d: Seq<char>| #[trigger] deps_of(*db, x@).contains(d) && installed(*db, d) implies profile@.contains(d) by {
            let t = choose|t: int| 0 <= t < dv.len() && dv[t] == d;
        }
        assert(profile@.take(start.len() as int) == start) by {
            assert(profile@.take(start.len() as int) =~= profile@.take(p0.len() as int).take(start.len() as int));
        }
    }
}

} // verus!

verus! {

/// The first Core entry of the database, if any.
pub open spec fn core_of(es: Seq<ModEntry>) -> Option<Seq<char>>
    decreases es.len(),
{
    if es.len() == 0 {
        None
    } else if es[0].source is Core {
        Some(es[0].package_id@)
    } else {
        core_of(es.drop_first())
    }
}

/// Puts Core first in the build when it is installed and switched off.
pub fn ensure_core_active(profile: &mut Profile, db: &ModDb)
    requires
        old(profile).wf(),
    ensures
        final(profile).wf(),
        final(profile)@ == match core_of(db.entries()) {
            Some(c) => if old(profile)@.contains(c) { old(profile)@ } else { activated_at(old(profile)@, c, 0) },
            None => old(profile)@,
        },
{
    let mods = db.iter();
    let ghost es = db.entries();
    assert(es.skip(0) == es);
    for k in 0..mods.len()
        invariant
            mods@ == es,
            profile.wf(),
            profile@ == old(profile)@,
            core_of(es) == core_of(es.skip(k as int)),
    {
        assert(es.skip(k as int)[0] == mods@[k as int]);
        assert(es.skip(k as int).drop_first() == es.skip(k + 1));
        if mods[k].is_core() {
            let id = mods[k].package_id.copy();
            if !profile.is_active(&id) {
                profile.activate_at(id, 0);
            }
            return;
        }
    }
    assert(es.skip(mods@.len() as int) == Seq::<ModEntry>::empty());
}

/// Switches on every installed mod, in the database's order, after those
/// already on.
pub fn activate_all(profile: &mut Profile, db: &ModDb)
    requires
        old(profile).wf(),
    ensures
        final(profile).wf(),
        forall|x: Seq<char>| #[trigger] final(profile)@.contains(x) <==> (old(profile)@.contains(x) || ids_of(db.entries()).contains(x)),
        final(profile)@.take(old(profile)@.len() as int) == old(profile)@,
{
    let ids = db.ids();
    let ghost iv = ids.deep_view();
    for k in 0..ids.len()
        invariant
            iv == ids.deep_view(),
            iv == ids_of(db.entries()),
            profile.wf(),
            profile@.len() >= old(profile)@.len(),
            profile@.take(old(profile)@.len() as int) == old(profile)@,
            forall|x: Seq<char>| #[trigger] profile@.contains(x) <==> (old(profile)@.contains(x) || iv.take(k as int).contains(x)),
    {
        let ghost before = profile@;
        profile.activate(ids[k].copy());
        assert(iv[k as int] == ids@[k as int]@);
        assert forall|x: Seq<char>| #[trigger] profile@.contains(x) <==> (old(profile)@.contains(x) || iv.take(k + 1).contains(x)) by {
            if iv.take(k + 1).contains(x) && !iv.take(k as int).contains(x) {
                let t = choose|t: int| 0 <= t < k + 1 && #[trigger] iv.take(k + 1)[t] == x;
                if t < k {
                    assert(iv.take(k as int)[t] == x);
                }
            }
            if iv.take(k as int).contains(x) {
                let t = choose|t: int| 0 <= t < k && #[trigger] iv.take(k as int)[t] == x;
                assert(iv.take(k + 1)[t] == x);
            }
            if x == iv[k as int] {
                assert(iv.take(k + 1)[k as int] == x);
            }
            assert(profile@ == with_active(before, iv[k as int]));
            if !before.contains(iv[k as int]) {
                let p2 = before.push(iv[k as int]);
                assert(p2[before.len() as int] == iv[k as int]);
                if p2.contains(x) && x != iv[k as int] {
                    let t = choose|t: int| 0 <= t < p2.len() && p2[t] == x;
                    assert(before[t] == x);
                }
                if before.contains(x) {
                    let t = choose|t: int| 0 <= t < before.len() && before[t] == x;
                    assert(p2[t] == x);
                }
            }
        }
        assert(profile@.take(old(profile)@.len() as int) == old(profile)@) by {
            if profile@ != before {
                assert(profile@ == before.push(iv[k as int]));
                assert(profile@.take(old(profile)@.len() as int) == before.take(old(profile)@.len() as int));
            }
        }
    }
    assert(iv.take(ids@.len() as int) == iv);
}

/// The mods of `v` that are Core.
pub open spec fn core_only(db: ModDb, v: Seq<Seq<char>>) -> Seq<Seq<char>> {
    v.filter(|x: Seq<char>| is_core_id(db, x))
}

proof fn lemma_picked_core(db: ModDb, v: Seq<Seq<char>>, flags: Seq<bool>)
    requires
        flags.len() == v.len(),
        forall|i: int| 0 <= i < v.len() ==> flags[i] == is_core_id(db, v[i]),
    ensures
        picked(v, flags) == core_only(db, v),
    decreases v.len(),
{
    if v.len() > 0 {
        let u = v.drop_last();
        let g = flags.take(v.len() - 1);
        lemma_picked_core(db, u, g);
        assert(v == u.push(v.last()));
        u.lemma_filter_push(v.last(), |x: Seq<char>| is_core_id(db, x));
    } else {
        assert(core_only(db, v) =~= Seq::<Seq<char>>::empty());
    }
}

/// Switches off everything but Core.
pub fn deactivate_all(profile: &mut Profile, db: &ModDb)
    requires
        old(profile).wf(),
        db.wf(),
    ensures
        final(profile).wf(),
        final(profile)@ == core_only(*db, old(profile)@),
{
    let keep = |m: &ModId| -> (r: bool)
        requires
            db.wf(),
        ensures
            r == is_core_id(*db, m@),
        { is_core(db, m) };
    profile.retain(keep);
    proof {
        let flags = choose|flags: Seq<bool>|
            #![trigger picked(old(profile)@, flags)]
            flags.len() == old(profile)@.len()
            && (forall|i: int| 0 <= i < flags.len() ==> #[trigger] keep.ensures((&old(profile).mods()[i],), flags[i]))
            && profile@ == picked(old(profile)@, flags);
        old(profile).lemma_view();
        assert forall|i: int| 0 <= i < old(profile)@.len() implies flags[i] == is_core_id(*db, old(profile)@[i]) by {
            assert(keep.ensures((&old(profile).mods()[i],), flags[i]));
            assert(id_views(old(profile).mods())[i] == old(profile).mods()[i]@);
        }
        lemma_picked_core(*db, old(profile)@, flags);
    }
}

/// The identifiers of the build, as text for a list file.
pub fn active_ids_for_export(profile: &Profile) -> (r: Vec<String>)
    ensures
        r@.map_values(|s: String| s@) == profile@,
{
    let order = profile.order();
    let mut out: Vec<String> = Vec::new();
    for k in 0..order.len()
        invariant
            id_views(order@) == profile@,
            out@.map_values(|s: String| s@) == profile@.take(k as int),
    {
        let ghost before = out@.map_values(|s: String| s@);
        out.push(crate::text::string_of(&crate::text::chars_of(order[k].as_str())));
        assert(out@.map_values(|s: String| s@) == before.push(order@[k as int]@));
        assert(profile@.take(k + 1) == profile@.take(k as int).push(profile@[k as int]));
    }
    assert(profile@.take(order@.len() as int) == profile@);
    out
}

// ── Keyboard ────────────────────────────────────────────────────────────────

/// The keys pressed in a frame, for the mod lists.
#[derive(Clone, Copy, Debug)]
pub struct Keys {
    pub up: bool,
    pub down: bool,
    pub enter: bool,
    /// Ctrl (or Command) held.
    pub ctrl: bool,
}

/// What a key press asks for the selected mod.
pub enum Nav {
    MoveUp,
    MoveDown,
    Activate,
    Deactivate,
}

pub open spec fn opt_id(o: Option<ModId>) -> Option<Seq<char>> {
    match o {
        Some(i) => Some(i@),
        None => None,
    }
}

/// An action of the keyboard as values; other actions are none.
pub open spec fn nav_of(a: Option<Action>) -> Option<(Nav, Seq<char>)> {
    match a {
        Some(Action::MoveUp(i)) => Some((Nav::MoveUp, i@)),
        Some(Action::MoveDown(i)) => Some((Nav::MoveDown, i@)),
        Some(Action::Activate(i)) => Some((Nav::Activate, i@)),
        Some(Action::Deactivate(i)) => Some((Nav::Deactivate, i@)),
        _ => None,
    }
}

/// The selection after a key press. Arrows move it within the list of the
/// selected mod (the active list when it is active), staying at the ends; a
/// mod missing from its list moves to the top. With nothing selected an
/// arrow selects the first inactive mod, else the first active one. Ctrl
/// with an arrow on an active mod keeps the selection (the mod moves).
pub open spec fn nav_selection(
    keys: Keys,
    sel: Option<Seq<char>>,
    in_active: bool,
    active: Seq<Seq<char>>,
    inactive: Seq<Seq<char>>,
) -> Option<Seq<char>> {
    let arrow = keys.up || keys.down;
    match sel {
        None => if arrow {
            if inactive.len() > 0 { Some(inactive[0]) } else if active.len() > 0 { Some(active[0]) } else { None }
        } else {
            None
        },
        Some(s) => {
            let list = if in_active { active } else { inactive };
            if !arrow || (keys.ctrl && in_active) || list.len() == 0 {
                sel
            } else if list.contains(s) {
                let p = first_at(list, s);
                Some(list[if keys.up { if p > 0 { p - 1 } else { 0 } } else if p + 1 < list.len() { p + 1 } else { list.len() - 1 }])
            } else {
                Some(list[0])
            }
        },
    }
}

/// The action of a key press: Ctrl with an arrow moves an active mod in the
/// load order; Enter moves the selected mod to the other list (Core stays
/// on).
pub open spec fn nav_action(keys: Keys, sel: Option<Seq<char>>, in_active: bool, core: bool) -> Option<(Nav, Seq<char>)> {
    match sel {
        None => None,
        Some(s) => if keys.ctrl && in_active && keys.up {
            Some((Nav::MoveUp, s))
        } else if keys.ctrl && in_active && keys.down {
            Some((Nav::MoveDown, s))
        } else if keys.up || keys.down || !keys.enter {
            None
        } else if in_active {
            if core { None } else { Some((Nav::Deactivate, s)) }
        } else {
            Some((Nav::Activate, s))
        },
    }
}

/// The first position of `id` in `list`.
fn index_in(list: &[ModId], id: &ModId) -> (r: Option<usize>)
    ensures
        match r {
            Some(i) => i < list@.len() && id_views(list@).contains(id@) && i == first_at(id_views(list@), id@),
            None => !id_views(list@).contains(id@),
        },
{
    let ghost v = id_views(list@);
    for i in 0..list.len()
        invariant
            v == id_views(list@),
            forall|j: int| 0 <= j < i ==> v[j] != id@,
    {
        if list[i].same(id) {
            proof {
                lemma_first_at(v, id@, i as int);
            }
            assert(v[i as int] == id@);
            return Some(i);
        }
    }
    None
}

/// What a key press does to the lists: the new selection and the action to
/// carry out. `active` and `inactive` are the lists as shown.
pub fn navigate(profile: &Profile, db: &ModDb, selected: &Option<ModId>, active: &[ModId], inactive: &[ModId], keys: Keys) -> (r: (
    Option<ModId>,
    Option<Action>,
))
    requires
        db.wf(),
    ensures
        ({
            let sel = opt_id(*selected);
            let in_active = sel matches Some(s) && profile@.contains(s);
            let core = sel matches Some(s) && is_core_id(*db, s);
            &&& opt_id(r.0) == nav_selection(keys, sel, in_active, id_views(active@), id_views(inactive@))
            &&& nav_of(r.1) == nav_action(keys, sel, in_active, core)
            &&& r.1.is_some() == nav_action(keys, sel, in_active, core).is_some()
        }),
{
    let arrow = keys.up || keys.down;
    let s = match selected {
        None => {
            let sel = if !arrow {
                None
            } else if inactive.len() > 0 {
                Some(inactive[0].copy())
            } else if active.len() > 0 {
                Some(active[0].copy())
            } else {
                None
            };
            return (sel, None);
        },
        Some(s) => s,
    };
    let in_active = profile.is_active(s);
    if keys.ctrl && in_active && keys.up {
        return (Some(s.copy()), Some(Action::MoveUp(s.copy())));
    }
    if keys.ctrl && in_active && keys.down {
        return (Some(s.copy()), Some(Action::MoveDown(s.copy())));
    }
    let list = if in_active { active } else { inactive };
    if arrow {
        if list.len() == 0 {
            return (Some(s.copy()), None);
        }
        let p = match index_in(list, s) {
            Some(p) => if keys.up {
                if p > 0 { p - 1 } else { 0 }
            } else if p + 1 < list.len() {
                p + 1
            } else {
                list.len() - 1
            },
            None => 0,
        };
        return (Some(list[p].copy()), None);
    }
    if !keys.enter {
        return (Some(s.copy()), None);
    }
    if in_active {
        if is_core(db, s) {
            (Some(s.copy()), None)
        } else {
            (Some(s.copy()), Some(Action::Deactivate(s.copy())))
        }
    } else {
        (Some(s.copy()), Some(Action::Activate(s.copy())))
    }
}

} // verus!
