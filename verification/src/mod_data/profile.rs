//! The active build: which mods are enabled and in which load order.

use vstd::prelude::*;
use super::db::ModDb;
use super::mod_id::ModId;

verus! {

broadcast use vstd::seq_lib::group_seq_properties;

/// The active build: which mods are enabled and in which order they load.
///
/// The order of `order` is the load order; it is what goes into
/// `<activeMods>` of ModsConfig.xml. A mod is active exactly when it is in
/// the order, and no mod is in it twice.
#[derive(Debug, Default)]
pub struct Profile {
    order: Vec<ModId>,
}

/// The identifiers of a list of mod ids.
pub open spec fn id_views(s: Seq<ModId>) -> Seq<Seq<char>> {
    s.map_values(|m: ModId| m@)
}

/// Whether `id` is in `list`.
pub fn list_has(list: &[ModId], id: &ModId) -> (r: bool)
    ensures
        r == id_views(list@).contains(id@),
{
    for i in 0..list.len()
        invariant
            forall|j: int| 0 <= j < i ==> #[trigger] id_views(list@)[j] != id@,
    {
        if list[i].same(id) {
            assert(id_views(list@)[i as int] == id@);
            return true;
        }
    }
    false
}

/// A copy of a list of identifiers.
pub fn copy_ids(list: &[ModId]) -> (r: Vec<ModId>)
    ensures
        id_views(r@) == id_views(list@),
{
    let mut out: Vec<ModId> = Vec::new();
    for i in 0..list.len()
        invariant
            id_views(out@) == id_views(list@).take(i as int),
    {
        let ghost before = id_views(out@);
        out.push(list[i].copy());
        assert(id_views(out@) =~= before.push(list@[i as int]@));
        assert(id_views(list@).take(i + 1) =~= id_views(list@).take(i as int).push(list@[i as int]@));
    }
    assert(id_views(list@).take(list.len() as int) == id_views(list@));
    out
}

/// Whether two lists hold the same identifiers in the same order.
pub fn same_ids(a: &[ModId], b: &[ModId]) -> (r: bool)
    ensures
        r == (id_views(a@) == id_views(b@)),
{
    if a.len() != b.len() {
        assert(id_views(a@).len() != id_views(b@).len());
        return false;
    }
    for i in 0..a.len()
        invariant
            a.len() == b.len(),
            forall|j: int| 0 <= j < i ==> #[trigger] id_views(a@)[j] == id_views(b@)[j],
    {
        if !a[i].same(&b[i]) {
            assert(id_views(a@)[i as int] != id_views(b@)[i as int]);
            return false;
        }
    }
    assert(id_views(a@) =~= id_views(b@));
    true
}

/// `x` switched on: appended unless already there.
pub open spec fn with_active(v: Seq<Seq<char>>, x: Seq<char>) -> Seq<Seq<char>> {
    if v.contains(x) { v } else { v.push(x) }
}

/// Every identifier but `x`.
pub open spec fn other_than(x: Seq<char>) -> spec_fn(Seq<char>) -> bool {
    |y: Seq<char>| y != x
}

/// `x` switched off.
pub open spec fn without(v: Seq<Seq<char>>, x: Seq<char>) -> Seq<Seq<char>> {
    v.filter(other_than(x))
}

/// `x` moved to position `pos` (clamped to the last one); unchanged when
/// `x` is not in `v`.
pub open spec fn moved_to(v: Seq<Seq<char>>, x: Seq<char>, pos: int) -> Seq<Seq<char>> {
    if !v.contains(x) {
        v
    } else {
        let from = v.index_of(x);
        let to = if pos < v.len() - 1 { pos } else { v.len() - 1 };
        v.remove(from).insert(to, x)
    }
}

/// `x` switched on at position `pos` (clamped to the end); an active `x`
/// is moved there instead.
pub open spec fn activated_at(v: Seq<Seq<char>>, x: Seq<char>, pos: int) -> Seq<Seq<char>> {
    if v.contains(x) {
        moved_to(v, x, pos)
    } else {
        v.insert(if pos < v.len() { pos } else { v.len() as int }, x)
    }
}

/// `x` swapped with its predecessor; unchanged when first or absent.
pub open spec fn moved_up(v: Seq<Seq<char>>, x: Seq<char>) -> Seq<Seq<char>> {
    if v.contains(x) && v.index_of(x) > 0 {
        let p = v.index_of(x);
        v.update(p, v[p - 1]).update(p - 1, x)
    } else {
        v
    }
}

/// `x` swapped with its successor; unchanged when last or absent.
pub open spec fn moved_down(v: Seq<Seq<char>>, x: Seq<char>) -> Seq<Seq<char>> {
    if v.contains(x) && v.index_of(x) + 1 < v.len() {
        let p = v.index_of(x);
        v.update(p, v[p + 1]).update(p + 1, x)
    } else {
        v
    }
}

/// The build made from a list file: each line resolved through the
/// catalogue, unknown lines dropped, repeats ignored.
pub open spec fn from_lines(db: ModDb, lines: Seq<Seq<char>>) -> Seq<Seq<char>>
    decreases lines.len(),
{
    if lines.len() == 0 {
        Seq::empty()
    } else {
        let prev = from_lines(db, lines.drop_last());
        match db.resolved(lines.last()) {
            Some(x) => with_active(prev, x),
            None => prev,
        }
    }
}

impl View for Profile {
    type V = Seq<Seq<char>>;

    closed spec fn view(&self) -> Seq<Seq<char>> {
        id_views(self.order@)
    }
}

impl Profile {
    /// The identifiers in load order, as values.
    pub closed spec fn mods(&self) -> Seq<ModId> {
        self.order@
    }

    /// The view is the identifiers' text.
    pub proof fn lemma_view(&self)
        ensures
            self@ == id_views(self.mods()),
    {
    }

    /// No mod occurs twice in the load order.
    pub open spec fn wf(&self) -> bool {
        self@.no_duplicates()
    }

    pub fn new() -> (r: Profile)
        ensures
            r.wf(),
            r@ == Seq::<Seq<char>>::empty(),
    {
        let r = Profile { order: Vec::new() };
        assert(r@ =~= Seq::<Seq<char>>::empty());
        r
    }

    pub fn is_active(&self, id: &ModId) -> (r: bool)
        ensures
            r == self@.contains(id@),
    {
        self.position(id).is_some()
    }

    /// The identifiers in load order.
    pub fn order(&self) -> (r: &[ModId])
        ensures
            id_views(r@) == self@,
    {
        self.order.as_slice()
    }

    pub fn len(&self) -> (r: usize)
        ensures
            r == self@.len(),
    {
        self.order.len()
    }

    pub fn is_empty(&self) -> (r: bool)
        ensures
            r == (self@.len() == 0),
    {
        self.order.len() == 0
    }

    pub fn position(&self, id: &ModId) -> (r: Option<usize>)
        ensures
            match r {
                Some(i) => i < self@.len() && self@[i as int] == id@
                    && forall|j: int| 0 <= j < i ==> self@[j] != id@,
                None => !self@.contains(id@),
            },
    {
        for i in 0..self.order.len()
            invariant
                forall|j: int| 0 <= j < i ==> self@[j] != id@,
        {
            if self.order[i].same(id) {
                return Some(i);
            }
        }
        None
    }

    /// Switches a mod on at the end of the load order. Idempotent.
    pub fn activate(&mut self, id: ModId)
        requires
            old(self).wf(),
        ensures
            final(self).wf(),
            final(self)@ == with_active(old(self)@, id@),
    {
        if self.position(&id).is_none() {
            self.order.push(id);
            assert(self@ =~= old(self)@.push(id@));
        }
    }

    /// Builds the profile from the lines of a list (ModsConfig.xml or a
    /// list file). Lines are resolved through the catalogue, so packageIds
    /// and numeric Workshop IDs both work; unknown and repeated lines are
    /// dropped: only what is installed can be enabled.
    pub fn from_raw_ids(raw: &[String], db: &ModDb) -> (r: Profile)
        requires
            db.wf(),
        ensures
            r.wf(),
            r@ == from_lines(*db, raw.deep_view()),
    {
        let mut p = Profile::new();
        let ghost lines = raw.deep_view();
        for i in 0..raw.len()
            invariant
                lines == raw.deep_view(),
                p.wf(),
                p@ == from_lines(*db, lines.take(i as int)),
        {
            proof {
                assert(lines.take(i + 1).drop_last() == lines.take(i as int));
                assert(lines.take(i + 1).last() == raw[i as int]@);
            }
            match db.resolve(raw[i].as_str()) {
                Some(id) => p.activate(id),
                None => {},
            }
        }
        assert(lines.take(raw.len() as int) == lines);
        p
    }

    /// Switches a mod on at position `pos` (drag and drop from the list of
    /// inactive mods); an active mod is moved there instead.
    pub fn activate_at(&mut self, id: ModId, pos: usize)
        requires
            old(self).wf(),
        ensures
            final(self).wf(),
            final(self)@ == activated_at(old(self)@, id@, pos as int),
    {
        if self.position(&id).is_none() {
            let at = if pos < self.order.len() { pos } else { self.order.len() };
            let ghost x = id@;
            self.order.insert(at, id);
            proof {
                assert(self@ =~= old(self)@.insert(at as int, x));
                lemma_insert_no_duplicates(old(self)@, at as int, x);
            }
        } else {
            self.move_to(&id, pos);
        }
    }

    /// Switches a mod off.
    pub fn deactivate(&mut self, id: &ModId)
        requires
            old(self).wf(),
        ensures
            final(self).wf(),
            final(self)@ == without(old(self)@, id@),
    {
        let ghost pred = other_than(id@);
        let ghost v = old(self)@;
        let mut kept: Vec<ModId> = Vec::new();
        for i in 0..self.order.len()
            invariant
                pred == other_than(id@),
                v == self@,
                id_views(kept@) == v.take(i as int).filter(pred),
        {
            proof {
                assert(v.take(i + 1) == v.take(i as int).push(v[i as int]));
                v.take(i as int).lemma_filter_push(v[i as int], pred);
            }
            if !self.order[i].same(id) {
                let ghost before = id_views(kept@);
                kept.push(self.order[i].copy());
                assert(id_views(kept@) =~= before.push(v[i as int]));
            }
        }
        assert(v.take(self.order.len() as int) == v);
        self.order = kept;
        proof {
            lemma_filter_no_duplicates(v, pred);
        }
    }

    /// Switches every mod off.
    pub fn clear(&mut self)
        ensures
            final(self).wf(),
            final(self)@ == Seq::<Seq<char>>::empty(),
    {
        self.order.clear();
        assert(self@ =~= Seq::<Seq<char>>::empty());
    }

    /// Keeps only the mods for which `keep` answers `true`, in their order.
    pub fn retain<F: Fn(&ModId) -> bool>(&mut self, keep: F)
        requires
            old(self).wf(),
            forall|m: &ModId| #[trigger] keep.requires((m,)),
        ensures
            final(self).wf(),
            exists|flags: Seq<bool>|
                #![trigger picked(old(self)@, flags)]
                flags.len() == old(self)@.len()
                && (forall|i: int| 0 <= i < flags.len() ==> #[trigger] keep.ensures((&old(self).mods()[i],), flags[i]))
                && final(self)@ == picked(old(self)@, flags),
    {
        let ghost v = old(self)@;
        let ghost mut flags: Seq<bool> = Seq::empty();
        let mut kept: Vec<ModId> = Vec::new();
        for i in 0..self.order.len()
            invariant
                v == self@,
                v == old(self)@,
                self.order@ == old(self).order@,
                forall|m: &ModId| #[trigger] keep.requires((m,)),
                flags.len() == i,
                forall|j: int| 0 <= j < i ==> #[trigger] keep.ensures((&self.order@[j],), flags[j]),
                id_views(kept@) == picked(v.take(i as int), flags),
        {
            let b = keep(&self.order[i]);
            proof {
                assert(v.take(i + 1).drop_last() == v.take(i as int));
                assert(flags.push(b).drop_last() == flags);
                assert(v.take(i + 1).last() == v[i as int]);
            }
            if b {
                let ghost before = id_views(kept@);
                kept.push(self.order[i].copy());
                assert(id_views(kept@) =~= before.push(v[i as int]));
            }
            proof {
                flags = flags.push(b);
            }
        }
        assert(v.take(self.order.len() as int) == v);
        self.order = kept;
        proof {
            lemma_picked_no_duplicates(v, flags);
            assert(picked(v, flags) == picked(v, flags));
        }
    }

    /// Moves a mod to position `pos` of the load order (clamped to the last
    /// position). An inactive mod is left alone.
    pub fn move_to(&mut self, id: &ModId, pos: usize)
        requires
            old(self).wf(),
        ensures
            final(self).wf(),
            final(self)@ == moved_to(old(self)@, id@, pos as int),
    {
        let from = match self.position(id) {
            Some(f) => f,
            None => return,
        };
        let to = if pos < self.order.len() - 1 { pos } else { self.order.len() - 1 };
        let ghost v = old(self)@;
        proof {
            lemma_index_of_unique(v, from as int);
        }
        if from == to {
            assert(v.remove(from as int).insert(to as int, id@) =~= v);
            return;
        }
        let entry = self.order.remove(from);
        self.order.insert(to, entry);
        proof {
            assert(self@ =~= v.remove(from as int).insert(to as int, id@));
            lemma_remove_insert_no_duplicates(v, from as int, to as int);
        }
    }

    /// Swaps a mod with its predecessor; the first mod stays where it is.
    pub fn move_up(&mut self, id: &ModId)
        requires
            old(self).wf(),
        ensures
            final(self).wf(),
            final(self)@ == moved_up(old(self)@, id@),
    {
        if let Some(pos) = self.position(id) {
            let ghost v = old(self)@;
            proof {
                lemma_index_of_unique(v, pos as int);
            }
            if pos > 0 {
                let entry = self.order.remove(pos);
                self.order.insert(pos - 1, entry);
                proof {
                    assert(self@ =~= v.update(pos as int, v[pos - 1]).update(pos - 1, id@));
                    lemma_swap_no_duplicates(v, pos - 1);
                }
            }
        }
    }

    /// Swaps a mod with its successor; the last mod stays where it is.
    pub fn move_down(&mut self, id: &ModId)
        requires
            old(self).wf(),
        ensures
            final(self).wf(),
            final(self)@ == moved_down(old(self)@, id@),
    {
        if let Some(pos) = self.position(id) {
            let ghost v = old(self)@;
            proof {
                lemma_index_of_unique(v, pos as int);
            }
            assert(pos < self.order.len());
            if pos + 1 < self.order.len() {
                let entry = self.order.remove(pos);
                self.order.insert(pos + 1, entry);
                proof {
                    assert(self@ =~= v.update(pos as int, v[pos + 1]).update(pos + 1, id@));
                    lemma_swap_no_duplicates(v, pos as int);
                }
            }
        }
    }

    /// Replaces the whole order (a sorting result). The set of active mods
    /// must stay the same.
    pub fn set_order(&mut self, order: Vec<ModId>)
        requires
            id_views(order@).no_duplicates(),
            order@.len() == old(self)@.len(),
            forall|x: Seq<char>| old(self)@.contains(x) ==> id_views(order@).contains(x),
        ensures
            final(self).wf(),
            final(self)@ == id_views(order@),
    {
        self.order = order;
    }
}

/// The elements of `v` whose flag is set, in order.
pub open spec fn picked(v: Seq<Seq<char>>, flags: Seq<bool>) -> Seq<Seq<char>>
    decreases v.len(),
{
    if v.len() == 0 || flags.len() < v.len() {
        Seq::empty()
    } else {
        let prev = picked(v.drop_last(), flags.take(v.len() - 1));
        if flags[v.len() - 1] { prev.push(v.last()) } else { prev }
    }
}

proof fn lemma_index_of_unique(v: Seq<Seq<char>>, i: int)
    requires
        v.no_duplicates(),
        0 <= i < v.len(),
    ensures
        v.contains(v[i]),
        v.index_of(v[i]) == i,
{
    assert(v.contains(v[i]));
    let j = v.index_of(v[i]);
    assert(v[j] == v[i]);
}

proof fn lemma_insert_no_duplicates(v: Seq<Seq<char>>, at: int, x: Seq<char>)
    requires
        v.no_duplicates(),
        !v.contains(x),
        0 <= at <= v.len(),
    ensures
        v.insert(at, x).no_duplicates(),
{
    let w = v.insert(at, x);
    assert forall|i: int, j: int| 0 <= i < w.len() && 0 <= j < w.len() && i != j implies w[i] != w[j] by {
        if i == at {
            assert(w[j] == (if j < at { v[j] } else { v[j - 1] }));
        } else if j == at {
            assert(w[i] == (if i < at { v[i] } else { v[i - 1] }));
        }
    }
}

pub(crate) proof fn lemma_filter_no_duplicates(v: Seq<Seq<char>>, pred: spec_fn(Seq<char>) -> bool)
    requires
        v.no_duplicates(),
    ensures
        v.filter(pred).no_duplicates(),
    decreases v.len(),
{
    if v.len() > 0 {
        let u = v.drop_last();
        assert(u.push(v.last()) == v);
        assert(u.no_duplicates());
        lemma_filter_no_duplicates(u, pred);
        u.lemma_filter_push(v.last(), pred);
        assert(!u.contains(v.last()));
        if pred(v.last()) {
            if u.filter(pred).contains(v.last()) {
                u.lemma_filter_contains_rev(pred, v.last());
            }
            lemma_insert_no_duplicates(u.filter(pred), u.filter(pred).len() as int, v.last());
            assert(u.filter(pred).insert(u.filter(pred).len() as int, v.last()) =~= u.filter(pred).push(v.last()));
        }
    }
}

proof fn lemma_picked_subset(v: Seq<Seq<char>>, flags: Seq<bool>, x: Seq<char>)
    requires
        picked(v, flags).contains(x),
    ensures
        v.contains(x),
    decreases v.len(),
{
    if v.len() > 0 && flags.len() >= v.len() {
        let u = v.drop_last();
        let prev = picked(u, flags.take(v.len() - 1));
        if flags[v.len() - 1] && x == v.last() {
            assert(v[v.len() - 1] == x);
        } else {
            let k = choose|k: int| 0 <= k < picked(v, flags).len() && picked(v, flags)[k] == x;
            assert(prev[k] == x);
            lemma_picked_subset(u, flags.take(v.len() - 1), x);
            let j = choose|j: int| 0 <= j < u.len() && u[j] == x;
            assert(v[j] == x);
        }
    }
}

/// What [`Profile::retain`] keeps of a build is exactly the mods whose
/// answer was `true`: the `i`-th mod is kept if and only if its flag is set.
pub proof fn law_retain_keeps_the_chosen(v: Seq<Seq<char>>, flags: Seq<bool>, i: int)
    requires
        v.no_duplicates(),
        flags.len() == v.len(),
        0 <= i < v.len(),
    ensures
        picked(v, flags).contains(v[i]) == flags[i],
    decreases v.len(),
{
    let u = v.drop_last();
    let f = flags.take(v.len() - 1);
    let prev = picked(u, f);
    if i == v.len() - 1 {
        if prev.contains(v.last()) {
            lemma_picked_subset(u, f, v.last());
            let j = choose|j: int| 0 <= j < u.len() && u[j] == v.last();
            assert(v[j] == v[v.len() - 1]);
        }
        if flags[i] {
            assert(prev.push(v.last())[prev.len() as int] == v[i]);
        }
    } else {
        assert(u[i] == v[i] && f[i] == flags[i]);
        law_retain_keeps_the_chosen(u, f, i);
        if flags[v.len() - 1] {
            assert(v.last() != v[i]);
            if prev.contains(v[i]) {
                let k = choose|k: int| 0 <= k < prev.len() && prev[k] == v[i];
                assert(prev.push(v.last())[k] == v[i]);
            }
            if prev.push(v.last()).contains(v[i]) {
                let k = choose|k: int| 0 <= k < prev.len() + 1 && prev.push(v.last())[k] == v[i];
                assert(k < prev.len());
                assert(prev[k] == v[i]);
            }
        }
    }
}

proof fn lemma_picked_no_duplicates(v: Seq<Seq<char>>, flags: Seq<bool>)
    requires
        v.no_duplicates(),
    ensures
        picked(v, flags).no_duplicates(),
    decreases v.len(),
{
    if v.len() > 0 && flags.len() >= v.len() {
        let u = v.drop_last();
        let f = flags.take(v.len() - 1);
        assert(u.push(v.last()) == v);
        lemma_picked_no_duplicates(u, f);
        if flags[v.len() - 1] {
            let prev = picked(u, f);
            if prev.contains(v.last()) {
                lemma_picked_subset(u, f, v.last());
            }
            lemma_insert_no_duplicates(prev, prev.len() as int, v.last());
            assert(prev.insert(prev.len() as int, v.last()) =~= prev.push(v.last()));
        }
    }
}

proof fn lemma_remove_insert_no_duplicates(v: Seq<Seq<char>>, from: int, to: int)
    requires
        v.no_duplicates(),
        0 <= from < v.len(),
        0 <= to < v.len(),
    ensures
        v.remove(from).insert(to, v[from]).no_duplicates(),
{
    let u = v.remove(from);
    assert forall|i: int, j: int| 0 <= i < u.len() && 0 <= j < u.len() && i != j implies u[i] != u[j] by {
        let a = if i < from { i } else { i + 1 };
        let b = if j < from { j } else { j + 1 };
        assert(u[i] == v[a] && u[j] == v[b]);
    }
    assert forall|i: int| 0 <= i < u.len() implies u[i] != v[from] by {
        let a = if i < from { i } else { i + 1 };
        assert(u[i] == v[a]);
    }
    lemma_insert_no_duplicates(u, to, v[from]);
}

proof fn lemma_swap_no_duplicates(v: Seq<Seq<char>>, p: int)
    requires
        v.no_duplicates(),
        0 <= p,
        p + 1 < v.len(),
    ensures
        v.update(p + 1, v[p]).update(p, v[p + 1]).no_duplicates(),
        v.update(p, v[p + 1]).update(p + 1, v[p]).no_duplicates(),
{
    let w = v.update(p + 1, v[p]).update(p, v[p + 1]);
    assert(v.update(p, v[p + 1]).update(p + 1, v[p]) =~= w);
    assert forall|i: int, j: int| 0 <= i < w.len() && 0 <= j < w.len() && i != j implies w[i] != w[j] by {
        let a = if i == p { p + 1 } else if i == p + 1 { p } else { i };
        let b = if j == p { p + 1 } else if j == p + 1 { p } else { j };
        assert(w[i] == v[a] && w[j] == v[b]);
    }
}


/// Switching a mod on twice is the same as switching it on once.
pub proof fn law_activate_idempotent(v: Seq<Seq<char>>, x: Seq<char>)
    ensures
        with_active(with_active(v, x), x) == with_active(v, x),
{
    if !v.contains(x) {
        assert(v.push(x)[v.len() as int] == x);
    }
}

/// Switching an inactive mod on and then off again gives back the build.
pub proof fn law_deactivate_undoes_activate(v: Seq<Seq<char>>, x: Seq<char>)
    requires
        !v.contains(x),
    ensures
        without(with_active(v, x), x) == v,
{
    let pred = other_than(x);
    v.lemma_filter_push(x, pred);
    lemma_filter_keeps_all(v, x);
}

/// Switching a mod off removes it and nothing else; the rest keep their
/// order.
pub proof fn law_deactivate_removes_only_it(v: Seq<Seq<char>>, x: Seq<char>)
    ensures
        !without(v, x).contains(x),
        forall|y: Seq<char>| y != x ==> (without(v, x).contains(y) <==> v.contains(y)),
{
    let pred = other_than(x);
    if without(v, x).contains(x) {
        let k = choose|k: int| 0 <= k < v.filter(pred).len() && v.filter(pred)[k] == x;
        v.lemma_filter_pred(pred, k);
    }
    assert forall|y: Seq<char>| y != x implies (without(v, x).contains(y) <==> v.contains(y)) by {
        if v.contains(y) {
            let j = choose|j: int| 0 <= j < v.len() && v[j] == y;
            v.lemma_filter_contains(pred, j);
        }
        if without(v, x).contains(y) {
            v.lemma_filter_contains_rev(pred, y);
        }
    }
}

/// Moving a mod changes neither the size nor the set of active mods, and
/// puts the mod at the requested position, clamped to the last one.
pub proof fn law_move_keeps_membership(v: Seq<Seq<char>>, x: Seq<char>, pos: int)
    requires
        v.no_duplicates(),
        0 <= pos,
    ensures
        moved_to(v, x, pos).len() == v.len(),
        moved_to(v, x, pos).no_duplicates(),
        forall|y: Seq<char>| #[trigger] moved_to(v, x, pos).contains(y) <==> v.contains(y),
        v.contains(x) ==> moved_to(v, x, pos)[if pos < v.len() - 1 { pos } else { v.len() - 1 }] == x,
{
    if v.contains(x) {
        let from = v.index_of(x);
        let to = if pos < v.len() - 1 { pos } else { v.len() - 1 };
        let u = v.remove(from);
        let w = u.insert(to, x);
        lemma_remove_insert_no_duplicates(v, from, to);
        assert forall|y: Seq<char>| #[trigger] w.contains(y) <==> v.contains(y) by {
            if v.contains(y) {
                let j = choose|j: int| 0 <= j < v.len() && v[j] == y;
                if j < from {
                    assert(u[j] == y);
                    if j < to { assert(w[j] == y); } else { assert(w[j + 1] == y); }
                } else if j > from {
                    assert(u[j - 1] == y);
                    if j - 1 < to { assert(w[j - 1] == y); } else { assert(w[j] == y); }
                } else {
                    assert(w[to] == y);
                }
            }
            if w.contains(y) {
                let k = choose|k: int| 0 <= k < w.len() && w[k] == y;
                if k == to {
                    assert(v[from] == y);
                } else {
                    let i = if k < to { k } else { k - 1 };
                    assert(u[i] == y);
                    if i < from { assert(v[i] == y); } else { assert(v[i + 1] == y); }
                }
            }
        }
    }
}

/// Switching on a mod that is already active only moves it.
pub proof fn law_activate_at_on_active_moves(v: Seq<Seq<char>>, x: Seq<char>, pos: int)
    requires
        v.no_duplicates(),
        v.contains(x),
        0 <= pos,
    ensures
        activated_at(v, x, pos) == moved_to(v, x, pos),
        activated_at(v, x, pos).len() == v.len(),
{
    law_move_keeps_membership(v, x, pos);
}

/// Moving a mod up and then down again gives back the build.
pub proof fn law_move_down_undoes_move_up(v: Seq<Seq<char>>, x: Seq<char>)
    requires
        v.no_duplicates(),
        v.contains(x),
        v.index_of(x) > 0,
    ensures
        moved_down(moved_up(v, x), x) == v,
{
    let p = v.index_of(x);
    let w = v.update(p, v[p - 1]).update(p - 1, x);
    lemma_swap_no_duplicates(v, p - 1);
    assert(v[p] == x);
    assert(w[p - 1] == x);
    lemma_index_of_unique(w, p - 1);
    assert(w.update(p - 1, w[p]).update(p, x) =~= v);
}

proof fn lemma_filter_keeps_all(v: Seq<Seq<char>>, x: Seq<char>)
    requires
        !v.contains(x),
    ensures
        v.filter(other_than(x)) == v,
    decreases v.len(),
{
    let pred = other_than(x);
    if v.len() > 0 {
        let u = v.drop_last();
        assert(u.push(v.last()) == v);
        assert(!u.contains(x)) by {
            if u.contains(x) {
                let j = choose|j: int| 0 <= j < u.len() && u[j] == x;
                assert(v[j] == x);
            }
        }
        lemma_filter_keeps_all(u, x);
        u.lemma_filter_push(v.last(), pred);
        assert(v[v.len() - 1] != x);
    } else {
        assert(v.filter(pred) =~= v);
    }
}

} // verus!
