//! Catalogue of installed mods: one entry per packageId.

use vstd::prelude::*;
use crate::text::{chars_of, lex_lt, parse_u64, parse_u64_chars, seq_lt, trim, trim_chars};
use crate::text::{lemma_seq_lt_total, lemma_seq_lt_transitive, lemma_seq_lt_irreflexive};
use super::mod_entry::{ModEntry, ModSource};
use super::mod_id::{normalize, ModId};

verus! {

broadcast use vstd::seq_lib::group_seq_properties;

/// A mod installed in several places: which copy was kept and which were
/// set aside (they are shown in the duplicates dialog and can be deleted).
#[derive(Clone, Debug)]
pub struct DuplicateGroup {
    pub id: ModId,
    pub kept: String,
    pub discarded: Vec<String>,
}

/// The catalogue: one entry per [`ModId`].
///
/// Copies of one packageId (say, in Mods/ and in the SteamCMD folder)
/// collapse into the first one found, as in the game, where packageIds are
/// unique. The others are remembered in [`ModDb::duplicates`].
pub struct ModDb {
    mods: Vec<ModEntry>,
    duplicates: Vec<DuplicateGroup>,
}

/// The packageIds of a list of entries.
pub open spec fn ids_of(s: Seq<ModEntry>) -> Seq<Seq<char>> {
    s.map_values(|e: ModEntry| e.package_id@)
}

/// The entries [`ModDb::build`] keeps: the first copy of every non-empty
/// packageId, in the order given.
pub open spec fn first_copies(entries: Seq<ModEntry>) -> Seq<ModEntry>
    decreases entries.len(),
{
    if entries.len() == 0 {
        Seq::empty()
    } else {
        let prev = first_copies(entries.drop_last());
        let e = entries.last();
        if e.package_id@.len() > 0 && !ids_of(prev).contains(e.package_id@) {
            prev.push(e)
        } else {
            prev
        }
    }
}

/// All copies of packageId `x`, in the order given.
pub open spec fn copies_of(entries: Seq<ModEntry>, x: Seq<char>) -> Seq<ModEntry> {
    entries.filter(|e: ModEntry| e.package_id@ == x)
}

pub open spec fn paths_of(s: Seq<ModEntry>) -> Seq<Seq<char>> {
    s.map_values(|e: ModEntry| e.path@)
}

/// `g` records the copies of its packageId in `entries`: the first one is
/// kept, the rest are discarded.
pub open spec fn group_of(entries: Seq<ModEntry>, g: DuplicateGroup) -> bool {
    let c = copies_of(entries, g.id@);
    &&& g.id@.len() > 0
    &&& c.len() >= 2
    &&& g.kept@ == c[0].path@
    &&& g.discarded.deep_view() == paths_of(c).drop_first()
}

/// The duplicate groups of `entries`: one per packageId that occurs more than
/// once, ordered by packageId.
pub open spec fn duplicates_of(entries: Seq<ModEntry>, groups: Seq<DuplicateGroup>) -> bool {
    &&& forall|i: int| 0 <= i < groups.len() ==> group_of(entries, #[trigger] groups[i])
    &&& forall|i: int, j: int|
        0 <= i < j < groups.len() ==> seq_lt(#[trigger] groups[i].id@, #[trigger] groups[j].id@)
    &&& forall|x: Seq<char>|
        x.len() > 0 && #[trigger] copies_of(entries, x).len() >= 2 ==> exists|i: int|
            0 <= i < groups.len() && #[trigger] groups[i].id@ == x
}

impl ModDb {
    /// The entries, one per packageId.
    pub closed spec fn entries(&self) -> Seq<ModEntry> {
        self.mods@
    }

    pub closed spec fn groups(&self) -> Seq<DuplicateGroup> {
        self.duplicates@
    }

    /// Every entry has a packageId, and no two share one.
    pub open spec fn wf(&self) -> bool {
        &&& forall|i: int| 0 <= i < self.entries().len() ==> #[trigger] self.entries()[i].package_id@.len() > 0
        &&& ids_of(self.entries()).no_duplicates()
    }

    /// What [`ModDb::resolve`] makes of a line of a mod list.
    pub open spec fn resolved(&self, raw: Seq<char>) -> Option<Seq<char>> {
        if ids_of(self.entries()).contains(normalize(raw)) {
            Some(normalize(raw))
        } else {
            match parse_u64(trim(raw)) {
                Some(wid) => self.workshop_owner(wid),
                None => None,
            }
        }
    }

    /// The entry with packageId `x`, if any.
    pub open spec fn lookup(&self, x: Seq<char>) -> Option<ModEntry> {
        if ids_of(self.entries()).contains(x) {
            Some(self.entries()[ids_of(self.entries()).index_of(x)])
        } else {
            None
        }
    }

    /// The packageId registered for Workshop item `wid`: the last entry
    /// from that item wins, as in a map filled in order.
    pub open spec fn workshop_owner(&self, wid: u64) -> Option<Seq<char>> {
        let hits = self.entries().filter(|e: ModEntry| e.source == ModSource::Workshop(wid));
        if hits.len() > 0 {
            Some(hits.last().package_id@)
        } else {
            None
        }
    }

    pub fn empty() -> (r: ModDb)
        ensures
            r.wf(),
            r.entries().len() == 0,
            r.groups().len() == 0,
    {
        ModDb { mods: Vec::new(), duplicates: Vec::new() }
    }

    /// Position of the entry with packageId `id`.
    fn position(&self, id: &ModId) -> (r: Option<usize>)
        ensures
            match r {
                Some(i) => i < self.entries().len() && self.entries()[i as int].package_id@ == id@,
                None => !ids_of(self.entries()).contains(id@),
            },
    {
        for i in 0..self.mods.len()
            invariant
                forall|j: int| 0 <= j < i ==> self.entries()[j].package_id@ != id@,
        {
            if self.mods[i].package_id.same(id) {
                return Some(i);
            }
        }
        proof {
            if ids_of(self.entries()).contains(id@) {
                let j = choose|j: int| 0 <= j < ids_of(self.entries()).len() && ids_of(self.entries())[j] == id@;
                assert(self.entries()[j].package_id@ == id@);
            }
        }
        None
    }

    /// Builds the catalogue from scan results.
    ///
    /// The order of `entries` decides which copy is canonical; the scanner
    /// lists Core and DLC first, so vanilla content never loses to a copy
    /// from the Workshop.
    pub fn build(entries: Vec<ModEntry>) -> (r: ModDb)
        ensures
            r.wf(),
            r.entries() == first_copies(entries@),
            duplicates_of(entries@, r.groups()),
    {
        let mut db = ModDb::empty();
        let ghost all = entries@;
        for e in it: entries
            invariant
                all == it.seq(),
                db.wf(),
                db.entries() == first_copies(all.take(it.index() as int)),
                duplicates_of(all.take(it.index() as int), db.groups()),
        {
            let ghost k = it.index() as int;
            let ghost prev = all.take(k);
            let ghost ge = e;
            proof {
                assert(all.take(k + 1) == prev.push(e));
                assert(all.take(k + 1).drop_last() == prev);
                assert forall|x: Seq<char>| #[trigger] copies_of(all.take(k + 1), x)
                    == (if e.package_id@ == x { copies_of(prev, x).push(e) } else { copies_of(prev, x) })
                by {
                    lemma_copies_push(prev, e, x);
                }
            }
            if e.package_id.is_empty() {
                proof {
                    assert(duplicates_of(all.take(k + 1), db.groups())) by {
                        assert forall|i: int| 0 <= i < db.groups().len() implies group_of(all.take(k + 1), #[trigger] db.groups()[i]) by {
                            assert(copies_of(all.take(k + 1), db.groups()[i].id@) == copies_of(prev, db.groups()[i].id@));
                        }
                        assert forall|x: Seq<char>| x.len() > 0 && #[trigger] copies_of(all.take(k + 1), x).len() >= 2 implies exists|i: int|
                            0 <= i < db.groups().len() && #[trigger] db.groups()[i].id@ == x by {
                            assert(copies_of(all.take(k + 1), x) == copies_of(prev, x));
                        }
                    }
                }
            } else {
                match db.position(&e.package_id) {
                    None => {
                        proof {
                            lemma_first_copies(prev, e.package_id@);
                        }
                        db.mods.push(e);
                        proof {
                            assert(ids_of(db.entries()) == ids_of(first_copies(prev)).push(e.package_id@));
                            assert forall|i: int| 0 <= i < db.groups().len() implies group_of(all.take(k + 1), #[trigger] db.groups()[i]) by {
                                assert(copies_of(all.take(k + 1), db.groups()[i].id@) == copies_of(prev, db.groups()[i].id@));
                            }
                            assert forall|x: Seq<char>| x.len() > 0 && #[trigger] copies_of(all.take(k + 1), x).len() >= 2 implies exists|i: int|
                                0 <= i < db.groups().len() && #[trigger] db.groups()[i].id@ == x by {
                                if x == ge.package_id@ {
                                    assert(copies_of(all.take(k + 1), x) == copies_of(prev, x).push(ge));
                                    assert(copies_of(prev, x).len() == 0);
                                } else {
                                    assert(copies_of(all.take(k + 1), x) == copies_of(prev, x));
                                    assert(duplicates_of(prev, db.groups()));
                                    let i = choose|i: int| 0 <= i < db.groups().len() && #[trigger] db.groups()[i].id@ == x;
                                    assert(db.groups()[i].id@ == x);
                                }
                            }
                        }
                    },
                    Some(kept_at) => {
                        proof {
                            assert(ids_of(db.entries())[kept_at as int] == e.package_id@);
                            lemma_first_copies(prev, e.package_id@);
                            assert(all.take(k + 1).last() == e);
                        }
                        let path = e.path;
                        let id = e.package_id;
                        db.record_duplicate(id, path, kept_at, Ghost(prev), Ghost(e));
                        proof {
                            assert(first_copies(all.take(k + 1)) == first_copies(prev));
                        }
                    },
                }
            }
        }
        proof {
            assert(all.take(all.len() as int) == all);
        }
        db
    }

    /// The entry with packageId `id`.
    pub fn get(&self, id: &ModId) -> (r: Option<&ModEntry>)
        requires
            self.wf(),
        ensures
            match r {
                Some(e) => self.lookup(id@) == Some(*e),
                None => self.lookup(id@).is_none(),
            },
    {
        match self.position(id) {
            Some(i) => {
                proof {
                    assert(ids_of(self.entries())[i as int] == id@);
                    assert(ids_of(self.entries()).index_of(id@) == i);
                }
                Some(&self.mods[i])
            },
            None => None,
        }
    }

    pub fn contains(&self, id: &ModId) -> (r: bool)
        ensures
            r == ids_of(self.entries()).contains(id@),
    {
        let p = self.position(id);
        proof {
            if p.is_some() {
                assert(ids_of(self.entries())[p.unwrap() as int] == id@);
            }
        }
        p.is_some()
    }

    /// All entries, in catalogue order.
    pub fn iter(&self) -> (r: &[ModEntry])
        ensures
            r@ == self.entries(),
    {
        self.mods.as_slice()
    }

    /// All packageIds, in catalogue order.
    pub fn ids(&self) -> (r: Vec<ModId>)
        ensures
            r.deep_view() == ids_of(self.entries()),
    {
        let mut out: Vec<ModId> = Vec::new();
        for i in 0..self.mods.len()
            invariant
                out.deep_view() == ids_of(self.entries().take(i as int)),
        {
            let ghost before = out.deep_view();
            out.push(self.mods[i].package_id.copy());
            assert(self.entries().take(i + 1) == self.entries().take(i as int).push(self.entries()[i as int]));
            assert(out.deep_view() =~= before.push(self.entries()[i as int].package_id@));
            assert(ids_of(self.entries().take(i + 1)) =~= ids_of(self.entries().take(i as int)).push(self.entries()[i as int].package_id@));
        }
        assert(self.entries().take(self.mods.len() as int) == self.entries());
        out
    }

    pub fn len(&self) -> (r: usize)
        ensures
            r == self.entries().len(),
    {
        self.mods.len()
    }

    pub fn is_empty(&self) -> (r: bool)
        ensures
            r == (self.entries().len() == 0),
    {
        self.mods.len() == 0
    }

    pub fn duplicates(&self) -> (r: &[DuplicateGroup])
        ensures
            r@ == self.groups(),
    {
        self.duplicates.as_slice()
    }

    /// Forgets the duplicates (after their copies were deleted from disk).
    pub fn clear_duplicates(&mut self)
        ensures
            final(self).entries() == old(self).entries(),
            final(self).groups().len() == 0,
    {
        self.duplicates.clear();
    }

    /// Resolves a line of a mod list file into a mod identifier.
    ///
    /// Lists come in two kinds: with packageIds (ModsConfig.xml, RimSort)
    /// and with numeric Workshop IDs; both are supported.
    pub fn resolve(&self, raw: &str) -> (r: Option<ModId>)
        requires
            self.wf(),
        ensures
            match r {
                Some(id) => self.resolved(raw@) == Some(id@),
                None => self.resolved(raw@).is_none(),
            },
    {
        let id = ModId::new(raw);
        if self.contains(&id) {
            return Some(id);
        }
        let cs = chars_of(raw);
        let t = trim_chars(&cs);
        match parse_u64_chars(&t) {
            Some(wid) => self.workshop_lookup(wid),
            None => None,
        }
    }

    fn workshop_lookup(&self, wid: u64) -> (r: Option<ModId>)
        ensures
            match r {
                Some(id) => self.workshop_owner(wid) == Some(id@),
                None => self.workshop_owner(wid).is_none(),
            },
    {
        let ghost pred = |e: ModEntry| e.source == ModSource::Workshop(wid);
        let mut found: Option<usize> = None;
        for i in 0..self.mods.len()
            invariant
                pred == (|e: ModEntry| e.source == ModSource::Workshop(wid)),
                match found {
                    Some(j) => j < i && self.entries().take(i as int).filter(pred).len() > 0
                        && self.entries().take(i as int).filter(pred).last() == self.entries()[j as int],
                    None => self.entries().take(i as int).filter(pred).len() == 0,
                },
        {
            proof {
                reveal(Seq::filter);
                assert(self.entries().take(i + 1).drop_last() == self.entries().take(i as int));
            }
            if let ModSource::Workshop(w) = self.mods[i].source {
                if w == wid {
                    found = Some(i);
                }
            }
        }
        assert(self.entries().take(self.mods.len() as int) == self.entries());
        match found {
            Some(j) => Some(self.mods[j].package_id.copy()),
            None => None,
        }
    }

    /// Notes one more copy of an already catalogued mod.
    fn record_duplicate(
        &mut self,
        id: ModId,
        path: String,
        kept_at: usize,
        Ghost(prev): Ghost<Seq<ModEntry>>,
        Ghost(e): Ghost<ModEntry>,
    )
        requires
            old(self).wf(),
            old(self).entries() == first_copies(prev),
            duplicates_of(prev, old(self).groups()),
            kept_at < old(self).entries().len(),
            old(self).entries()[kept_at as int].package_id@ == id@,
            id@ == e.package_id@,
            path@ == e.path@,
            id@.len() > 0,
            copies_of(prev, id@).len() > 0,
            copies_of(prev, id@)[0] == old(self).entries()[kept_at as int],
        ensures
            final(self).entries() == old(self).entries(),
            duplicates_of(prev.push(e), final(self).groups()),
    {
        let ghost next = prev.push(e);
        proof {
            reveal(Seq::filter);
            assert(next.drop_last() == prev);
            assert forall|x: Seq<char>| #[trigger] copies_of(next, x)
                == (if e.package_id@ == x { copies_of(prev, x).push(e) } else { copies_of(prev, x) })
            by {
                lemma_copies_push(prev, e, x);
            }
        }
        // find the group of `id`, or the place a new one goes
        let idc = chars_of(id.as_str());
        let mut at: usize = 0;
        while at < self.duplicates.len() && lex_lt(chars_of(self.duplicates[at].id.as_str()).as_slice(), idc.as_slice())
            invariant
                at <= self.groups().len(),
                forall|j: int| 0 <= j < at ==> seq_lt(#[trigger] self.groups()[j].id@, id@),
            decreases self.groups().len() - at,
        {
            at = at + 1;
        }
        if at < self.duplicates.len() && self.duplicates[at].id.same(&id) {
            let mut g = self.duplicates.remove(at);
            g.discarded.push(path);
            self.duplicates.insert(at, g);
            proof {
                reveal(Seq::filter);
                let g2 = self.groups()[at as int];
                let c = copies_of(prev, id@);
                assert(paths_of(c.push(e)) == paths_of(c).push(e.path@));
                assert(paths_of(c.push(e)).drop_first() == paths_of(c).drop_first().push(e.path@));
                assert(g2.discarded.deep_view() == paths_of(copies_of(next, id@)).drop_first());
                assert(group_of(next, g2));
                assert forall|i: int| 0 <= i < self.groups().len() implies group_of(next, #[trigger] self.groups()[i]) by {
                    if i != at {
                        assert(self.groups()[i] == old(self).groups()[i]);
                        assert(self.groups()[i].id@ != id@);
                    }
                }
                assert forall|x: Seq<char>| x.len() > 0 && #[trigger] copies_of(next, x).len() >= 2 implies exists|i: int|
                    0 <= i < self.groups().len() && #[trigger] self.groups()[i].id@ == x by {
                    if x != id@ {
                        let i = choose|i: int| 0 <= i < old(self).groups().len() && #[trigger] old(self).groups()[i].id@ == x;
                        assert(self.groups()[i] == old(self).groups()[i]);
                    } else {
                        assert(self.groups()[at as int].id@ == x);
                    }
                }
                assert forall|i: int, j: int| 0 <= i < j < self.groups().len() implies seq_lt(#[trigger] self.groups()[i].id@, #[trigger] self.groups()[j].id@) by {
                    assert(self.groups()[i].id@ == old(self).groups()[i].id@);
                    assert(self.groups()[j].id@ == old(self).groups()[j].id@);
                }
            }
        } else {
            let kept = self.mods[kept_at].path.clone();
            let mut discarded: Vec<String> = Vec::new();
            discarded.push(path);
            let g = DuplicateGroup { id, kept, discarded };
            proof {
                // no group for this id yet: it had a single copy so far
                if copies_of(prev, id@).len() >= 2 {
                    let i = choose|i: int| 0 <= i < old(self).groups().len() && #[trigger] old(self).groups()[i].id@ == id@;
                    if i < at {
                        lemma_seq_lt_irreflexive(id@);
                    } else if i > at {
                        lemma_seq_lt_total(old(self).groups()[at as int].id@, id@);
                        assert(seq_lt(old(self).groups()[at as int].id@, old(self).groups()[i].id@));
                        lemma_seq_lt_total(old(self).groups()[at as int].id@, id@);
                    }
                }
                reveal(Seq::filter);
                let c = copies_of(prev, id@);
                assert(c.len() == 1);
                assert(paths_of(c.push(e)) =~= seq![c[0].path@, e.path@]);
                assert(g.discarded.deep_view() =~= seq![e.path@]);
                assert(copies_of(next, id@) == c.push(e));
                assert(paths_of(c.push(e)).drop_first() =~= seq![e.path@]);
                assert(group_of(next, g));
            }
            self.duplicates.insert(at, g);
            proof {
                assert forall|i: int| 0 <= i < self.groups().len() implies group_of(next, #[trigger] self.groups()[i]) by {
                    if i < at {
                        assert(self.groups()[i] == old(self).groups()[i]);
                        assert(seq_lt(self.groups()[i].id@, id@));
                        lemma_seq_lt_irreflexive(id@);
                    } else if i > at {
                        assert(self.groups()[i] == old(self).groups()[i - 1]);
                        if self.groups()[i].id@ == id@ {
                            assert(copies_of(prev, id@).len() >= 2);
                        }
                    }
                }
                assert forall|x: Seq<char>| x.len() > 0 && #[trigger] copies_of(next, x).len() >= 2 implies exists|i: int|
                    0 <= i < self.groups().len() && #[trigger] self.groups()[i].id@ == x by {
                    if x != id@ {
                        let i = choose|i: int| 0 <= i < old(self).groups().len() && #[trigger] old(self).groups()[i].id@ == x;
                        if i < at {
                            assert(self.groups()[i] == old(self).groups()[i]);
                        } else {
                            assert(self.groups()[i + 1] == old(self).groups()[i]);
                        }
                    } else {
                        assert(self.groups()[at as int].id@ == x);
                    }
                }
                assert forall|i: int, j: int| 0 <= i < j < self.groups().len() implies seq_lt(#[trigger] self.groups()[i].id@, #[trigger] self.groups()[j].id@) by {
                    if j == at {
                        assert(self.groups()[i] == old(self).groups()[i]);
                    } else if i == at {
                        assert(self.groups()[j] == old(self).groups()[j - 1]);
                        if at < old(self).groups().len() {
                            lemma_seq_lt_total(old(self).groups()[at as int].id@, id@);
                            if j - 1 > at {
                                lemma_seq_lt_transitive(id@, old(self).groups()[at as int].id@, old(self).groups()[j - 1].id@);
                            }
                        }
                    } else if i < at && j > at {
                        assert(self.groups()[i] == old(self).groups()[i]);
                        assert(self.groups()[j] == old(self).groups()[j - 1]);
                    } else if i > at {
                        assert(self.groups()[i] == old(self).groups()[i - 1]);
                        assert(self.groups()[j] == old(self).groups()[j - 1]);
                    } else {
                        assert(self.groups()[i] == old(self).groups()[i]);
                        assert(self.groups()[j] == old(self).groups()[j]);
                    }
                }
            }
        }
    }
}

/// Filtering a list with one more element at the end.
proof fn lemma_copies_push(prev: Seq<ModEntry>, e: ModEntry, x: Seq<char>)
    ensures
        copies_of(prev.push(e), x)
            == (if e.package_id@ == x { copies_of(prev, x).push(e) } else { copies_of(prev, x) }),
{
    reveal(Seq::filter);
    assert(prev.push(e).drop_last() == prev);
}

/// What [`first_copies`] keeps is the first copy of each packageId, and a
/// packageId is kept exactly when it occurs at all.
proof fn lemma_first_copies(p: Seq<ModEntry>, x: Seq<char>)
    requires
        x.len() > 0,
    ensures
        ids_of(first_copies(p)).contains(x) <==> copies_of(p, x).len() > 0,
        forall|i: int| 0 <= i < first_copies(p).len() && #[trigger] first_copies(p)[i].package_id@ == x
            ==> first_copies(p)[i] == copies_of(p, x)[0],
    decreases p.len(),
{
    reveal(Seq::filter);
    if p.len() > 0 {
        let q = p.drop_last();
        let e = p.last();
        lemma_first_copies(q, x);
        assert(p == q.push(e));
        lemma_copies_push(q, e, x);
        let fq = first_copies(q);
        if e.package_id@.len() > 0 && !ids_of(fq).contains(e.package_id@) {
            assert(ids_of(fq.push(e)) == ids_of(fq).push(e.package_id@));
            if e.package_id@ == x {
                assert(copies_of(q, x).len() == 0);
                assert(copies_of(p, x) == seq![e]);
            }
            assert forall|i: int| 0 <= i < first_copies(p).len() && #[trigger] first_copies(p)[i].package_id@ == x
                implies first_copies(p)[i] == copies_of(p, x)[0] by {
                if i < fq.len() {
                    assert(ids_of(fq)[i] == x);
                    assert(copies_of(q, x).len() > 0);
                }
            }
        } else {
            if e.package_id@ == x {
                assert(ids_of(fq).contains(x));
                assert(copies_of(q, x).len() > 0);
                assert(copies_of(p, x)[0] == copies_of(q, x)[0]);
            }
        }
    } else {
        assert(copies_of(p, x).len() == 0);
    }
}

/// The catalogue that [`ModDb::build`] makes of a scan keeps one entry per
/// packageId, and that is the first copy in the scan: a packageId is known
/// exactly when some entry has it, and its entry is the first one with it.
pub proof fn law_first_copy_is_kept(entries: Seq<ModEntry>, x: Seq<char>)
    requires
        x.len() > 0,
    ensures
        ids_of(first_copies(entries)).no_duplicates(),
        ids_of(first_copies(entries)).contains(x) <==> copies_of(entries, x).len() > 0,
        ids_of(first_copies(entries)).contains(x) ==>
            first_copies(entries)[ids_of(first_copies(entries)).index_of(x)] == copies_of(entries, x)[0],
{
    lemma_first_copies(entries, x);
    lemma_first_copies_wf(entries);
    let f = first_copies(entries);
    if ids_of(f).contains(x) {
        let i = ids_of(f).index_of(x);
        assert(f[i].package_id@ == x);
    }
}

/// The non-empty packageIds of a scan.
pub open spec fn id_set(entries: Seq<ModEntry>) -> Set<Seq<char>> {
    ids_of(entries).to_set().filter(|x: Seq<char>| x.len() > 0)
}

/// The catalogue that [`ModDb::build`] makes of a scan holds each distinct
/// non-empty packageId of the scan once and nothing else, so it counts as
/// many entries as there are such packageIds.
pub proof fn law_catalogue_counts_distinct_ids(entries: Seq<ModEntry>)
    ensures
        ids_of(first_copies(entries)).to_set() == id_set(entries),
        first_copies(entries).len() == id_set(entries).len(),
{
    lemma_first_copies_wf(entries);
    let f = first_copies(entries);
    assert forall|x: Seq<char>| #[trigger] ids_of(f).to_set().contains(x) <==> id_set(entries).contains(x) by {
        if x.len() > 0 {
            lemma_first_copies(entries, x);
            let c = copies_of(entries, x);
            if c.len() > 0 {
                assert(c.contains(c[0]));
                entries.lemma_filter_contains_rev(|e: ModEntry| e.package_id@ == x, c[0]);
                let k = choose|k: int| 0 <= k < entries.len() && entries[k] == c[0];
                entries.lemma_filter_pred(|e: ModEntry| e.package_id@ == x, 0);
                assert(ids_of(entries)[k] == x);
            }
            if ids_of(entries).contains(x) {
                let k = choose|k: int| 0 <= k < ids_of(entries).len() && ids_of(entries)[k] == x;
                entries.lemma_filter_contains(|e: ModEntry| e.package_id@ == x, k);
            }
        } else if ids_of(f).contains(x) {
            let k = choose|k: int| 0 <= k < ids_of(f).len() && ids_of(f)[k] == x;
            assert(f[k].package_id@.len() > 0);
        }
    }
    assert(ids_of(f).to_set() =~= id_set(entries));
    ids_of(f).unique_seq_to_set();
}

/// [`first_copies`] keeps only non-empty packageIds, each once.
proof fn lemma_first_copies_wf(p: Seq<ModEntry>)
    ensures
        forall|i: int| 0 <= i < first_copies(p).len() ==> #[trigger] first_copies(p)[i].package_id@.len() > 0,
        ids_of(first_copies(p)).no_duplicates(),
    decreases p.len(),
{
    if p.len() > 0 {
        let q = p.drop_last();
        let e = p.last();
        lemma_first_copies_wf(q);
        let fq = first_copies(q);
        if e.package_id@.len() > 0 && !ids_of(fq).contains(e.package_id@) {
            assert(ids_of(fq.push(e)) == ids_of(fq).push(e.package_id@));
        }
    }
}

} // verus!

verus! {

impl Default for ModDb {
    fn default() -> (r: ModDb)
        ensures
            r.wf(),
            r.entries().len() == 0,
            r.groups().len() == 0,
    {
        ModDb::empty()
    }
}

} // verus!
