//! User tags on mods: free-form labels with a colour.
//!
//! They are kept apart from the mod catalogue: they are the user's data,
//! not something read from disk. They are bound to [`ModId`], so
//! reinstalling a mod or rescanning a folder does not lose them.

use vstd::prelude::*;
use crate::mod_data::mod_id::{normalize, ModId};
use crate::text::{first_at, lemma_first_at, lemma_first_at_exists, lemma_push_fresh, lowercase, str_eq, to_lower, trim, trim_str};

verus! {

broadcast use vstd::seq_lib::group_seq_properties;

/// A tag's position in [`Tags::all`]. It lives for a session only: on disk
/// tags are stored by name, so the file stays readable and survives a
/// change of order.
#[derive(Clone, Copy, PartialEq, Eq, Debug, Structural)]
pub struct TagId(usize);

impl TagId {
    /// The tag's position; the interface keys its widgets by it.
    pub fn index(self) -> (r: usize)
        ensures
            r == self.at(),
    {
        self.0
    }

    pub closed spec fn at(self) -> int {
        self.0 as int
    }

    /// A tag's position is a `usize`, and two tags are the same exactly when
    /// their positions are.
    pub proof fn lemma_at(self, other: TagId)
        ensures
            0 <= self.at() <= usize::MAX,
            (self.at() == other.at()) == (self == other),
    {
    }
}

pub type Rgb = [u8; 3];

/// How many colours new tags cycle through.
pub const PALETTE_LEN: usize = 8;

/// The colours new tags cycle through, so that neighbouring tags do not
/// share one.
pub open spec fn palette_spec(i: int) -> Rgb {
    if i == 0 {
        [100, 160, 240]
    } else if i == 1 {
        [80, 200, 120]
    } else if i == 2 {
        [240, 180, 60]
    } else if i == 3 {
        [220, 75, 75]
    } else if i == 4 {
        [180, 130, 240]
    } else if i == 5 {
        [90, 200, 200]
    } else if i == 6 {
        [240, 140, 90]
    } else {
        [200, 120, 170]
    }
}

/// Colour `i` of the palette (blue, green, amber, red, violet, teal,
/// orange, pink), for `i` below [`PALETTE_LEN`].
pub fn palette(i: usize) -> (r: Rgb)
    requires
        i < PALETTE_LEN,
    ensures
        r == palette_spec(i as int),
{
    if i == 0 {
        [100, 160, 240]
    } else if i == 1 {
        [80, 200, 120]
    } else if i == 2 {
        [240, 180, 60]
    } else if i == 3 {
        [220, 75, 75]
    } else if i == 4 {
        [180, 130, 240]
    } else if i == 5 {
        [90, 200, 200]
    } else if i == 6 {
        [240, 140, 90]
    } else {
        [200, 120, 170]
    }
}

#[derive(Clone, Debug)]
pub struct Tag {
    pub name: String,
    pub color: Rgb,
}

impl Tag {
    /// A copy of this tag.
    pub fn copy(&self) -> (r: Tag)
        ensures
            r.name@ == self.name@,
            r.color == self.color,
    {
        Tag { name: self.name.clone(), color: self.color }
    }
}

/// Tags as they are written to disk: tags, and for each packageId the
/// names of its tags.
pub struct Stored {
    pub tags: Vec<Tag>,
    pub assigned: Vec<(String, Vec<String>)>,
}

/// The tags of the session and their assignment to mods.
pub struct Tags {
    tags: Vec<Tag>,
    assigned: Vec<(ModId, Vec<usize>)>,
}

pub open spec fn tag_views(s: Seq<Tag>) -> Seq<(Seq<char>, Rgb)> {
    s.map_values(|t: Tag| (t.name@, t.color))
}

/// The first tag whose lowercased name is `needle`.
pub open spec fn first_named(tags: Seq<(Seq<char>, Rgb)>, needle: Seq<char>) -> Option<int>
    decreases tags.len(),
{
    if tags.len() == 0 {
        None
    } else if lowercase(tags[0].0) == needle {
        Some(0)
    } else {
        match first_named(tags.drop_first(), needle) {
            Some(i) => Some(i + 1),
            None => None,
        }
    }
}

/// What [`Tags::find`] answers for `name`: case-insensitive, trimmed.
pub open spec fn found_as(tags: Seq<(Seq<char>, Rgb)>, name: Seq<char>) -> Option<int> {
    first_named(tags, lowercase(trim(name)))
}

spec fn keys_of(s: Seq<(ModId, Vec<usize>)>) -> Seq<Seq<char>> {
    s.map_values(|e: (ModId, Vec<usize>)| e.0@)
}

impl Tags {
    /// The tags, in order.
    pub closed spec fn tags_v(&self) -> Seq<(Seq<char>, Rgb)> {
        tag_views(self.tags@)
    }

    /// The positions of the tags of mod `m`, in the order they were put on.
    pub closed spec fn of_v(&self, m: Seq<char>) -> Seq<usize> {
        if keys_of(self.assigned@).contains(m) {
            self.assigned@[first_at(keys_of(self.assigned@), m)].1@
        } else {
            Seq::empty()
        }
    }

    /// The tagged mods, in the order their entries were made.
    pub closed spec fn tagged(&self) -> Seq<Seq<char>> {
        keys_of(self.assigned@)
    }

    /// Each mod has one entry, with at least one tag, no tag twice, and
    /// every tag existing.
    pub closed spec fn wf(&self) -> bool {
        &&& keys_of(self.assigned@).no_duplicates()
        &&& forall|k: int| 0 <= k < self.assigned@.len() ==> {
            &&& (#[trigger] self.assigned@[k]).1@.len() > 0
            &&& self.assigned@[k].1@.no_duplicates()
            &&& forall|j: int| 0 <= j < self.assigned@[k].1@.len() ==> #[trigger] self.assigned@[k].1@[j] < self.tags@.len()
        }
    }

    pub proof fn lemma_wf(&self, m: Seq<char>)
        requires
            self.wf(),
        ensures
            self.of_v(m).no_duplicates(),
            forall|j: int| 0 <= j < self.of_v(m).len() ==> #[trigger] self.of_v(m)[j] < self.tags_v().len(),
            self.tagged().contains(m) <==> self.of_v(m).len() > 0,
            self.tagged().no_duplicates(),
    {
        if keys_of(self.assigned@).contains(m) {
            lemma_first_at_exists(keys_of(self.assigned@), m);
            let f = first_at(keys_of(self.assigned@), m);
            assert(self.assigned@[f].1@.len() > 0);
        }
    }

    pub fn new() -> (r: Tags)
        ensures
            r.wf(),
            r.tags_v().len() == 0,
            r.tagged().len() == 0,
    {
        let r = Tags { tags: Vec::new(), assigned: Vec::new() };
        assert(r.tagged() =~= Seq::<Seq<char>>::empty());
        r
    }

    pub fn all(&self) -> (r: &[Tag])
        ensures
            tag_views(r@) == self.tags_v(),
    {
        self.tags.as_slice()
    }

    pub fn get(&self, id: TagId) -> (r: Option<&Tag>)
        ensures
            match r {
                Some(t) => id.at() < self.tags_v().len() && (t.name@, t.color) == self.tags_v()[id.at()],
                None => id.at() >= self.tags_v().len(),
            },
    {
        if id.0 < self.tags.len() {
            Some(&self.tags[id.0])
        } else {
            None
        }
    }

    pub fn is_empty(&self) -> (r: bool)
        ensures
            r == (self.tags_v().len() == 0),
    {
        self.tags.len() == 0
    }

    /// The identifiers of all tags, in order.
    pub fn ids(&self) -> (r: Vec<TagId>)
        ensures
            r@.len() == self.tags_v().len(),
            forall|i: int| 0 <= i < r@.len() ==> #[trigger] r@[i].at() == i,
    {
        let mut out: Vec<TagId> = Vec::new();
        for i in 0..self.tags.len()
            invariant
                out@.len() == i,
                forall|k: int| 0 <= k < i ==> #[trigger] out@[k].at() == k,
        {
            out.push(TagId(i));
        }
        out
    }

    /// Finds a tag by name, ignoring case and surrounding whitespace.
    pub fn find(&self, name: &str) -> (r: Option<TagId>)
        ensures
            match r {
                Some(id) => found_as(self.tags_v(), name@) == Some(id.at()),
                None => found_as(self.tags_v(), name@).is_none(),
            },
    {
        let needle = to_lower(trim_str(name).as_str());
        let ghost tv = self.tags_v();
        for i in 0..self.tags.len()
            invariant
                tv == self.tags_v(),
                first_named(tv, needle@) == (match first_named(tv.skip(i as int), needle@) {
                    Some(k) => Some(k + i),
                    None => None,
                }),
        {
            proof {
                assert(tv.skip(i as int)[0] == tv[i as int]);
                assert(tv.skip(i as int).drop_first() == tv.skip(i + 1));
            }
            let low = to_lower(self.tags[i].name.as_str());
            if str_eq(low.as_str(), needle.as_str()) {
                return Some(TagId(i));
            }
        }
        proof {
            assert(tv.skip(self.tags.len() as int).len() == 0);
        }
        None
    }

    /// Creates a tag, or returns the existing one of the same name.
    pub fn create(&mut self, name: &str) -> (r: Option<TagId>)
        requires
            old(self).wf(),
        ensures
            final(self).wf(),
            final(self).tagged() == old(self).tagged(),
            forall|m: Seq<char>| #[trigger] final(self).of_v(m) == old(self).of_v(m),
            trim(name@).len() == 0 ==> r.is_none() && final(self).tags_v() == old(self).tags_v(),
            trim(name@).len() > 0 ==> match found_as(old(self).tags_v(), trim(name@)) {
                Some(i) => (r matches Some(id) && id.at() == i) && final(self).tags_v() == old(self).tags_v(),
                None => (r matches Some(id) && id.at() == old(self).tags_v().len()) && final(self).tags_v()
                    == old(self).tags_v().push((trim(name@), palette_spec((old(self).tags_v().len() % 8) as int))),
            },
    {
        let n = trim_str(name);
        if n.as_str().is_empty() {
            return None;
        }
        match self.find(n.as_str()) {
            Some(id) => {
                return Some(id);
            },
            None => {},
        }
        let color = palette(self.tags.len() % PALETTE_LEN);
        let ghost before = self.tags_v();
        self.tags.push(Tag { name: n, color });
        proof {
            assert(self.tags_v() =~= before.push((trim(name@), color)));
            assert forall|k: int| 0 <= k < self.assigned@.len() implies {
                &&& (#[trigger] self.assigned@[k]).1@.len() > 0
                &&& self.assigned@[k].1@.no_duplicates()
                &&& forall|j: int| 0 <= j < self.assigned@[k].1@.len() ==> #[trigger] self.assigned@[k].1@[j] < self.tags@.len()
            } by {
                assert(old(self).assigned@[k] == self.assigned@[k]);
            }
        }
        Some(TagId(self.tags.len() - 1))
    }
}

/// A tag list after tag `d` is deleted: `d` dropped, later positions
/// moved down by one.
pub open spec fn shift_list(l: Seq<usize>, d: usize) -> Seq<usize>
    decreases l.len(),
{
    if l.len() == 0 {
        Seq::empty()
    } else {
        let p = shift_list(l.drop_last(), d);
        let x = l.last();
        if x == d {
            p
        } else if x > d {
            p.push((x - 1) as usize)
        } else {
            p.push(x)
        }
    }
}

/// A tag list after tag `t` is toggled.
pub open spec fn toggled(l: Seq<usize>, t: usize) -> Seq<usize> {
    if l.contains(t) { l.remove(l.index_of(t)) } else { l.push(t) }
}

/// Mods whose tags include `t`.
pub open spec fn uses_tag(tags: &Tags, t: usize) -> spec_fn(Seq<char>) -> bool {
    |m: Seq<char>| tags.of_v(m).contains(t)
}

proof fn lemma_key_at(s: Seq<(ModId, Vec<usize>)>, j: int)
    requires
        keys_of(s).no_duplicates(),
        0 <= j < s.len(),
    ensures
        keys_of(s).contains(s[j].0@),
        first_at(keys_of(s), s[j].0@) == j,
{
    let ks = keys_of(s);
    assert(ks[j] == s[j].0@);
    assert forall|t: int| 0 <= t < j implies ks[t] != s[j].0@ by {}
    lemma_first_at(ks, s[j].0@, j);
}

proof fn lemma_shift_props(l: Seq<usize>, d: usize, n: usize)
    requires
        l.no_duplicates(),
        forall|j: int| 0 <= j < l.len() ==> #[trigger] l[j] < n,
        d < n,
    ensures
        shift_list(l, d).no_duplicates(),
        forall|j: int| 0 <= j < shift_list(l, d).len() ==> #[trigger] shift_list(l, d)[j] < n - 1,
        forall|x: usize| #[trigger] shift_list(l, d).contains(x) <==> (
            (x < d && l.contains(x)) || (d <= x && x + 1 < n && l.contains((x + 1) as usize))),
    decreases l.len(),
{
    if l.len() > 0 {
        let u = l.drop_last();
        assert(u.push(l.last()) == l);
        assert forall|j: int| 0 <= j < u.len() implies #[trigger] u[j] < n by {
            assert(l[j] < n);
        }
        lemma_shift_props(u, d, n);
        let p = shift_list(u, d);
        let x = l.last();
        assert(l[l.len() - 1] < n);
        assert(!u.contains(x));
        if x != d {
            let y: usize = if x > d { (x - 1) as usize } else { x };
            assert(!p.contains(y)) by {
                if p.contains(y) {
                    if y < d {
                        assert(u.contains(y));
                    } else {
                        assert(u.contains((y + 1) as usize));
                    }
                }
            }
            lemma_push_fresh(p, y);
            assert forall|z: usize| #[trigger] p.push(y).contains(z) <==> (
                (z < d && l.contains(z)) || (d <= z && z + 1 < n && l.contains((z + 1) as usize))) by {
                if p.push(y).contains(z) && z != y {
                    let t = choose|t: int| 0 <= t < p.push(y).len() && p.push(y)[t] == z;
                    assert(p[t] == z);
                }
                if z == y {
                    assert(p.push(y)[p.len() as int] == z);
                }
                if z < d && l.contains(z) && z != y {
                    let t = choose|t: int| 0 <= t < l.len() && l[t] == z;
                    assert(u[t] == z);
                    let r = choose|r: int| 0 <= r < p.len() && p[r] == z;
                    assert(p.push(y)[r] == z);
                }
                if d <= z && z + 1 < n && l.contains((z + 1) as usize) && z != y {
                    let t = choose|t: int| 0 <= t < l.len() && l[t] == (z + 1) as usize;
                    assert(u[t] == (z + 1) as usize);
                    let r = choose|r: int| 0 <= r < p.len() && p[r] == z;
                    assert(p.push(y)[r] == z);
                }
            }
        } else {
            assert forall|z: usize| #[trigger] p.contains(z) <==> (
                (z < d && l.contains(z)) || (d <= z && z + 1 < n && l.contains((z + 1) as usize))) by {
                if z < d && l.contains(z) {
                    let t = choose|t: int| 0 <= t < l.len() && l[t] == z;
                    assert(u[t] == z);
                }
                if d <= z && z + 1 < n && l.contains((z + 1) as usize) {
                    let t = choose|t: int| 0 <= t < l.len() && l[t] == (z + 1) as usize;
                    assert(u[t] == (z + 1) as usize);
                }
            }
        }
    }
}

impl Tags {
    /// Where mod `m`'s entry is.
    fn entry_pos(&self, m: &ModId) -> (r: Option<usize>)
        requires
            self.wf(),
        ensures
            match r {
                Some(k) => k < self.assigned@.len() && self.assigned@[k as int].0@ == m@
                    && self.of_v(m@) == self.assigned@[k as int].1@,
                None => !self.tagged().contains(m@) && self.of_v(m@).len() == 0,
            },
    {
        for k in 0..self.assigned.len()
            invariant
                self.wf(),
                forall|t: int| 0 <= t < k ==> #[trigger] keys_of(self.assigned@)[t] != m@,
        {
            if self.assigned[k].0.same(m) {
                proof {
                    lemma_key_at(self.assigned@, k as int);
                }
                return Some(k);
            }
        }
        None
    }

    /// Renames a tag. Refuses an empty name and one another tag has.
    pub fn rename(&mut self, id: TagId, name: &str) -> (r: bool)
        requires
            old(self).wf(),
        ensures
            final(self).wf(),
            final(self).tagged() == old(self).tagged(),
            forall|m: Seq<char>| #[trigger] final(self).of_v(m) == old(self).of_v(m),
            r == (trim(name@).len() > 0
                && !(found_as(old(self).tags_v(), trim(name@)) matches Some(e) && e != id.at())
                && id.at() < old(self).tags_v().len()),
            r ==> final(self).tags_v() == old(self).tags_v().update(id.at(), (trim(name@), old(self).tags_v()[id.at()].1)),
            !r ==> final(self).tags_v() == old(self).tags_v(),
    {
        let n = trim_str(name);
        if n.as_str().is_empty() {
            return false;
        }
        match self.find(n.as_str()) {
            Some(existing) => {
                if existing.0 != id.0 {
                    return false;
                }
            },
            None => {},
        }
        if id.0 < self.tags.len() {
            let color = self.tags[id.0].color;
            let ghost before = self.tags_v();
            self.tags.set(id.0, Tag { name: n, color });
            proof {
                assert(self.tags_v() =~= before.update(id.at(), (trim(name@), color)));
                assert forall|k: int| 0 <= k < self.assigned@.len() implies {
                    &&& (#[trigger] self.assigned@[k]).1@.len() > 0
                    &&& self.assigned@[k].1@.no_duplicates()
                    &&& forall|j: int| 0 <= j < self.assigned@[k].1@.len() ==> #[trigger] self.assigned@[k].1@[j] < self.tags@.len()
                } by {
                    assert(old(self).assigned@[k] == self.assigned@[k]);
                }
            }
            true
        } else {
            false
        }
    }

    pub fn set_color(&mut self, id: TagId, color: Rgb)
        requires
            old(self).wf(),
        ensures
            final(self).wf(),
            final(self).tagged() == old(self).tagged(),
            forall|m: Seq<char>| #[trigger] final(self).of_v(m) == old(self).of_v(m),
            id.at() < old(self).tags_v().len() ==> final(self).tags_v()
                == old(self).tags_v().update(id.at(), (old(self).tags_v()[id.at()].0, color)),
            id.at() >= old(self).tags_v().len() ==> final(self).tags_v() == old(self).tags_v(),
    {
        if id.0 < self.tags.len() {
            let n = self.tags[id.0].name.clone();
            let ghost before = self.tags_v();
            self.tags.set(id.0, Tag { name: n, color });
            proof {
                assert(self.tags_v() =~= before.update(id.at(), (before[id.at()].0, color)));
                assert forall|k: int| 0 <= k < self.assigned@.len() implies {
                    &&& (#[trigger] self.assigned@[k]).1@.len() > 0
                    &&& self.assigned@[k].1@.no_duplicates()
                    &&& forall|j: int| 0 <= j < self.assigned@[k].1@.len() ==> #[trigger] self.assigned@[k].1@[j] < self.tags@.len()
                } by {
                    assert(old(self).assigned@[k] == self.assigned@[k]);
                }
            }
        }
    }

    /// The positions of mod `m`'s tags.
    pub fn of(&self, m: &ModId) -> (r: &[usize])
        requires
            self.wf(),
        ensures
            r@ == self.of_v(m@),
    {
        match self.entry_pos(m) {
            Some(k) => self.assigned[k].1.as_slice(),
            None => {
                let e: &[usize] = &[];
                assert(e@ =~= Seq::<usize>::empty());
                e
            },
        }
    }

    /// Mod `m`'s tags, in the order they were put on.
    pub fn tags_of(&self, m: &ModId) -> (r: Vec<(TagId, &Tag)>)
        requires
            self.wf(),
        ensures
            r@.len() == self.of_v(m@).len(),
            forall|j: int| 0 <= j < r@.len() ==> {
                &&& (#[trigger] r@[j]).0.at() == self.of_v(m@)[j]
                &&& (r@[j].1.name@, r@[j].1.color) == self.tags_v()[self.of_v(m@)[j] as int]
            },
    {
        proof {
            self.lemma_wf(m@);
        }
        let list = self.of(m);
        let mut out: Vec<(TagId, &Tag)> = Vec::new();
        for j in 0..list.len()
            invariant
                list@ == self.of_v(m@),
                forall|t: int| 0 <= t < list@.len() ==> #[trigger] list@[t] < self.tags_v().len(),
                out@.len() == j,
                forall|t: int| 0 <= t < j ==> {
                    &&& (#[trigger] out@[t]).0.at() == list@[t]
                    &&& (out@[t].1.name@, out@[t].1.color) == self.tags_v()[list@[t] as int]
                },
        {
            let i = list[j];
            assert(i < self.tags_v().len());
            out.push((TagId(i), &self.tags[i]));
        }
        out
    }

    pub fn has(&self, m: &ModId, tag: TagId) -> (r: bool)
        requires
            self.wf(),
        ensures
            r == self.of_v(m@).contains(tag.at() as usize),
    {
        let list = self.of(m);
        for j in 0..list.len()
            invariant
                list@ == self.of_v(m@),
                forall|t: int| 0 <= t < j ==> #[trigger] list@[t] != tag.at(),
        {
            if list[j] == tag.0 {
                assert(list@[j as int] == tag.at() as usize);
                return true;
            }
        }
        false
    }

    /// The colour of the stripe in the mod's row: its first tag's colour.
    pub fn stripe_color(&self, m: &ModId) -> (r: Option<Rgb>)
        requires
            self.wf(),
        ensures
            r == (if self.of_v(m@).len() > 0 {
                Some(self.tags_v()[self.of_v(m@)[0] as int].1)
            } else {
                None
            }),
    {
        proof {
            self.lemma_wf(m@);
        }
        let list = self.of(m);
        if list.len() == 0 {
            return None;
        }
        let first = list[0];
        assert(first < self.tags_v().len());
        Some(self.tags[first].color)
    }

    /// How many mods carry this tag.
    pub fn usage(&self, tag: TagId) -> (r: usize)
        requires
            self.wf(),
        ensures
            r == self.tagged().filter(uses_tag(self, tag.at() as usize)).len(),
    {
        let ghost ks = self.tagged();
        let ghost f = uses_tag(self, tag.at() as usize);
        let mut n: usize = 0;
        for k in 0..self.assigned.len()
            invariant
                self.wf(),
                ks == self.tagged(),
                f == uses_tag(self, tag.at() as usize),
                n == ks.take(k as int).filter(f).len(),
                n <= k,
        {
            proof {
                assert(ks.take(k + 1) == ks.take(k as int).push(ks[k as int]));
                ks.take(k as int).lemma_filter_push(ks[k as int], f);
                lemma_key_at(self.assigned@, k as int);
            }
            let list = &self.assigned[k].1;
            let mut hit = false;
            for j in 0..list.len()
                invariant
                    hit == list@.take(j as int).contains(tag.at() as usize),
            {
                proof {
                    assert(list@.take(j + 1) == list@.take(j as int).push(list@[j as int]));
                }
                if list[j] == tag.0 {
                    hit = true;
                }
            }
            proof {
                assert(list@.take(list@.len() as int) == list@);
            }
            if hit {
                n = n + 1;
            }
        }
        proof {
            assert(ks.take(self.assigned@.len() as int) == ks);
        }
        n
    }
}

/// The tag list of key `x` in a list of entries.
spec fn entry_list(s: Seq<(ModId, Vec<usize>)>, x: Seq<char>) -> Seq<usize> {
    if keys_of(s).contains(x) { s[first_at(keys_of(s), x)].1@ } else { Seq::empty() }
}

proof fn lemma_entry_list(s: Seq<(ModId, Vec<usize>)>, x: Seq<char>)
    requires
        keys_of(s).no_duplicates(),
    ensures
        forall|j: int| 0 <= j < s.len() && #[trigger] s[j].0@ == x ==> entry_list(s, x) == s[j].1@,
        !keys_of(s).contains(x) ==> entry_list(s, x) == Seq::<usize>::empty(),
{
    assert forall|j: int| 0 <= j < s.len() && #[trigger] s[j].0@ == x implies entry_list(s, x) == s[j].1@ by {
        lemma_key_at(s, j);
    }
}

/// The names of the tags at positions `l`.
pub open spec fn stored_names(tags: Seq<(Seq<char>, Rgb)>, l: Seq<usize>) -> Seq<Seq<char>> {
    l.map_values(|i: usize| tags[i as int].0)
}

/// Entry `a`, name `b` of a stored file tags mod `m` with tag `i`.
pub open spec fn stored_says(stored: &Stored, tags: Seq<(Seq<char>, Rgb)>, a: int, b: int, m: Seq<char>, i: usize) -> bool {
    &&& 0 <= a < stored.assigned@.len()
    &&& 0 <= b < stored.assigned@[a].1@.len()
    &&& normalize(stored.assigned@[a].0@) == m
    &&& found_as(tags, stored.assigned@[a].1@[b]@) == Some(i as int)
}

impl Tags {
    /// Puts tag `t` on mod `m`, or takes it off.
    pub fn toggle(&mut self, m: &ModId, tag: TagId)
        requires
            old(self).wf(),
        ensures
            final(self).wf(),
            final(self).tags_v() == old(self).tags_v(),
            forall|x: Seq<char>| x != m@ ==> #[trigger] final(self).of_v(x) == old(self).of_v(x),
            tag.at() >= old(self).tags_v().len() ==> final(self).of_v(m@) == old(self).of_v(m@),
            tag.at() < old(self).tags_v().len() ==> final(self).of_v(m@) == toggled(old(self).of_v(m@), tag.at() as usize),
    {
        if tag.0 >= self.tags.len() {
            return;
        }
        let t = tag.0;
        let ghost s0 = self.assigned@;
        proof {
            lemma_entry_list(s0, m@);
        }
        match self.entry_pos(m) {
            None => {
                let mut l: Vec<usize> = Vec::new();
                l.push(t);
                self.assigned.push((m.copy(), l));
                proof {
                    let s1 = self.assigned@;
                    assert(keys_of(s1) =~= keys_of(s0).push(m@));
                    lemma_push_fresh(keys_of(s0), m@);
                    lemma_entry_list(s1, m@);
                    assert(s1[s0.len() as int].0@ == m@);
                    assert(toggled(Seq::<usize>::empty(), t) =~= seq![t]);
                    assert(s1[s0.len() as int].1@ =~= seq![t]);
                    assert forall|x: Seq<char>| x != m@ implies #[trigger] self.of_v(x) == old(self).of_v(x) by {
                        lemma_entry_list(s0, x);
                        lemma_entry_list(s1, x);
                        if keys_of(s0).contains(x) {
                            let j = choose|j: int| 0 <= j < keys_of(s0).len() && keys_of(s0)[j] == x;
                            assert(s1[j] == s0[j]);
                        } else {
                            assert(!keys_of(s1).contains(x)) by {
                                if keys_of(s1).contains(x) {
                                    let j = choose|j: int| 0 <= j < keys_of(s1).len() && keys_of(s1)[j] == x;
                                    assert(keys_of(s0)[j] == x);
                                }
                            }
                        }
                    }
                    assert forall|k: int| 0 <= k < s1.len() implies {
                        &&& (#[trigger] s1[k]).1@.len() > 0
                        &&& s1[k].1@.no_duplicates()
                        &&& forall|j: int| 0 <= j < s1[k].1@.len() ==> #[trigger] s1[k].1@[j] < self.tags@.len()
                    } by {
                        if k < s0.len() {
                            assert(s1[k] == s0[k]);
                        }
                    }
                }
            },
            Some(k) => {
                let src = &self.assigned[k].1;
                let mut l: Vec<usize> = Vec::new();
                let mut at: Option<usize> = None;
                for j in 0..src.len()
                    invariant
                        l@ == src@.take(j as int),
                        match at {
                            Some(p) => p < j && src@[p as int] == t,
                            None => !src@.take(j as int).contains(t),
                        },
                {
                    proof {
                        assert(src@.take(j + 1) == src@.take(j as int).push(src@[j as int]));
                    }
                    if src[j] == t && at.is_none() {
                        at = Some(j);
                    }
                    l.push(src[j]);
                }
                proof {
                    assert(src@.take(src@.len() as int) == src@);
                    assert(s0[k as int].1@ == src@);
                }
                let ghost lv = l@;
                match at {
                    Some(p) => {
                        l.remove(p);
                        proof {
                            assert(src@.no_duplicates());
                            assert(src@.contains(t));
                            let q = src@.index_of(t);
                            assert(src@[q] == t);
                            assert(q == p);
                            assert(l@ == toggled(src@, t));
                        }
                    },
                    None => {
                        l.push(t);
                        proof {
                            assert(l@ == toggled(src@, t));
                            lemma_push_fresh(src@, t);
                        }
                    },
                }
                if l.len() == 0 {
                    self.assigned.remove(k);
                    proof {
                        let s1 = self.assigned@;
                        assert(keys_of(s1) =~= keys_of(s0).remove(k as int));
                        assert forall|a: int, b: int| 0 <= a < keys_of(s1).len() && 0 <= b < keys_of(s1).len() && a != b
                            implies keys_of(s1)[a] != keys_of(s1)[b] by {
                            let a0 = if a < k { a } else { a + 1 };
                            let b0 = if b < k { b } else { b + 1 };
                            assert(keys_of(s1)[a] == keys_of(s0)[a0] && keys_of(s1)[b] == keys_of(s0)[b0]);
                        }
                        assert(!keys_of(s1).contains(m@)) by {
                            if keys_of(s1).contains(m@) {
                                let j = choose|j: int| 0 <= j < keys_of(s1).len() && keys_of(s1)[j] == m@;
                                let j0 = if j < k { j } else { j + 1 };
                                assert(keys_of(s0)[j0] == m@);
                                assert(keys_of(s0)[k as int] == m@);
                            }
                        }
                        lemma_entry_list(s1, m@);
                        assert(self.of_v(m@) =~= l@);
                        assert forall|x: Seq<char>| x != m@ implies #[trigger] self.of_v(x) == old(self).of_v(x) by {
                            lemma_entry_list(s0, x);
                            lemma_entry_list(s1, x);
                            if keys_of(s0).contains(x) {
                                let j = choose|j: int| 0 <= j < keys_of(s0).len() && keys_of(s0)[j] == x;
                                assert(j != k);
                                let j1 = if j < k { j } else { j - 1 };
                                assert(s1[j1] == s0[j]);
                            } else {
                                assert(!keys_of(s1).contains(x)) by {
                                    if keys_of(s1).contains(x) {
                                        let j = choose|j: int| 0 <= j < keys_of(s1).len() && keys_of(s1)[j] == x;
                                        let j0 = if j < k { j } else { j + 1 };
                                        assert(keys_of(s0)[j0] == x);
                                    }
                                }
                            }
                        }
                        assert forall|q: int| 0 <= q < s1.len() implies {
                            &&& (#[trigger] s1[q]).1@.len() > 0
                            &&& s1[q].1@.no_duplicates()
                            &&& forall|j: int| 0 <= j < s1[q].1@.len() ==> #[trigger] s1[q].1@[j] < self.tags@.len()
                        } by {
                            let q0 = if q < k { q } else { q + 1 };
                            assert(s1[q] == s0[q0]);
                        }
                    }
                } else {
                    let key = m.copy();
                    let ghost newl = l@;
                    self.assigned.set(k, (key, l));
                    proof {
                        let s1 = self.assigned@;
                        assert(keys_of(s1) =~= keys_of(s0));
                        lemma_entry_list(s1, m@);
                        assert(s1[k as int].0@ == m@);
                        assert forall|x: Seq<char>| x != m@ implies #[trigger] self.of_v(x) == old(self).of_v(x) by {
                            lemma_entry_list(s0, x);
                            lemma_entry_list(s1, x);
                            if keys_of(s0).contains(x) {
                                let j = choose|j: int| 0 <= j < keys_of(s0).len() && keys_of(s0)[j] == x;
                                assert(s1[j] == s0[j]);
                            }
                        }
                        assert forall|j: int| 0 <= j < newl.len() implies #[trigger] newl[j] < self.tags@.len() by {
                            if newl.contains(newl[j]) && newl[j] != t {
                                assert(src@.contains(newl[j])) by {
                                    if lv.len() > newl.len() {
                                        let r = choose|r: int| 0 <= r < lv.len() && lv[r] == newl[j];
                                    }
                                }
                            }
                        }
                        assert forall|q: int| 0 <= q < s1.len() implies {
                            &&& (#[trigger] s1[q]).1@.len() > 0
                            &&& s1[q].1@.no_duplicates()
                            &&& forall|j: int| 0 <= j < s1[q].1@.len() ==> #[trigger] s1[q].1@[j] < self.tags@.len()
                        } by {
                            if q != k {
                                assert(s1[q] == s0[q]);
                            }
                        }
                    }
                }
            },
        }
    }
}

/// A tag list with tag `d` deleted.
fn shift(l: &Vec<usize>, d: usize) -> (r: Vec<usize>)
    ensures
        r@ == shift_list(l@, d),
{
    let mut out: Vec<usize> = Vec::new();
    for j in 0..l.len()
        invariant
            out@ == shift_list(l@.take(j as int), d),
    {
        proof {
            assert(l@.take(j + 1).drop_last() == l@.take(j as int));
        }
        let x = l[j];
        if x == d {
        } else if x > d {
            out.push(x - 1);
        } else {
            out.push(x);
        }
    }
    assert(l@.take(l.len() as int) == l@);
    out
}

impl Tags {
    /// Deletes a tag and takes it off every mod; the positions after it
    /// move down by one.
    #[verifier::rlimit(40)]
    pub fn delete(&mut self, id: TagId)
        requires
            old(self).wf(),
        ensures
            final(self).wf(),
            id.at() >= old(self).tags_v().len() ==> final(self).tags_v() == old(self).tags_v()
                && forall|x: Seq<char>| #[trigger] final(self).of_v(x) == old(self).of_v(x),
            id.at() < old(self).tags_v().len() ==> final(self).tags_v() == old(self).tags_v().remove(id.at())
                && forall|x: Seq<char>| #[trigger] final(self).of_v(x) == shift_list(old(self).of_v(x), id.at() as usize),
    {
        if id.0 >= self.tags.len() {
            return;
        }
        let d = id.0;
        let ghost n = self.tags@.len();
        let ghost tv0 = self.tags_v();
        let ghost s0 = self.assigned@;
        self.tags.remove(d);
        proof {
            assert(self.tags_v() =~= tv0.remove(d as int));
        }
        let mut out: Vec<(ModId, Vec<usize>)> = Vec::new();
        for k in 0..self.assigned.len()
            invariant
                s0 == self.assigned@,
                keys_of(s0).no_duplicates(),
                d < n,
                self.tags@.len() == n - 1,
                forall|q: int| 0 <= q < s0.len() ==> {
                    &&& (#[trigger] s0[q]).1@.len() > 0
                    &&& s0[q].1@.no_duplicates()
                    &&& forall|j: int| 0 <= j < s0[q].1@.len() ==> #[trigger] s0[q].1@[j] < n
                },
                keys_of(out@).no_duplicates(),
                forall|q: int| 0 <= q < out@.len() ==> {
                    &&& (#[trigger] out@[q]).1@.len() > 0
                    &&& out@[q].1@.no_duplicates()
                    &&& forall|j: int| 0 <= j < out@[q].1@.len() ==> #[trigger] out@[q].1@[j] < n - 1
                },
                forall|x: Seq<char>| #[trigger] keys_of(out@).contains(x) ==> keys_of(s0).take(k as int).contains(x),
                forall|x: Seq<char>| keys_of(s0).take(k as int).contains(x) ==>
                    #[trigger] entry_list(out@, x) == shift_list(entry_list(s0, x), d),
        {
            let ghost before = out@;
            let x = &self.assigned[k].0;
            proof {
                lemma_key_at(s0, k as int);
                lemma_shift_props(s0[k as int].1@, d, n as usize);
                assert(keys_of(s0).take(k + 1) == keys_of(s0).take(k as int).push(x@));
                assert(!keys_of(s0).take(k as int).contains(x@)) by {
                    if keys_of(s0).take(k as int).contains(x@) {
                        let kt = keys_of(s0).take(k as int);
                        let j = choose|j: int| 0 <= j < kt.len() && #[trigger] kt[j] == x@;
                        assert(keys_of(s0)[j] == keys_of(s0)[k as int]);
                    }
                }
            }
            let l = shift(&self.assigned[k].1, d);
            if l.len() > 0 {
                out.push((x.copy(), l));
                proof {
                    assert(keys_of(out@) =~= keys_of(before).push(x@));
                    assert(!keys_of(before).contains(x@));
                    lemma_push_fresh(keys_of(before), x@);
                    lemma_entry_list(out@, x@);
                    assert(out@[before.len() as int].0@ == x@);
                }
            }
            proof {
                assert forall|y: Seq<char>| #[trigger] keys_of(out@).contains(y) implies keys_of(s0).take(k + 1).contains(y) by {
                    if y != x@ {
                        let j = choose|j: int| 0 <= j < keys_of(out@).len() && keys_of(out@)[j] == y;
                        assert(keys_of(before)[j] == y);
                        assert(keys_of(s0).take(k as int).contains(y));
                        let kt = keys_of(s0).take(k as int);
                        let t = choose|t: int| 0 <= t < kt.len() && #[trigger] kt[t] == y;
                        assert(keys_of(s0).take(k + 1)[t] == y);
                    } else {
                        assert(keys_of(s0).take(k + 1)[k as int] == y);
                    }
                }
                assert forall|y: Seq<char>| keys_of(s0).take(k + 1).contains(y) implies
                    #[trigger] entry_list(out@, y) == shift_list(entry_list(s0, y), d) by {
                    lemma_entry_list(out@, y);
                    lemma_entry_list(before, y);
                    lemma_entry_list(s0, y);
                    if y == x@ {
                        if l@.len() == 0 {
                            assert(!keys_of(out@).contains(y)) by {
                                if keys_of(out@).contains(y) {
                                    assert(keys_of(before).contains(y));
                                }
                            }
                        }
                    } else {
                        assert(keys_of(s0).take(k as int).contains(y)) by {
                            let kt = keys_of(s0).take(k + 1);
                            let t = choose|t: int| 0 <= t < kt.len() && #[trigger] kt[t] == y;
                            assert(keys_of(s0).take(k as int)[t] == y);
                        }
                        if keys_of(before).contains(y) {
                            let j = choose|j: int| 0 <= j < keys_of(before).len() && keys_of(before)[j] == y;
                            assert(out@[j] == before[j]);
                        } else {
                            assert(!keys_of(out@).contains(y)) by {
                                if keys_of(out@).contains(y) {
                                    let j = choose|j: int| 0 <= j < keys_of(out@).len() && keys_of(out@)[j] == y;
                                    assert(keys_of(before)[j] == y);
                                }
                            }
                        }
                    }
                }
                assert forall|q: int| 0 <= q < out@.len() implies {
                    &&& (#[trigger] out@[q]).1@.len() > 0
                    &&& out@[q].1@.no_duplicates()
                    &&& forall|j: int| 0 <= j < out@[q].1@.len() ==> #[trigger] out@[q].1@[j] < n - 1
                } by {
                    if q < before.len() {
                        assert(out@[q] == before[q]);
                    }
                }
            }
        }
        proof {
            assert(keys_of(s0).take(s0.len() as int) == keys_of(s0));
        }
        self.assigned = out;
        proof {
            assert forall|y: Seq<char>| #[trigger] self.of_v(y) == shift_list(old(self).of_v(y), d) by {
                assert(self.of_v(y) == entry_list(self.assigned@, y));
                assert(old(self).of_v(y) == entry_list(s0, y));
                if keys_of(s0).contains(y) {
                    assert(keys_of(s0).take(s0.len() as int).contains(y));
                    assert(entry_list(self.assigned@, y) == shift_list(entry_list(s0, y), d));
                } else {
                    lemma_entry_list(s0, y);
                    lemma_entry_list(self.assigned@, y);
                    assert(!keys_of(self.assigned@).contains(y)) by {
                        if keys_of(self.assigned@).contains(y) {
                            assert(keys_of(s0).take(s0.len() as int).contains(y));
                        }
                    }
                    assert(shift_list(Seq::<usize>::empty(), d) == Seq::<usize>::empty());
                }
            }
        }
    }

    /// The tags as they are written to disk.
    pub fn to_stored(&self) -> (r: Stored)
        requires
            self.wf(),
        ensures
            tag_views(r.tags@) == self.tags_v(),
            r.assigned@.len() == self.tagged().len(),
            forall|k: int| 0 <= k < r.assigned@.len() ==> {
                &&& (#[trigger] r.assigned@[k]).0@ == self.tagged()[k]
                &&& r.assigned@[k].1.deep_view() == stored_names(self.tags_v(), self.of_v(self.tagged()[k]))
            },
    {
        let mut tags: Vec<Tag> = Vec::new();
        for i in 0..self.tags.len()
            invariant
                tag_views(tags@) == self.tags_v().take(i as int),
        {
            let ghost before = tag_views(tags@);
            tags.push(self.tags[i].copy());
            assert(tag_views(tags@) =~= before.push(self.tags_v()[i as int]));
            assert(self.tags_v().take(i + 1) =~= self.tags_v().take(i as int).push(self.tags_v()[i as int]));
        }
        assert(self.tags_v().take(self.tags.len() as int) == self.tags_v());
        let mut assigned: Vec<(String, Vec<String>)> = Vec::new();
        for k in 0..self.assigned.len()
            invariant
                self.wf(),
                assigned@.len() == k,
                forall|q: int| 0 <= q < k ==> {
                    &&& (#[trigger] assigned@[q]).0@ == self.tagged()[q]
                    &&& assigned@[q].1.deep_view() == stored_names(self.tags_v(), self.of_v(self.tagged()[q]))
                },
        {
            let list = &self.assigned[k].1;
            proof {
                lemma_key_at(self.assigned@, k as int);
            }
            let mut names: Vec<String> = Vec::new();
            for j in 0..list.len()
                invariant
                    self.wf(),
                    list@ == self.assigned@[k as int].1@,
                    forall|t: int| 0 <= t < list@.len() ==> #[trigger] list@[t] < self.tags@.len(),
                    names.deep_view() == stored_names(self.tags_v(), list@.take(j as int)),
            {
                let ghost before = names.deep_view();
                let i = list[j];
                names.push(self.tags[i].name.clone());
                assert(names.deep_view() =~= before.push(self.tags_v()[i as int].0));
                assert(stored_names(self.tags_v(), list@.take(j + 1)) =~= stored_names(self.tags_v(), list@.take(j as int)).push(self.tags_v()[i as int].0));
            }
            assert(list@.take(list@.len() as int) == list@);
            let key = String::from_str(self.assigned[k].0.as_str());
            assigned.push((key, names));
        }
        Stored { tags, assigned }
    }

    /// Adds tag `i` to mod `m` unless it is there already.
    fn add_tag(&mut self, m: &ModId, i: usize)
        requires
            old(self).wf(),
            i < old(self).tags_v().len(),
        ensures
            final(self).wf(),
            final(self).tags_v() == old(self).tags_v(),
            forall|x: Seq<char>| x != m@ ==> #[trigger] final(self).of_v(x) == old(self).of_v(x),
            forall|j: usize| #[trigger] final(self).of_v(m@).contains(j) <==> (old(self).of_v(m@).contains(j) || j == i),
    {
        if !self.has(m, TagId(i)) {
            proof {
                assert(TagId(i).at() == i);
            }
            self.toggle(m, TagId(i));
            proof {
                let l = old(self).of_v(m@);
                assert(toggled(l, i) == l.push(i));
                assert forall|j: usize| #[trigger] self.of_v(m@).contains(j) <==> (l.contains(j) || j == i) by {
                    if l.push(i).contains(j) && j != i {
                        let t = choose|t: int| 0 <= t < l.push(i).len() && l.push(i)[t] == j;
                        assert(l[t] == j);
                    }
                    if l.contains(j) {
                        let t = choose|t: int| 0 <= t < l.len() && l[t] == j;
                        assert(l.push(i)[t] == j);
                    }
                    if j == i {
                        assert(l.push(i)[l.len() as int] == j);
                    }
                }
            }
        }
    }

    /// Restores tags from disk. Names not among the tags are ignored: the
    /// file may have been edited by hand.
    pub fn from_stored(stored: Stored) -> (r: Tags)
        ensures
            r.wf(),
            r.tags_v() == tag_views(stored.tags@),
            forall|m: Seq<char>, i: usize| #[trigger] r.of_v(m).contains(i) <==>
                exists|a: int, b: int| stored_says(&stored, r.tags_v(), a, b, m, i),
    {
        let ghost st = stored;
        let Stored { tags, assigned } = stored;
        let mut out = Tags { tags, assigned: Vec::new() };
        let ghost tv = out.tags_v();
        proof {
            assert(out.tagged() =~= Seq::<Seq<char>>::empty());
        }
        for a in 0..assigned.len()
            invariant
                out.wf(),
                out.tags_v() == tv,
                tv == tag_views(st.tags@),
                assigned@ == st.assigned@,
                forall|m: Seq<char>, i: usize| #[trigger] out.of_v(m).contains(i) <==>
                    exists|a2: int, b: int| a2 < a && stored_says(&st, tv, a2, b, m, i),
        {
            let mid = ModId::new(assigned[a].0.as_str());
            let names = &assigned[a].1;
            for b in 0..names.len()
                invariant
                    out.wf(),
                    out.tags_v() == tv,
                    tv == tag_views(st.tags@),
                    assigned@ == st.assigned@,
                    names@ == st.assigned@[a as int].1@,
                    mid@ == normalize(st.assigned@[a as int].0@),
                    forall|m: Seq<char>, i: usize| #[trigger] out.of_v(m).contains(i) <==>
                        exists|a2: int, b2: int| (a2 < a || (a2 == a && b2 < b)) && stored_says(&st, tv, a2, b2, m, i),
            {
                let ghost before = out;
                match out.find(names[b].as_str()) {
                    Some(id) => {
                        proof {
                            assert(found_as(tv, names@[b as int]@) == Some(id.at()));
                            lemma_first_named_bound(tv, lowercase(trim(names@[b as int]@)));
                        }
                        out.add_tag(&mid, id.0);
                        proof {
                            assert forall|m: Seq<char>, i: usize| #[trigger] out.of_v(m).contains(i) <==>
                                exists|a2: int, b2: int| (a2 < a || (a2 == a && b2 < b + 1)) && stored_says(&st, tv, a2, b2, m, i) by {
                                if out.of_v(m).contains(i) {
                                    if m == mid@ && i == id.0 && !before.of_v(m).contains(i) {
                                        assert(stored_says(&st, tv, a as int, b as int, m, i));
                                    }
                                }
                                if exists|a2: int, b2: int| (a2 < a || (a2 == a && b2 < b + 1)) && stored_says(&st, tv, a2, b2, m, i) {
                                    let (a2, b2) = choose|a2: int, b2: int| (a2 < a || (a2 == a && b2 < b + 1)) && stored_says(&st, tv, a2, b2, m, i);
                                    if a2 == a && b2 == b {
                                        assert(m == mid@);
                                        assert(i == id.0);
                                    } else {
                                        assert(before.of_v(m).contains(i));
                                    }
                                }
                            }
                        }
                    },
                    None => {
                        proof {
                            assert forall|m: Seq<char>, i: usize| #[trigger] out.of_v(m).contains(i) <==>
                                exists|a2: int, b2: int| (a2 < a || (a2 == a && b2 < b + 1)) && stored_says(&st, tv, a2, b2, m, i) by {
                                if exists|a2: int, b2: int| (a2 < a || (a2 == a && b2 < b + 1)) && stored_says(&st, tv, a2, b2, m, i) {
                                    let (a2, b2) = choose|a2: int, b2: int| (a2 < a || (a2 == a && b2 < b + 1)) && stored_says(&st, tv, a2, b2, m, i);
                                    if a2 == a && b2 == b {
                                        assert(found_as(tv, names@[b as int]@).is_none());
                                    }
                                    assert(before.of_v(m).contains(i));
                                }
                            }
                        }
                    },
                }
            }
            proof {
                assert forall|m: Seq<char>, i: usize| #[trigger] out.of_v(m).contains(i) <==>
                    exists|a2: int, b: int| a2 < a + 1 && stored_says(&st, tv, a2, b, m, i) by {
                    if exists|a2: int, b: int| a2 < a + 1 && stored_says(&st, tv, a2, b, m, i) {
                        let (a2, b2) = choose|a2: int, b: int| a2 < a + 1 && stored_says(&st, tv, a2, b, m, i);
                        assert((a2 < a || (a2 == a && b2 < names@.len())) && stored_says(&st, tv, a2, b2, m, i));
                    }
                }
            }
        }
        out
    }
}

proof fn lemma_first_named_bound(tags: Seq<(Seq<char>, Rgb)>, needle: Seq<char>)
    ensures
        first_named(tags, needle) matches Some(i) ==> 0 <= i < tags.len(),
    decreases tags.len(),
{
    if tags.len() > 0 {
        lemma_first_named_bound(tags.drop_first(), needle);
    }
}

} // verus!

verus! {

/// Toggling tag `t` flips it and leaves every other tag as it was.
pub proof fn law_toggle_flips_only_its_tag(l: Seq<usize>, t: usize, u: usize)
    requires
        l.no_duplicates(),
    ensures
        toggled(l, t).contains(t) == !l.contains(t),
        u != t ==> toggled(l, t).contains(u) == l.contains(u),
{
    if l.contains(t) {
        let i = l.index_of(t);
        let l1 = l.remove(i);
        if l1.contains(t) {
            let k = choose|k: int| 0 <= k < l1.len() && l1[k] == t;
            if k < i {
                assert(l[k] == t);
            } else {
                assert(l[k + 1] == t);
            }
        }
        if u != t {
            if l.contains(u) {
                let k = choose|k: int| 0 <= k < l.len() && l[k] == u;
                if k < i {
                    assert(l1[k] == u);
                } else {
                    assert(l1[k - 1] == u);
                }
            }
            if l1.contains(u) {
                let k = choose|k: int| 0 <= k < l1.len() && l1[k] == u;
                if k < i {
                    assert(l[k] == u);
                } else {
                    assert(l[k + 1] == u);
                }
            }
        }
    } else {
        assert(l.push(t)[l.len() as int] == t);
        if u != t {
            if l.contains(u) {
                let k = choose|k: int| 0 <= k < l.len() && l[k] == u;
                assert(l.push(t)[k] == u);
            }
            if l.push(t).contains(u) {
                let k = choose|k: int| 0 <= k < l.len() + 1 && l.push(t)[k] == u;
                assert(l[k] == u);
            }
        }
    }
}

/// Toggling a tag twice leaves a mod with the tags it had.
pub proof fn law_toggle_twice_restores(l: Seq<usize>, t: usize)
    requires
        l.no_duplicates(),
    ensures
        forall|x: usize| #[trigger] toggled(toggled(l, t), t).contains(x) <==> l.contains(x),
{
    if l.contains(t) {
        let i = l.index_of(t);
        let l1 = l.remove(i);
        assert(!l1.contains(t)) by {
            if l1.contains(t) {
                let k = choose|k: int| 0 <= k < l1.len() && l1[k] == t;
                if k < i {
                    assert(l[k] == t);
                } else {
                    assert(l[k + 1] == t);
                }
            }
        }
        assert(toggled(l1, t) == l1.push(t));
        assert forall|x: usize| #[trigger] l1.push(t).contains(x) <==> l.contains(x) by {
            if l.contains(x) && x != t {
                let k = choose|k: int| 0 <= k < l.len() && l[k] == x;
                if k < i {
                    assert(l1[k] == x);
                } else {
                    assert(k != i);
                    assert(l1[k - 1] == x);
                }
                assert(l1.push(t)[if k < i { k } else { k - 1 }] == x);
            }
            if l1.push(t).contains(x) && x != t {
                let k = choose|k: int| 0 <= k < l1.push(t).len() && l1.push(t)[k] == x;
                assert(k < l1.len());
                if k < i {
                    assert(l[k] == x);
                } else {
                    assert(l[k + 1] == x);
                }
            }
            if x == t {
                assert(l1.push(t)[l1.len() as int] == t);
            }
        }
    } else {
        let l1 = l.push(t);
        assert(l1[l.len() as int] == t);
        assert(l1.contains(t));
        let i = l1.index_of(t);
        assert(i == l.len()) by {
            if i < l.len() {
                assert(l[i] == t);
            }
        }
        assert(l1.remove(i) == l);
    }
}

} // verus!
