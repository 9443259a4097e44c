//! Mod identity: the normalized (trimmed, lowercase) packageId.

use vstd::prelude::*;
use crate::text::{
    ascii_lower, ascii_lower_char, chars_of, char_whitespace, is_ascii_text, is_ascii_upper, lemma_trim_ascii,
    lemma_trim_of_trimmed, lemma_trim_shape, lowercase, string_of, to_lower, trim, trim_chars,
};

verus! {

/// A mod's identifier: its packageId, trimmed and lowercased.
///
/// It is the identity of a mod throughout the program: ModsConfig.xml,
/// dependencies, community rules and log analysis are all keyed by it.
#[derive(Debug, Default, Hash, PartialOrd, Ord)]
pub struct ModId(String);

/// What [`ModId::new`] makes of a raw string: the Unicode lowercase of the
/// trimmed text, which for ASCII text is its ASCII lowercase.
pub open spec fn normalize(raw: Seq<char>) -> Seq<char> {
    if is_ascii_text(trim(raw)) { ascii_lower(trim(raw)) } else { lowercase(trim(raw)) }
}

/// A string that [`ModId::from_normalized`] takes as it is.
pub open spec fn looks_normalized(s: Seq<char>) -> bool {
    &&& forall|i: int| 0 <= i < s.len() ==> !is_ascii_upper(#[trigger] s[i])
    &&& trim(s).len() == s.len()
}

impl View for ModId {
    type V = Seq<char>;

    closed spec fn view(&self) -> Seq<char> {
        self.0@
    }
}

impl DeepView for ModId {
    type V = Seq<char>;

    open spec fn deep_view(&self) -> Seq<char> {
        self@
    }
}

impl ModId {
    /// Normalizes an arbitrary string into an identifier.
    pub fn new(raw: &str) -> (r: ModId)
        ensures
            r@ == normalize(raw@),
    {
        let cs = chars_of(raw);
        let t = trim_chars(&cs);
        let ts = string_of(&t);
        let r = to_lower(ts.as_str());
        ModId(r)
    }

    /// For strings already in lower case (scanner data); repairs anything
    /// that breaks the invariant.
    pub fn from_normalized(s: String) -> (r: ModId)
        ensures
            r@ == (if looks_normalized(s@) { s@ } else { normalize(s@) }),
    {
        let cs = chars_of(s.as_str());
        let mut has_upper = false;
        for i in 0..cs.len()
            invariant
                cs@ == s@,
                has_upper == exists|j: int| 0 <= j < i && is_ascii_upper(#[trigger] cs@[j]),
        {
            if 'A' <= cs[i] && cs[i] <= 'Z' {
                has_upper = true;
            }
        }
        let t = trim_chars(&cs);
        if has_upper || t.len() != cs.len() {
            return ModId::new(s.as_str());
        }
        ModId(s)
    }

    pub fn as_str(&self) -> (r: &str)
        ensures
            r@ == self@,
    {
        self.0.as_str()
    }

    pub fn is_empty(&self) -> (r: bool)
        ensures
            r == (self@.len() == 0),
    {
        self.0.as_str().is_empty()
    }

    /// A copy of this identifier.
    pub fn copy(&self) -> (r: ModId)
        ensures
            r@ == self@,
    {
        ModId(self.0.clone())
    }

    /// Identifier equality (the same normalized text).
    pub fn same(&self, other: &ModId) -> (r: bool)
        ensures
            r == (self@ == other@),
    {
        self.0 == other.0
    }
}

impl Clone for ModId {
    fn clone(&self) -> (r: ModId)
        ensures
            r@ == self@,
    {
        self.copy()
    }
}

impl PartialEq for ModId {
    fn eq(&self, other: &ModId) -> (r: bool) {
        self.same(other)
    }
}

impl Eq for ModId {}

impl vstd::std_specs::cmp::PartialEqSpecImpl for ModId {
    open spec fn obeys_eq_spec() -> bool {
        true
    }

    open spec fn eq_spec(&self, other: &ModId) -> bool {
        self@ == other@
    }
}

impl std::borrow::Borrow<str> for ModId {
    fn borrow(&self) -> (r: &str)
        ensures
            ({
                let s: &str = r;
                s@ == self@
            }),
    {
        self.as_str()
    }
}

/// ASCII lowercase changes no character's being whitespace.
proof fn lemma_lower_keeps_ws(c: char)
    requires
        (c as u32) < 128,
    ensures
        char_whitespace(ascii_lower_char(c)) == char_whitespace(c),
        (ascii_lower_char(c) as u32) < 128,
        ascii_lower_char(ascii_lower_char(c)) == ascii_lower_char(c),
{
}

/// Normalizing an identifier of ASCII text a second time changes nothing.
pub proof fn law_normalizing_twice_changes_nothing(raw: Seq<char>)
    requires
        is_ascii_text(raw),
    ensures
        normalize(normalize(raw)) == normalize(raw),
{
    lemma_trim_ascii(raw);
    let t = trim(raw);
    lemma_trim_shape(raw);
    let n = ascii_lower(t);
    assert forall|i: int| 0 <= i < n.len() implies (#[trigger] n[i] as u32) < 128 by {
        lemma_lower_keeps_ws(t[i]);
    }
    if n.len() > 0 {
        lemma_lower_keeps_ws(t[0]);
        lemma_lower_keeps_ws(t.last());
        assert(n[0] == ascii_lower_char(t[0]));
        assert(n.last() == ascii_lower_char(t.last()));
    }
    lemma_trim_of_trimmed(n);
    assert forall|i: int| 0 <= i < n.len() implies #[trigger] ascii_lower(n)[i] == n[i] by {
        lemma_lower_keeps_ws(t[i]);
    }
    assert(ascii_lower(n) =~= n);
}

} // verus!
