//! Turning mod folders into catalogue entries. Walking the folders and
//! reading their files is for the caller; this module decides what a folder
//! is and what its entry says.

use vstd::prelude::*;
use super::mod_entry::{ModEntry, ModSource};
use super::mod_id::{normalize, ModId};
use super::parser::{strs_view, sources_view, AboutData};
use super::profile::id_views;
use crate::text::{all_digits, chars_of, is_ascii_digit, lex_lt, lemma_seq_lt_irreflexive, lemma_seq_lt_total};
use crate::text::{lemma_seq_lt_transitive, lower_chars, lowercase, parse_u64, parse_u64_chars, seq_lt};

verus! {

broadcast use vstd::seq_lib::group_to_multiset_ensures;

/// Where a folder under `Mods/` comes from: a name of digits only is a
/// Workshop item (a local mod where the number does not fit).
pub open spec fn folder_source(name: Seq<char>) -> ModSource {
    if name.len() > 0 && all_digits(name) {
        match parse_u64(name) {
            Some(id) => ModSource::Workshop(id),
            None => ModSource::Local,
        }
    } else {
        ModSource::Local
    }
}

pub fn source_for_folder(folder_name: &str) -> (r: ModSource)
    ensures
        r == folder_source(folder_name@),
{
    let cs = chars_of(folder_name);
    let mut digits = cs.len() > 0;
    for i in 0..cs.len()
        invariant
            cs@ == folder_name@,
            digits == (cs@.len() > 0 && forall|j: int| 0 <= j < i ==> is_ascii_digit(#[trigger] cs@[j])),
    {
        if !('0' <= cs[i] && cs[i] <= '9') {
            digits = false;
        }
    }
    if !digits {
        return ModSource::Local;
    }
    match parse_u64_chars(&cs) {
        Some(id) => ModSource::Workshop(id),
        None => ModSource::Local,
    }
}

/// Where a folder under the game's `Data/` comes from: `Core` is the base
/// game, anything else a DLC of that name.
pub fn dlc_source(folder_name: &str) -> (r: ModSource)
    ensures
        folder_name@ == "Core"@ ==> r is Core,
        folder_name@ != "Core"@ ==> (r matches ModSource::DLC(n) && n@ == folder_name@),
{
    let cs = chars_of(folder_name);
    let core = chars_of("Core");
    if cs.len() == core.len() && crate::text::starts_with(&cs, &core) {
        assert(cs@.take(core@.len() as int) =~= cs@);
        ModSource::Core
    } else {
        assert(cs@.len() == core@.len() ==> cs@.take(core@.len() as int) =~= cs@);
        ModSource::DLC(String::from_str(folder_name))
    }
}

/// A preview image of a mod: `preview.png`, `.jpg`, `.jpeg`, `.webp` or
/// `.gif`, in any case.
pub open spec fn is_preview(file_name: Seq<char>) -> bool {
    let l = lowercase(file_name);
    l == "preview.png"@ || l == "preview.jpg"@ || l == "preview.jpeg"@ || l == "preview.webp"@ || l == "preview.gif"@
}

fn is_word(s: &[char], w: &str) -> (r: bool)
    ensures
        r == (s@ == w@),
{
    let l = chars_of(w);
    if s.len() != l.len() {
        return false;
    }
    let r = crate::text::starts_with(s, &l);
    assert(s@.take(l@.len() as int) =~= s@);
    r
}

pub fn is_preview_name(file_name: &str) -> (r: bool)
    ensures
        r == is_preview(file_name@),
{
    let l = lower_chars(&chars_of(file_name));
    is_word(&l, "preview.png") || is_word(&l, "preview.jpg") || is_word(&l, "preview.jpeg") || is_word(&l, "preview.webp")
        || is_word(&l, "preview.gif")
}

pub open spec fn normalized(v: Seq<Seq<char>>) -> Seq<Seq<char>> {
    v.map_values(|s: Seq<char>| normalize(s))
}

fn ids_of_strs(v: &Vec<String>) -> (r: Vec<ModId>)
    ensures
        id_views(r@) == normalized(strs_view(v@)),
{
    let mut out: Vec<ModId> = Vec::new();
    for i in 0..v.len()
        invariant
            id_views(out@) == normalized(strs_view(v@.take(i as int))),
    {
        let ghost before = id_views(out@);
        out.push(ModId::new(v[i].as_str()));
        assert(strs_view(v@.take(i + 1)) =~= strs_view(v@.take(i as int)).push(v@[i as int]@));
        assert(id_views(out@) =~= before.push(normalize(v@[i as int]@)));
    }
    assert(v@.take(v@.len() as int) == v@);
    out
}

/// The entry of a mod folder from its About.xml: the folder's name where
/// the mod gives none; identifiers normalized.
pub fn entry_from_about(data: AboutData, path: String, folder_name: &str, source: ModSource, preview_path: Option<String>) -> (r:
    ModEntry)
    ensures
        r.name@ == (if data.name@.len() == 0 { folder_name@ } else { data.name@ }),
        r.package_id@ == normalize(data.package_id@),
        r.version@ == data.version@,
        r.author@ == data.author@,
        strs_view(r.supported_versions@) == strs_view(data.supported_versions@),
        r.path@ == path@,
        r.source == source,
        id_views(r.dependencies@) == normalized(strs_view(data.dependencies@)),
        r.dependency_sources@.map_values(|p: (ModId, u64)| (p.0@, p.1))
            == sources_view(data.dependency_sources@).map_values(|p: (Seq<char>, u64)| (normalize(p.0), p.1)),
        id_views(r.load_after@) == normalized(strs_view(data.load_after@)),
        id_views(r.load_before@) == normalized(strs_view(data.load_before@)),
        id_views(r.incompatible_with@) == normalized(strs_view(data.incompatible_with@)),
        r.description@ == data.description@,
        r.preview_path == preview_path,
{
    let name = if data.name.as_str().unicode_len() == 0 { String::from_str(folder_name) } else { data.name };
    let mut sources: Vec<(ModId, u64)> = Vec::new();
    let ghost sv = sources_view(data.dependency_sources@);
    for i in 0..data.dependency_sources.len()
        invariant
            sv == sources_view(data.dependency_sources@),
            sources@.map_values(|p: (ModId, u64)| (p.0@, p.1))
                == sv.take(i as int).map_values(|p: (Seq<char>, u64)| (normalize(p.0), p.1)),
    {
        let (id, ws) = &data.dependency_sources[i];
        let ghost before = sources@.map_values(|p: (ModId, u64)| (p.0@, p.1));
        sources.push((ModId::new(id.as_str()), *ws));
        assert(sv.take(i + 1) =~= sv.take(i as int).push(sv[i as int]));
        assert(sources@.map_values(|p: (ModId, u64)| (p.0@, p.1)) =~= before.push((normalize(sv[i as int].0), sv[i as int].1)));
    }
    assert(sv.take(sv.len() as int) == sv);
    ModEntry {
        name,
        package_id: ModId::new(data.package_id.as_str()),
        version: data.version,
        author: data.author,
        supported_versions: data.supported_versions,
        path,
        source,
        dependencies: ids_of_strs(&data.dependencies),
        dependency_sources: sources,
        load_after: ids_of_strs(&data.load_after),
        load_before: ids_of_strs(&data.load_before),
        incompatible_with: ids_of_strs(&data.incompatible_with),
        description: data.description,
        preview_path,
    }
}

/// The order of the game's `Data/` folders: `Core` first, then by name.
pub open spec fn folder_before(a: Seq<char>, b: Seq<char>) -> bool {
    if a == "Core"@ {
        b != "Core"@
    } else {
        b != "Core"@ && seq_lt(a, b)
    }
}

pub open spec fn folders_sorted(s: Seq<Seq<char>>) -> bool {
    forall|i: int, j: int| 0 <= i < j < s.len() ==> !folder_before(#[trigger] s[j], #[trigger] s[i])
}

proof fn lemma_folder_order(a: Seq<char>, b: Seq<char>, c: Seq<char>)
    ensures
        !folder_before(a, a),
        a != b ==> folder_before(a, b) || folder_before(b, a),
        folder_before(a, b) && folder_before(b, c) ==> folder_before(a, c),
        folder_before(a, b) ==> !folder_before(b, a),
{
    lemma_seq_lt_irreflexive(a);
    lemma_seq_lt_total(a, b);
    lemma_seq_lt_total(b, c);
    lemma_seq_lt_total(a, c);
    if seq_lt(a, b) && seq_lt(b, c) {
        lemma_seq_lt_transitive(a, b, c);
    }
    if seq_lt(a, b) && seq_lt(b, a) {
        lemma_seq_lt_transitive(a, b, a);
        lemma_seq_lt_irreflexive(a);
    }
}

fn goes_before(a: &str, b: &str) -> (r: bool)
    ensures
        r == folder_before(a@, b@),
{
    let ca = chars_of(a);
    let cb = chars_of(b);
    let a_core = is_word(&ca, "Core");
    let b_core = is_word(&cb, "Core");
    if a_core {
        !b_core
    } else {
        !b_core && lex_lt(&ca, &cb)
    }
}

/// The `Data/` folder names in the order their entries are listed: `Core`
/// first, then by name.
pub fn order_dlc_folders(names: Vec<String>) -> (r: Vec<String>)
    ensures
        folders_sorted(strs_view(r@)),
        strs_view(r@).to_multiset() == strs_view(names@).to_multiset(),
{
    let mut out: Vec<String> = Vec::new();
    let ghost nv = strs_view(names@);
    for k in 0..names.len()
        invariant
            nv == strs_view(names@),
            folders_sorted(strs_view(out@)),
            strs_view(out@).to_multiset() == nv.take(k as int).to_multiset(),
    {
        let ghost ov = strs_view(out@);
        let x = names[k].clone();
        let mut j: usize = 0;
        while j < out.len() && !goes_before(x.as_str(), out[j].as_str())
            invariant
                ov == strs_view(out@),
                x@ == nv[k as int],
                j <= out@.len(),
                forall|t: int| 0 <= t < j ==> !folder_before(x@, #[trigger] ov[t]),
            decreases out@.len() - j,
        {
            j = j + 1;
        }
        out.insert(j, x);
        proof {
            let nw = strs_view(out@);
            assert(nw =~= ov.insert(j as int, x@));
            assert forall|a: int, b: int| 0 <= a < b < nw.len() implies !folder_before(#[trigger] nw[b], #[trigger] nw[a]) by {
                if a == j {
                    // What follows x is not before the element x was put
                    // in front of, which is after x.
                    let y = ov[b - 1];
                    assert(folder_before(x@, ov[j as int]));
                    lemma_folder_order(x@, ov[j as int], y);
                    lemma_folder_order(y, x@, ov[j as int]);
                    if b - 1 > j {
                        assert(!folder_before(ov[b - 1], ov[j as int]));
                    }
                } else if b == j {
                    assert(!folder_before(x@, ov[a]));
                } else {
                    let ia = if a < j { a } else { a - 1 };
                    let ib = if b < j { b } else { b - 1 };
                    assert(nw[a] == ov[ia] && nw[b] == ov[ib]);
                }
            }
            assert(nv.take(k + 1) =~= nv.take(k as int).push(nv[k as int]));
            vstd::seq_lib::to_multiset_insert(ov, j as int, x@);
        }
    }
    assert(nv.take(names@.len() as int) == nv);
    out
}

} // verus!
