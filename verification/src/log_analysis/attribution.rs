//! Guessing which mods are behind a log entry.

use vstd::prelude::*;
use crate::mod_data::db::ModDb;
use crate::mod_data::mod_entry::ModEntry;
use crate::mod_data::profile::Profile;
use super::{LogIssue, Suspect};
use super::parser::{lines_of, lines_view, strings_of, text_lines};
use crate::text::{lex_lt, seq_lt, byte_len, byte_len_at_least, string_of, chars_of, find_from, first_occurrence, has_char, has_suffix, is_ascii_digit, lower_chars, lowercase, occurs, prefix_before, push_all, slice_vec, take_before, trim_start, trim_start_chars, starts_with, contains, ends_with, has_prefix};

verus! {

// ── Stack frames ────────────────────────────────────────────────────────────

/// A frame with a leading `(wrapper ...)` marker removed.
pub open spec fn after_wrapper(frame: Seq<char>) -> Seq<char> {
    if has_prefix(frame, "(wrapper dynamic-method)"@) {
        trim_start(frame.skip(24))
    } else if has_prefix(frame, "(wrapper"@) {
        let rest = frame.skip(8);
        let head = prefix_before(rest, seq![')']);
        trim_start(if head.len() < rest.len() { rest.skip(head.len() + 1int) } else { rest })
    } else {
        frame
    }
}

/// The method path of a frame: `Ns.Class.Method (args) [0x...]` gives
/// `Ns.Class.Method`; `(wrapper dynamic-method) X (...)` gives `X`.
pub open spec fn method_path(frame: Seq<char>) -> Seq<char> {
    prefix_before(after_wrapper(frame), seq![' ', '('])
}

fn method_path_of(frame: &[char]) -> (r: Vec<char>)
    ensures
        r@ == method_path(frame@),
{
    let dm = chars_of("(wrapper dynamic-method)");
    let w = chars_of("(wrapper");
    proof {
        reveal_strlit("(wrapper dynamic-method)");
        reveal_strlit("(wrapper");
    }
    let s = if starts_with(frame, &dm) {
        trim_start_chars(&slice_vec(frame, 24, frame.len()))
    } else if starts_with(frame, &w) {
        let rest = slice_vec(frame, 8, frame.len());
        let paren = vec![')'];
        assert(paren@ == seq![')']);
        let head = take_before(&rest, &paren);
        if head.len() < rest.len() {
            trim_start_chars(&slice_vec(&rest, head.len() + 1, rest.len()))
        } else {
            trim_start_chars(&rest)
        }
    } else {
        slice_vec(frame, 0, frame.len())
    };
    assert(frame@.skip(24) == frame@.subrange(24, frame@.len() as int));
    assert(frame@.subrange(0, frame@.len() as int) == frame@);
    let stops = vec![' ', '('];
    assert(stops@ == seq![' ', '(']);
    take_before(&s, &stops)
}

/// The first two segments of a method path, lowercased: the root, and root
/// and second joined by a dot (the root alone where there is no second).
pub open spec fn namespace_roots(path: Seq<char>) -> (Seq<char>, Seq<char>) {
    let first = prefix_before(path, seq!['.', ':']);
    let second = if first.len() < path.len() {
        prefix_before(path.skip(first.len() + 1int), seq!['.', ':'])
    } else {
        Seq::empty()
    };
    let root = lowercase(first);
    let sec = lowercase(second);
    (root, if sec.len() == 0 { root } else { root + seq!['.'] + sec })
}

fn namespace_roots_of(path: &[char]) -> (r: (Vec<char>, Vec<char>))
    ensures
        (r.0@, r.1@) == namespace_roots(path@),
{
    let stops = vec!['.', ':'];
    assert(stops@ == seq!['.', ':']);
    let first = take_before(path, &stops);
    let second = if first.len() < path.len() {
        let rest = slice_vec(path, first.len() + 1, path.len());
        assert(rest@ == path@.skip(first@.len() + 1int));
        take_before(&rest, &stops)
    } else {
        Vec::new()
    };
    let root = lower_chars(&first);
    let sec = lower_chars(&second);
    if sec.len() == 0 {
        let two = slice_vec(&root, 0, root.len());
        assert(two@ == root@);
        (root, two)
    } else {
        let mut two = slice_vec(&root, 0, root.len());
        assert(two@ == root@);
        two.push('.');
        push_all(&mut two, &sec);
        (root, two)
    }
}

/// Namespaces of the game, its engine and the runtime: never a culprit.
pub open spec fn vanilla_names() -> Seq<Seq<char>> {
    seq![
        "system"@, "verse"@, "rimworld"@, "unityengine"@, "unity"@, "harmonylib"@,
        "mono"@, "microsoft"@, "tmpro"@, "steamworks"@, "ludeontk"@, "mscorlib"@,
        "0harmony"@, "ionic"@, "newtonsoft"@, "runtimeaudioclip"@, "object"@,
    ]
}

fn vanilla_list() -> (r: Vec<Vec<char>>)
    ensures
        r@.map_values(|l: Vec<char>| l@) == vanilla_names(),
{
    let mut r: Vec<Vec<char>> = Vec::new();
    r.push(chars_of("system"));
    r.push(chars_of("verse"));
    r.push(chars_of("rimworld"));
    r.push(chars_of("unityengine"));
    r.push(chars_of("unity"));
    r.push(chars_of("harmonylib"));
    r.push(chars_of("mono"));
    r.push(chars_of("microsoft"));
    r.push(chars_of("tmpro"));
    r.push(chars_of("steamworks"));
    r.push(chars_of("ludeontk"));
    r.push(chars_of("mscorlib"));
    r.push(chars_of("0harmony"));
    r.push(chars_of("ionic"));
    r.push(chars_of("newtonsoft"));
    r.push(chars_of("runtimeaudioclip"));
    r.push(chars_of("object"));
    assert(r@.map_values(|l: Vec<char>| l@) =~= vanilla_names());
    r
}

fn is_vanilla(x: &Vec<char>) -> (r: bool)
    ensures
        r == vanilla_names().contains(x@),
{
    let list = vanilla_list();
    let ghost v = list@.map_values(|l: Vec<char>| l@);
    for k in 0..list.len()
        invariant
            v == list@.map_values(|l: Vec<char>| l@),
            v == vanilla_names(),
            forall|t: int| 0 <= t < k ==> v[t] != x@,
    {
        assert(v[k as int] == list@[k as int]@);
        if same_chars(&list[k], x) {
            return true;
        }
    }
    proof {
        if v.contains(x@) {
            let t = choose|t: int| 0 <= t < v.len() && v[t] == x@;
            assert(v[t] != x@);
        }
    }
    false
}

pub(crate) fn same_chars(a: &Vec<char>, b: &Vec<char>) -> (r: bool)
    ensures
        r == (a@ == b@),
{
    if a.len() != b.len() {
        return false;
    }
    for k in 0..a.len()
        invariant
            a@.len() == b@.len(),
            forall|t: int| 0 <= t < k ==> a@[t] == b@[t],
    {
        if a[k] != b[k] {
            return false;
        }
    }
    assert(a@ == b@);
    true
}

// ── Paths in the text ───────────────────────────────────────────────────────

/// The path segment right after the first `marker` in a (lowercased) line:
/// `.../mods/mymod/textures/x.png` after `mods/` gives `mymod`.
pub open spec fn segment_after(lower: Seq<char>, marker: Seq<char>) -> Option<Seq<char>> {
    match first_occurrence(lower, marker) {
        None => None,
        Some(p) => {
            let seg = prefix_before(lower.skip(p + marker.len()), seq!['/', '\\', '"', '\'', ' ']);
            if seg.len() > 0 { Some(seg) } else { None }
        },
    }
}

fn segment_after_of(lower: &Vec<char>, marker: &Vec<char>) -> (r: Option<Vec<char>>)
    ensures
        r matches Some(v) ==> segment_after(lower@, marker@) == Some(v@),
        r is None ==> segment_after(lower@, marker@) is None,
{
    match find_from(lower, marker, 0) {
        None => {
            proof {
                if occurs(lower@, marker@) {
                    let k = choose|k: int| crate::text::occurs_at(lower@, marker@, k);
                    assert(!crate::text::occurs_at(lower@, marker@, k));
                }
            }
            None
        },
        Some(p) => {
            proof {
                crate::text::lemma_first_occurrence_is(lower@, marker@, p as int);
                assert(crate::text::occurs_at(lower@, marker@, p as int));
            }
            assert(p + marker@.len() <= lower.len());
            let n = lower.len();
            let start = p + marker.len();
            let rest = slice_vec(lower, start, n);
            assert(rest@ == lower@.skip(p + marker@.len()));
            let stops = vec!['/', '\\', '"', '\'', ' '];
            assert(stops@ == seq!['/', '\\', '"', '\'', ' ']);
            let seg = take_before(&rest, &stops);
            if seg.len() > 0 {
                Some(seg)
            } else {
                None
            }
        },
    }
}

// ── Harmony traces ──────────────────────────────────────────────────────────

/// Splitting at every `c`.
pub open spec fn split_on(s: Seq<char>, c: char) -> Seq<Seq<char>>
    decreases s.len(),
{
    if s.len() == 0 {
        seq![Seq::empty()]
    } else {
        let parts = split_on(s.drop_last(), c);
        if s.last() == c {
            parts.push(Seq::empty())
        } else {
            parts.update(parts.len() - 1, parts.last().push(s.last()))
        }
    }
}

/// Parts joined with `c` between them.
pub open spec fn join_on(parts: Seq<Seq<char>>, c: char) -> Seq<char>
    decreases parts.len(),
{
    if parts.len() == 0 {
        Seq::empty()
    } else if parts.len() == 1 {
        parts[0]
    } else {
        join_on(parts.drop_last(), c) + seq![c] + parts.last()
    }
}

proof fn lemma_split_on_len(s: Seq<char>, c: char)
    ensures
        split_on(s, c).len() >= 1,
    decreases s.len(),
{
    if s.len() > 0 {
        lemma_split_on_len(s.drop_last(), c);
    }
}

fn split_chars(s: &[char], c: char) -> (r: Vec<Vec<char>>)
    ensures
        r@.map_values(|l: Vec<char>| l@) == split_on(s@, c),
{
    let mut parts: Vec<Vec<char>> = Vec::new();
    let mut cur: Vec<char> = Vec::new();
    for k in 0..s.len()
        invariant
            parts@.map_values(|l: Vec<char>| l@).push(cur@) == split_on(s@.take(k as int), c),
    {
        let ghost before = parts@.map_values(|l: Vec<char>| l@);
        proof {
            lemma_split_on_len(s@.take(k as int), c);
            assert(s@.take(k + 1).drop_last() == s@.take(k as int));
        }
        if s[k] == c {
            parts.push(cur);
            cur = Vec::new();
            assert(parts@.map_values(|l: Vec<char>| l@) == before.push(split_on(s@.take(k as int), c).last()));
            assert(parts@.map_values(|l: Vec<char>| l@).push(cur@) == split_on(s@.take(k + 1), c));
        } else {
            cur.push(s[k]);
            assert(parts@.map_values(|l: Vec<char>| l@).push(cur@) == split_on(s@.take(k + 1), c));
        }
    }
    assert(s@.take(s@.len() as int) == s@);
    let ghost before = parts@.map_values(|l: Vec<char>| l@);
    parts.push(cur);
    assert(parts@.map_values(|l: Vec<char>| l@) == before.push(cur@));
    parts
}

fn join_chars(parts: &[Vec<char>], c: char) -> (r: Vec<char>)
    ensures
        r@ == join_on(parts@.map_values(|l: Vec<char>| l@), c),
{
    let ghost v = parts@.map_values(|l: Vec<char>| l@);
    let mut out: Vec<char> = Vec::new();
    for k in 0..parts.len()
        invariant
            v == parts@.map_values(|l: Vec<char>| l@),
            out@ == join_on(v.take(k as int), c),
    {
        assert(v.take(k + 1).drop_last() == v.take(k as int));
        assert(v[k as int] == parts@[k as int]@);
        if k > 0 {
            out.push(c);
        }
        push_all(&mut out, &parts[k]);
        assert(v.take(k + 1).last() == v[k as int]);
        if k == 0 {
            assert(out@ == v.take(1)[0]);
        }
    }
    assert(v.take(parts@.len() as int) == v);
    out
}

/// The runtime names wrapper methods with the path doubled:
/// `Ns.Class.Ns.Class.Method`. This gives the path without the repeat.
pub open spec fn undouble(path: Seq<char>) -> Seq<char> {
    let segs = split_on(path, '.');
    let n = segs.len();
    let half = n / 2;
    if n >= 3 && n % 2 == 1 && segs.take(half as int) == segs.subrange(half as int, n - 1) {
        join_on(segs.skip(half as int), '.')
    } else {
        path
    }
}

fn undouble_of(path: &[char]) -> (r: Vec<char>)
    ensures
        r@ == undouble(path@),
{
    let segs = split_chars(path, '.');
    let ghost sv = segs@.map_values(|l: Vec<char>| l@);
    let n = segs.len();
    if n >= 3 && n % 2 == 1 {
        let half = n / 2;
        let mut same = true;
        let mut k: usize = 0;
        while k < half
            invariant
                sv == segs@.map_values(|l: Vec<char>| l@),
                n == sv.len(),
                half == n / 2,
                k <= half,
                same == forall|t: int| 0 <= t < k ==> #[trigger] sv[t] == sv[half + t],
            decreases half - k,
        {
            assert(sv[k as int] == segs@[k as int]@);
            assert(sv[half + k] == segs@[half + k]@);
            if !same_chars(&segs[k], &segs[half + k]) {
                same = false;
            }
            k = k + 1;
        }
        if same {
            assert(sv.take(half as int) =~= sv.subrange(half as int, n - 1));
            let tail = segs.split_at(half).1;
            assert(tail@.map_values(|l: Vec<char>| l@) == sv.skip(half as int));
            return join_chars(tail, '.');
        } else {
            proof {
                if sv.take(half as int) == sv.subrange(half as int, n - 1) {
                    let t = choose|t: int| 0 <= t < half && #[trigger] sv[t] != sv[half + t];
                    assert(sv.take(half as int)[t] == sv.subrange(half as int, n - 1)[t]);
                }
            }
        }
    }
    slice_vec(path, 0, path.len())
}

} // verus!

verus! {

/// The last segment of a method path (after the last `.` or `:`).
pub open spec fn last_segment(s: Seq<char>) -> Seq<char>
    decreases s.len(),
{
    if s.len() == 0 || s.last() == '.' || s.last() == ':' {
        Seq::empty()
    } else {
        last_segment(s.drop_last()).push(s.last())
    }
}

/// `s` without trailing ASCII digits.
pub open spec fn strip_digits(s: Seq<char>) -> Seq<char>
    decreases s.len(),
{
    if s.len() > 0 && is_ascii_digit(s.last()) {
        strip_digits(s.drop_last())
    } else {
        s
    }
}

/// The suffix that marks a Harmony patch method.
pub open spec fn patch_word() -> Seq<char> {
    seq!['_', 'P', 'a', 't', 'c', 'h']
}

/// `s` without any trailing repeats of `_Patch`.
pub open spec fn strip_patch(s: Seq<char>) -> Seq<char>
    decreases s.len(),
{
    if has_suffix(s, patch_word()) {
        strip_patch(s.take(s.len() - 6))
    } else {
        s
    }
}

/// The patched method behind a method path of a Harmony patch, if it is one.
pub open spec fn harmony_of(path: Seq<char>) -> Option<Seq<char>> {
    if occurs(last_segment(path), patch_word()) {
        Some(undouble(strip_patch(strip_digits(path))))
    } else {
        None
    }
}

/// The patched method of the first frame that is a Harmony patch.
pub open spec fn hint_of(frames: Seq<Seq<char>>) -> Option<Seq<char>>
    decreases frames.len(),
{
    if frames.len() == 0 {
        None
    } else {
        match harmony_of(method_path(frames[0])) {
            Some(h) => Some(h),
            None => hint_of(frames.drop_first()),
        }
    }
}

proof fn lemma_last_segment(s: Seq<char>, k: int)
    requires
        0 <= k <= s.len(),
        forall|t: int| k <= t < s.len() ==> #[trigger] s[t] != '.' && s[t] != ':',
        k == 0 || s[k - 1] == '.' || s[k - 1] == ':',
    ensures
        last_segment(s) == s.skip(k),
    decreases s.len() - k,
{
    if k < s.len() {
        lemma_last_segment(s.drop_last(), k);
        assert(s.skip(k) == s.drop_last().skip(k).push(s.last()));
    } else {
        assert(s.skip(k) == Seq::<char>::empty());
    }
}

proof fn lemma_strip_digits(s: Seq<char>, k: int)
    requires
        0 <= k <= s.len(),
        forall|t: int| k <= t < s.len() ==> is_ascii_digit(#[trigger] s[t]),
        k == 0 || !is_ascii_digit(s[k - 1]),
    ensures
        strip_digits(s) == s.take(k),
    decreases s.len() - k,
{
    if k < s.len() {
        lemma_strip_digits(s.drop_last(), k);
        assert(s.drop_last().take(k) == s.take(k));
    } else {
        assert(s.take(k) == s);
    }
}

fn harmony_of_path(path: &Vec<char>) -> (r: Option<Vec<char>>)
    ensures
        r matches Some(v) ==> harmony_of(path@) == Some(v@),
        r is None ==> harmony_of(path@) is None,
{
    let mut k = path.len();
    while k > 0 && path[k - 1] != '.' && path[k - 1] != ':'
        invariant
            k <= path@.len(),
            forall|t: int| k <= t < path@.len() ==> #[trigger] path@[t] != '.' && path@[t] != ':',
        decreases k,
    {
        k = k - 1;
    }
    proof {
        lemma_last_segment(path@, k as int);
    }
    let last = slice_vec(path, k, path.len());
    assert(last@ == path@.skip(k as int));
    let word = vec!['_', 'P', 'a', 't', 'c', 'h'];
    assert(word@ == patch_word());
    if !contains(&last, &word) {
        return None;
    }
    let mut d = path.len();
    while d > 0 && '0' <= path[d - 1] && path[d - 1] <= '9'
        invariant
            d <= path@.len(),
            forall|t: int| d <= t < path@.len() ==> is_ascii_digit(#[trigger] path@[t]),
        decreases d,
    {
        d = d - 1;
    }
    proof {
        lemma_strip_digits(path@, d as int);
    }
    let mut cur = slice_vec(path, 0, d);
    assert(cur@ == strip_digits(path@));
    while ends_with(&cur, &word)
        invariant
            word@ == patch_word(),
            strip_patch(cur@) == strip_patch(strip_digits(path@)),
        decreases cur@.len(),
    {
        let n = cur.len() - 6;
        cur = slice_vec(&cur, 0, n);
    }
    Some(undouble_of(&cur))
}

fn hint_of_frames(frames: &Vec<String>) -> (r: Option<String>)
    ensures
        r matches Some(v) ==> hint_of(frames@.map_values(|f: String| f@)) == Some(v@),
        r is None ==> hint_of(frames@.map_values(|f: String| f@)) is None,
{
    let ghost fv = frames@.map_values(|f: String| f@);
    assert(fv.skip(0) == fv);
    for k in 0..frames.len()
        invariant
            fv == frames@.map_values(|f: String| f@),
            hint_of(fv) == hint_of(fv.skip(k as int)),
    {
        assert(fv.skip(k as int)[0] == frames@[k as int]@);
        assert(fv.skip(k as int).drop_first() == fv.skip(k + 1));
        let f = chars_of(frames[k].as_str());
        let path = method_path_of(&f);
        if let Some(h) = harmony_of_path(&path) {
            return Some(crate::text::string_of(&h));
        }
    }
    assert(fv.skip(frames@.len() as int) == Seq::<Seq<char>>::empty());
    None
}

} // verus!

verus! {

// ── The index of installed mods ─────────────────────────────────────────────

/// `Path::file_name` of a path, as text: its last component, where it has
/// one that is not `..`.
pub uninterp spec fn file_name_of(path: Seq<char>) -> Option<Seq<char>>;

/// The last component of a path (`Path::file_name`).
///
/// Trusted: the result is what `Path::file_name` gives for the path, named
/// [`file_name_of`]; the path is valid UTF-8, so its name is too.
#[verifier::external_body]
fn file_name(path: &str) -> (r: Option<String>)
    ensures
        r matches Some(f) ==> file_name_of(path@) == Some(f@),
        r is None ==> file_name_of(path@) is None,
{
    std::path::Path::new(path).file_name().and_then(|s| s.to_str()).map(|s| s.to_string())
}

/// The value last paired with `key`.
pub open spec fn assoc(list: Seq<(Seq<char>, int)>, key: Seq<char>) -> Option<int>
    decreases list.len(),
{
    if list.len() == 0 {
        None
    } else if list.last().0 == key {
        Some(list.last().1)
    } else {
        assoc(list.drop_last(), key)
    }
}

pub open spec fn pairs_view(v: Seq<(Vec<char>, usize)>) -> Seq<(Seq<char>, int)> {
    v.map_values(|p: (Vec<char>, usize)| (p.0@, p.1 as int))
}

/// The DLL names of each mod, lowercased.
pub open spec fn lowered(stems: Seq<String>) -> Seq<Seq<char>> {
    stems.map_values(|s: String| lowercase(s@))
}

/// The first mod that ships a DLL named `key` (lowercased, without `.dll`);
/// DLLs named like the game's own namespaces do not count.
pub open spec fn dll_owner(stems: Seq<Seq<Seq<char>>>, key: Seq<char>) -> Option<int>
    decreases stems.len(),
{
    if stems.len() == 0 {
        None
    } else {
        match dll_owner(stems.drop_last(), key) {
            Some(i) => Some(i),
            None => if !vanilla_names().contains(key) && stems.last().contains(key) {
                Some(stems.len() - 1)
            } else {
                None
            },
        }
    }
}

/// The last mod whose folder is named `key` (lowercased).
pub open spec fn folder_owner(folders: Seq<Option<Seq<char>>>, key: Seq<char>) -> Option<int>
    decreases folders.len(),
{
    if folders.len() == 0 {
        None
    } else if folders.last() is Some && lowercase(folders.last()->0) == key {
        Some(folders.len() - 1)
    } else {
        folder_owner(folders.drop_last(), key)
    }
}

/// The packageIds worth searching the text for (six bytes or more),
/// lowercased, with their mods.
pub open spec fn package_keys(es: Seq<ModEntry>) -> Seq<(Seq<char>, int)>
    decreases es.len(),
{
    if es.len() == 0 {
        Seq::empty()
    } else {
        let p = package_keys(es.drop_last());
        if byte_len(es.last().package_id@) >= 6 {
            p.push((lowercase(es.last().package_id@), es.len() - 1))
        } else {
            p
        }
    }
}

/// The mod names worth searching the text for (eight bytes or more), with
/// their mods.
pub open spec fn name_keys(es: Seq<ModEntry>) -> Seq<(Seq<char>, int)>
    decreases es.len(),
{
    if es.len() == 0 {
        Seq::empty()
    } else {
        let p = name_keys(es.drop_last());
        if byte_len(es.last().name@) >= 8 {
            p.push((es.last().name@, es.len() - 1))
        } else {
            p
        }
    }
}

struct ModRef {
    package_id: String,
    name: String,
    is_active: bool,
}

/// What attribution looks mods up by: DLL names, folder names, packageIds
/// and names.
pub struct ModIndex {
    refs: Vec<ModRef>,
    /// lowercased DLL name (without `.dll`) and its mod
    dll: Vec<(Vec<char>, usize)>,
    /// lowercased folder name and its mod
    folder: Vec<(Vec<char>, usize)>,
    /// lowercased packageId and its mod
    packages: Vec<(Vec<char>, usize)>,
    /// name as About.xml gives it, and its mod; only long enough names
    names: Vec<(Vec<char>, usize)>,
}

impl ModIndex {
    /// packageId, name and whether active, of each mod.
    pub closed spec fn refs_v(&self) -> Seq<(Seq<char>, Seq<char>, bool)> {
        self.refs@.map_values(|r: ModRef| (r.package_id@, r.name@, r.is_active))
    }

    pub closed spec fn dll_of(&self, key: Seq<char>) -> Option<int> {
        assoc(pairs_view(self.dll@), key)
    }

    pub closed spec fn folder_of(&self, key: Seq<char>) -> Option<int> {
        assoc(pairs_view(self.folder@), key)
    }

    pub closed spec fn packages_v(&self) -> Seq<(Seq<char>, int)> {
        pairs_view(self.packages@)
    }

    pub closed spec fn names_v(&self) -> Seq<(Seq<char>, int)> {
        pairs_view(self.names@)
    }

    /// Every mod the lookups give is one of the index.
    pub closed spec fn wf(&self) -> bool {
        &&& forall|k: int| 0 <= k < self.dll@.len() ==> (#[trigger] self.dll@[k]).1 < self.refs@.len()
        &&& forall|k: int| 0 <= k < self.folder@.len() ==> (#[trigger] self.folder@[k]).1 < self.refs@.len()
        &&& forall|k: int| 0 <= k < self.packages@.len() ==> (#[trigger] self.packages@[k]).1 < self.refs@.len()
        &&& forall|k: int| 0 <= k < self.names@.len() ==> (#[trigger] self.names@[k]).1 < self.refs@.len()
    }

    /// How many packageIds and names the index looks mods up by.
    pub fn key_counts(&self) -> (r: (usize, usize))
        ensures
            r.0 == self.packages_v().len(),
            r.1 == self.names_v().len(),
    {
        (self.packages.len(), self.names.len())
    }

    /// Whether every mod the lookups give is one of the index.
    pub fn is_wf(&self) -> (r: bool)
        ensures
            r == self.wf(),
    {
        let n = self.refs.len();
        for k in 0..self.dll.len()
            invariant
                n == self.refs@.len(),
                forall|j: int| 0 <= j < k ==> (#[trigger] self.dll@[j]).1 < n,
        {
            if self.dll[k].1 >= n {
                return false;
            }
        }
        for k in 0..self.folder.len()
            invariant
                n == self.refs@.len(),
                forall|j: int| 0 <= j < k ==> (#[trigger] self.folder@[j]).1 < n,
        {
            if self.folder[k].1 >= n {
                return false;
            }
        }
        for k in 0..self.packages.len()
            invariant
                n == self.refs@.len(),
                forall|j: int| 0 <= j < k ==> (#[trigger] self.packages@[j]).1 < n,
        {
            if self.packages[k].1 >= n {
                return false;
            }
        }
        for k in 0..self.names.len()
            invariant
                n == self.refs@.len(),
                forall|j: int| 0 <= j < k ==> (#[trigger] self.names@[j]).1 < n,
        {
            if self.names[k].1 >= n {
                return false;
            }
        }
        true
    }

    /// Builds the index from the mods of the database, the build, and the
    /// DLL names found in each mod's `Assemblies/` folders (`stems[i]` for
    /// the `i`th mod of the database).
    pub fn build_with_dlls(db: &ModDb, profile: &Profile, stems: &[Vec<String>]) -> (r: ModIndex)
        requires
            stems@.len() == db.entries().len(),
        ensures
            r.wf(),
            r.refs_v() == db.entries().map_values(|e: ModEntry| (e.package_id@, e.name@, profile@.contains(e.package_id@))),
            forall|key: Seq<char>| #[trigger] r.dll_of(key) == dll_owner(stems@.map_values(|s: Vec<String>| lowered(s@)), key),
            forall|key: Seq<char>| #[trigger] r.folder_of(key) == folder_owner(db.entries().map_values(|e: ModEntry| file_name_of(e.path@)), key),
            r.packages_v() == package_keys(db.entries()),
            r.names_v() == name_keys(db.entries()),
    {
        let mods = db.iter();
        let ghost es = db.entries();
        let ghost sv = stems@.map_values(|s: Vec<String>| lowered(s@));
        let ghost fv = es.map_values(|e: ModEntry| file_name_of(e.path@));
        let mut refs: Vec<ModRef> = Vec::new();
        let mut dll: Vec<(Vec<char>, usize)> = Vec::new();
        let mut folder: Vec<(Vec<char>, usize)> = Vec::new();
        let mut packages: Vec<(Vec<char>, usize)> = Vec::new();
        let mut names: Vec<(Vec<char>, usize)> = Vec::new();
        for i in 0..mods.len()
            invariant
                mods@ == es,
                stems@.len() == es.len(),
                sv == stems@.map_values(|s: Vec<String>| lowered(s@)),
                fv == es.map_values(|e: ModEntry| file_name_of(e.path@)),
                refs@.map_values(|r: ModRef| (r.package_id@, r.name@, r.is_active)) == es.take(i as int).map_values(
                    |e: ModEntry| (e.package_id@, e.name@, profile@.contains(e.package_id@)),
                ),
                forall|key: Seq<char>| #[trigger] assoc(pairs_view(dll@), key) == dll_owner(sv.take(i as int), key),
                forall|key: Seq<char>| #[trigger] assoc(pairs_view(folder@), key) == folder_owner(fv.take(i as int), key),
                pairs_view(packages@) == package_keys(es.take(i as int)),
                pairs_view(names@) == name_keys(es.take(i as int)),
                forall|k: int| 0 <= k < dll@.len() ==> (#[trigger] dll@[k]).1 < i,
                forall|k: int| 0 <= k < folder@.len() ==> (#[trigger] folder@[k]).1 < i,
                forall|k: int| 0 <= k < packages@.len() ==> (#[trigger] packages@[k]).1 < i,
                forall|k: int| 0 <= k < names@.len() ==> (#[trigger] names@[k]).1 < i,
        {
            let m = &mods[i];
            assert(es.take(i + 1).drop_last() == es.take(i as int));
            assert(sv.take(i + 1).drop_last() == sv.take(i as int));
            assert(fv.take(i + 1).drop_last() == fv.take(i as int));
            let ghost rv = refs@.map_values(|r: ModRef| (r.package_id@, r.name@, r.is_active));
            refs.push(ModRef {
                package_id: string_of(&chars_of(m.package_id.as_str())),
                name: string_of(&chars_of(m.name.as_str())),
                is_active: profile.is_active(&m.package_id),
            });
            assert(refs@.map_values(|r: ModRef| (r.package_id@, r.name@, r.is_active)) == rv.push(
                (m.package_id@, m.name@, profile@.contains(m.package_id@)),
            ));
            assert(es.take(i + 1).map_values(|e: ModEntry| (e.package_id@, e.name@, profile@.contains(e.package_id@)))
                == es.take(i as int).map_values(|e: ModEntry| (e.package_id@, e.name@, profile@.contains(e.package_id@))).push(
                (m.package_id@, m.name@, profile@.contains(m.package_id@))));

            // Folder name: the last mod with a folder of that name wins.
            assert(fv[i as int] == file_name_of(m.path@));
            assert(fv.take(i + 1).last() == fv[i as int]);
            if let Some(f) = file_name(m.path.as_str()) {
                let key = lower_chars(&chars_of(f.as_str()));
                let ghost before = pairs_view(folder@);
                folder.push((key, i));
                assert(pairs_view(folder@) == before.push((lowercase(f@), i as int)));
                assert forall|k: Seq<char>| #[trigger] assoc(pairs_view(folder@), k) == folder_owner(fv.take(i + 1), k) by {
                    assert(pairs_view(folder@).drop_last() == before);
                    assert(assoc(before, k) == folder_owner(fv.take(i as int), k));
                }
            } else {
                assert forall|k: Seq<char>| #[trigger] assoc(pairs_view(folder@), k) == folder_owner(fv.take(i + 1), k) by {}
            }

            // packageId and name, where long enough to search for.
            let pid = chars_of(m.package_id.as_str());
            if byte_len_at_least(&pid, 6) {
                let ghost before = pairs_view(packages@);
                packages.push((lower_chars(&pid), i));
                assert(pairs_view(packages@) == before.push((lowercase(m.package_id@), i as int)));
            }
            let nm = chars_of(m.name.as_str());
            if byte_len_at_least(&nm, 8) {
                let ghost before = pairs_view(names@);
                names.push((nm, i));
                assert(pairs_view(names@) == before.push((m.name@, i as int)));
            }

            // DLL names: the first mod with a DLL of that name wins.
            add_dlls(&mut dll, &stems[i], i, Ghost(sv.take(i as int)));
            assert(sv[i as int] == lowered(stems@[i as int]@));
            assert(sv.take(i + 1) == sv.take(i as int).push(sv[i as int]));
        }
        assert(es.take(mods@.len() as int) == es);
        assert(sv.take(mods@.len() as int) == sv);
        assert(fv.take(mods@.len() as int) == fv);
        ModIndex { refs, dll, folder, packages, names }
    }
}

/// The owner of a DLL name once mod `i` has shown the names `shown`.
pub open spec fn dll_partial(earlier: Seq<Seq<Seq<char>>>, shown: Seq<Seq<char>>, i: int, key: Seq<char>) -> Option<int> {
    match dll_owner(earlier, key) {
        Some(o) => Some(o),
        None => if !vanilla_names().contains(key) && shown.contains(key) {
            Some(i)
        } else {
            None
        },
    }
}

proof fn lemma_take_contains(s: Seq<Seq<char>>, j: int, k: Seq<char>)
    requires
        0 <= j < s.len(),
    ensures
        s.take(j + 1).contains(k) <==> (s.take(j).contains(k) || s[j] == k),
{
    if s.take(j).contains(k) {
        let t = choose|t: int| 0 <= t < j && #[trigger] s.take(j)[t] == k;
        assert(s.take(j + 1)[t] == k);
    }
    if s[j] == k {
        assert(s.take(j + 1)[j] == k);
    }
    if s.take(j + 1).contains(k) && s[j] != k {
        let t = choose|t: int| 0 <= t < j + 1 && #[trigger] s.take(j + 1)[t] == k;
        assert(s.take(j)[t] == k);
    }
}

/// Adds the DLL names of mod `i` where no earlier mod has them.
fn add_dlls(
    dll: &mut Vec<(Vec<char>, usize)>,
    stems: &Vec<String>,
    i: usize,
    Ghost(earlier): Ghost<Seq<Seq<Seq<char>>>>,
)
    requires
        earlier.len() == i,
        forall|key: Seq<char>| #[trigger] assoc(pairs_view(old(dll)@), key) == dll_owner(earlier, key),
        forall|k: int| 0 <= k < old(dll)@.len() ==> (#[trigger] old(dll)@[k]).1 < i,
    ensures
        forall|key: Seq<char>| #[trigger] assoc(pairs_view(final(dll)@), key) == dll_owner(earlier.push(lowered(stems@)), key),
        forall|k: int| 0 <= k < final(dll)@.len() ==> (#[trigger] final(dll)@[k]).1 <= i,
{
    let ghost low = lowered(stems@);
    assert forall|key: Seq<char>| #[trigger] assoc(pairs_view(dll@), key) == dll_partial(earlier, low.take(0), i as int, key) by {
        assert(!low.take(0).contains(key));
    }
    for j in 0..stems.len()
        invariant
            earlier.len() == i,
            low == lowered(stems@),
            forall|key: Seq<char>| #[trigger] assoc(pairs_view(dll@), key) == dll_partial(earlier, low.take(j as int), i as int, key),
            forall|k: int| 0 <= k < dll@.len() ==> (#[trigger] dll@[k]).1 <= i,
    {
        let key = lower_chars(&chars_of(stems[j].as_str()));
        assert(low[j as int] == key@);
        let known = lookup(dll, &key).is_some();
        let vanilla = is_vanilla(&key);
        let ghost before = pairs_view(dll@);
        if !vanilla && !known {
            dll.push((key, i));
            assert(pairs_view(dll@) == before.push((key@, i as int)));
        }
        assert forall|k: Seq<char>| #[trigger] assoc(pairs_view(dll@), k) == dll_partial(earlier, low.take(j + 1), i as int, k) by {
            lemma_take_contains(low, j as int, k);
            assert(assoc(before, k) == dll_partial(earlier, low.take(j as int), i as int, k));
            if !vanilla && !known {
                assert(pairs_view(dll@).drop_last() == before);
            }
        }
    }
    assert(low.take(stems@.len() as int) == low);
    assert(earlier.push(low).drop_last() == earlier);
    assert forall|key: Seq<char>| #[trigger] assoc(pairs_view(dll@), key) == dll_owner(earlier.push(low), key) by {
        assert(assoc(pairs_view(dll@), key) == dll_partial(earlier, low, i as int, key));
    }
}

/// The mod last paired with `key`.
fn lookup(list: &Vec<(Vec<char>, usize)>, key: &Vec<char>) -> (r: Option<usize>)
    ensures
        r matches Some(v) ==> assoc(pairs_view(list@), key@) == Some(v as int),
        r is None ==> assoc(pairs_view(list@), key@) is None,
{
    let ghost pv = pairs_view(list@);
    let mut k = list.len();
    assert(pv.take(k as int) == pv);
    while k > 0
        invariant
            k <= list@.len(),
            pv == pairs_view(list@),
            assoc(pv, key@) == assoc(pv.take(k as int), key@),
        decreases k,
    {
        assert(pv.take(k as int).drop_last() == pv.take(k - 1));
        assert(pv.take(k as int).last() == pv[k - 1]);
        if same_chars(&list[k - 1].0, key) {
            return Some(list[k - 1].1);
        }
        k = k - 1;
    }
    None
}

} // verus!

verus! {

// ── Scores ──────────────────────────────────────────────────────────────────

/// Mods with their score and evidence, in the order of their first signal.
pub type Scores = Seq<(int, int, Seq<Seq<char>>)>;

pub open spec fn scores_view(v: Seq<(usize, u128, Vec<Vec<char>>)>) -> Scores {
    v.map_values(|p: (usize, u128, Vec<Vec<char>>)| (p.0 as int, p.1 as int, lines_view(p.2@)))
}

/// Where mod `i` stands in the scores, or -1.
pub open spec fn slot(st: Scores, i: int) -> int
    decreases st.len(),
{
    if st.len() == 0 {
        -1
    } else if st.last().0 == i {
        st.len() - 1
    } else {
        slot(st.drop_last(), i)
    }
}

/// A signal for mod `i` worth `s`: the score grows, and the evidence is
/// kept unless it is already there or four pieces are.
pub open spec fn add_score(st: Scores, i: int, s: int, ev: Seq<char>) -> Scores {
    let k = slot(st, i);
    if k < 0 {
        st.push((i, s, seq![ev]))
    } else {
        let e = st[k];
        st.update(k, (e.0, e.1 + s, if e.2.len() < 4 && !e.2.contains(ev) { e.2.push(ev) } else { e.2 }))
    }
}

proof fn lemma_slot(st: Scores, i: int)
    ensures
        -1 <= slot(st, i) < st.len(),
        slot(st, i) >= 0 ==> st[slot(st, i)].0 == i,
        slot(st, i) < 0 ==> forall|k: int| 0 <= k < st.len() ==> (#[trigger] st[k]).0 != i,
    decreases st.len(),
{
    if st.len() > 0 {
        lemma_slot(st.drop_last(), i);
        if st.last().0 != i {
            assert forall|k: int| 0 <= k < st.len() - 1 implies st.drop_last()[k] == #[trigger] st[k] by {}
        }
    }
}

/// Scores of the mods of an index: each mod known, each score positive
/// and at most `cap`.
pub open spec fn scores_ok(v: Seq<(usize, u128, Vec<Vec<char>>)>, n: int, cap: int) -> bool {
    forall|k: int| 0 <= k < v.len() ==> (#[trigger] v[k]).0 < n && 0 < v[k].1 <= cap
}

fn has_evidence(list: &Vec<Vec<char>>, ev: &Vec<char>) -> (r: bool)
    ensures
        r == lines_view(list@).contains(ev@),
{
    let ghost lv = lines_view(list@);
    for k in 0..list.len()
        invariant
            lv == lines_view(list@),
            forall|t: int| 0 <= t < k ==> lv[t] != ev@,
    {
        assert(lv[k as int] == list@[k as int]@);
        if same_chars(&list[k], ev) {
            return true;
        }
    }
    proof {
        if lv.contains(ev@) {
            let t = choose|t: int| 0 <= t < lv.len() && lv[t] == ev@;
            assert(lv[t] != ev@);
        }
    }
    false
}

fn add_signal(scores: &mut Vec<(usize, u128, Vec<Vec<char>>)>, i: usize, s: i32, ev: Vec<char>, Ghost(n): Ghost<int>, Ghost(cap): Ghost<int>)
    requires
        scores_ok(old(scores)@, n, cap),
        i < n,
        0 < s <= 5,
        0 <= cap,
        cap + s <= u128::MAX,
    ensures
        scores_view(final(scores)@) == add_score(scores_view(old(scores)@), i as int, s as int, ev@),
        scores_ok(final(scores)@, n, cap + s),
{
    let ghost sv = scores_view(scores@);
    proof {
        lemma_slot(sv, i as int);
    }
    let mut k = scores.len();
    assert(sv.take(k as int) == sv);
    while k > 0 && scores[k - 1].0 != i
        invariant
            k <= scores@.len(),
            sv == scores_view(scores@),
            slot(sv, i as int) == slot(sv.take(k as int), i as int),
        decreases k,
    {
        assert(sv.take(k as int).drop_last() == sv.take(k - 1));
        k = k - 1;
    }
    if k == 0 {
        let ghost before = scores_view(scores@);
        scores.push((i, s as u128, vec![ev]));
        proof {
            let v: Vec<Vec<char>> = scores@.last().2;
            assert(lines_view(v@) == seq![ev@]);
        }
        assert(scores_view(scores@) == before.push((i as int, s as int, seq![ev@])));
    } else {
        assert(sv.take(k as int).last() == sv[k - 1]);
        assert(slot(sv, i as int) == k - 1);
        let (idx, sc, mut evs) = scores.remove(k - 1);
        let ghost ev_before = lines_view(evs@);
        if evs.len() < 4 && !has_evidence(&evs, &ev) {
            evs.push(ev);
            assert(lines_view(evs@) == ev_before.push(ev@));
        }
        scores.insert(k - 1, (idx, sc + s as u128, evs));
        assert(scores_view(scores@) == sv.update(k - 1, (sv[k - 1].0, sv[k - 1].1 + s, if sv[k - 1].2.len() < 4 && !sv[k - 1].2.contains(ev@) { sv[k - 1].2.push(ev@) } else { sv[k - 1].2 })));
    }
}

proof fn lemma_assoc_bound(list: Seq<(Seq<char>, int)>, key: Seq<char>, n: int)
    requires
        forall|k: int| 0 <= k < list.len() ==> (#[trigger] list[k]).1 < n,
    ensures
        assoc(list, key) matches Some(v) ==> v < n,
    decreases list.len(),
{
    if list.len() > 0 {
        assert(list.last() == list[list.len() - 1]);
        lemma_assoc_bound(list.drop_last(), key, n);
    }
}

} // verus!

verus! {

// ── Signals ─────────────────────────────────────────────────────────────────

/// How much each kind of signal weighs.
pub const SCORE_PATH: i32 = 5;
pub const SCORE_NAMESPACE: i32 = 4;
pub const SCORE_PACKAGE: i32 = 3;
pub const SCORE_NAME: i32 = 1;

/// How many suspects an issue keeps.
pub const MAX_SUSPECTS: usize = 5;

/// Only the first lines of an entry are searched for packageIds and names
/// (the stack is covered by its frames).
pub const MAX_SCAN_LINES: usize = 20;

/// The evidence of a stack frame: its method path, cut to 80 characters.
pub open spec fn stack_evidence(path: Seq<char>) -> Seq<char> {
    "стек: "@ + (if path.len() <= 80 { path } else { path.take(80) })
}

/// The mod a stack frame points at, with the evidence: the frame's
/// namespace (two segments, else one) is the name of one of its DLLs.
/// Frames of the game's own namespaces point nowhere.
pub open spec fn frame_signal(ix: ModIndex, f: Seq<char>) -> Option<(int, Seq<char>)> {
    let path = method_path(f);
    let (root, two) = namespace_roots(path);
    if root.len() == 0 || vanilla_names().contains(root) {
        None
    } else {
        match (match ix.dll_of(two) {
            Some(i) => Some(i),
            None => ix.dll_of(root),
        }) {
            Some(i) => Some((i, stack_evidence(path))),
            None => None,
        }
    }
}

/// The scores after the signals of the frames, in order.
pub open spec fn frames_scored(ix: ModIndex, st: Scores, fs: Seq<Seq<char>>) -> Scores
    decreases fs.len(),
{
    if fs.len() == 0 {
        st
    } else {
        let st1 = frames_scored(ix, st, fs.drop_last());
        match frame_signal(ix, fs.last()) {
            Some(sig) => add_score(st1, sig.0, 4, sig.1),
            None => st1,
        }
    }
}

pub open spec fn path_evidence(marker: Seq<char>, seg: Seq<char>) -> Seq<char> {
    "путь: …"@ + marker + seg + "/…"@
}

/// The signal of a path into a mod folder after one marker.
pub open spec fn marker_step(ix: ModIndex, st: Scores, lower: Seq<char>, m: Seq<char>) -> Scores {
    match segment_after(lower, m) {
        Some(seg) => match ix.folder_of(seg) {
            Some(i) => add_score(st, i, 5, path_evidence(m, seg)),
            None => st,
        },
        None => st,
    }
}

/// Signals of paths into mod folders in a (lowercased) line: after the
/// game's `Mods` folder, or after the Workshop folder of the game's app id.
pub open spec fn marker_scored(ix: ModIndex, st: Scores, lower: Seq<char>) -> Scores {
    let st1 = marker_step(ix, st, lower, "mods/"@);
    let st2 = marker_step(ix, st1, lower, "mods\\"@);
    let st3 = marker_step(ix, st2, lower, "294100/"@);
    marker_step(ix, st3, lower, "294100\\"@)
}

/// Signals of packageIds in a (lowercased) line.
pub open spec fn package_scored(st: Scores, lower: Seq<char>, pk: Seq<(Seq<char>, int)>) -> Scores
    decreases pk.len(),
{
    if pk.len() == 0 {
        st
    } else {
        let st1 = package_scored(st, lower, pk.drop_last());
        let p = pk.last();
        if occurs(lower, p.0) { add_score(st1, p.1, 3, "packageId: "@ + p.0) } else { st1 }
    }
}

/// Signals of mod names in a line (as written).
pub open spec fn name_scored(st: Scores, line: Seq<char>, nk: Seq<(Seq<char>, int)>) -> Scores
    decreases nk.len(),
{
    if nk.len() == 0 {
        st
    } else {
        let st1 = name_scored(st, line, nk.drop_last());
        let p = nk.last();
        if occurs(line, p.0) { add_score(st1, p.1, 1, "упомянуто название «"@ + p.0 + "»"@) } else { st1 }
    }
}

pub open spec fn line_scored(ix: ModIndex, st: Scores, line: Seq<char>) -> Scores {
    let lower = lowercase(line);
    name_scored(package_scored(marker_scored(ix, st, lower), lower, ix.packages_v()), line, ix.names_v())
}

pub open spec fn lines_scored(ix: ModIndex, st: Scores, ls: Seq<Seq<char>>) -> Scores
    decreases ls.len(),
{
    if ls.len() == 0 {
        st
    } else {
        line_scored(ix, lines_scored(ix, st, ls.drop_last()), ls.last())
    }
}

/// The lines of an entry's text that are searched.
pub open spec fn scanned_lines(text: Seq<char>) -> Seq<Seq<char>> {
    let ls = lines_of(text);
    if ls.len() <= 20 { ls } else { ls.take(20) }
}

/// The scores of an issue: its frames first, then its first lines.
pub open spec fn scores_of(ix: ModIndex, frames: Seq<Seq<char>>, text: Seq<char>) -> Scores {
    lines_scored(ix, frames_scored(ix, Seq::empty(), frames), scanned_lines(text))
}

fn frame_signal_of(ix: &ModIndex, frame: &String) -> (r: Option<(usize, Vec<char>)>)
    requires
        ix.wf(),
    ensures
        r matches Some(p) ==> frame_signal(*ix, frame@) == Some((p.0 as int, p.1@)) && p.0 < ix.refs_v().len(),
        r is None ==> frame_signal(*ix, frame@) is None,
{
    let f = chars_of(frame.as_str());
    let path = method_path_of(&f);
    let (root, two) = namespace_roots_of(&path);
    if root.len() == 0 || is_vanilla(&root) {
        return None;
    }
    proof {
        lemma_assoc_bound(pairs_view(ix.dll@), two@, ix.refs@.len() as int);
        lemma_assoc_bound(pairs_view(ix.dll@), root@, ix.refs@.len() as int);
    }
    let owner = match lookup(&ix.dll, &two) {
        Some(i) => Some(i),
        None => lookup(&ix.dll, &root),
    };
    match owner {
        Some(i) => {
            let mut ev = chars_of("стек: ");
            let short = if path.len() <= 80 { slice_vec(&path, 0, path.len()) } else { slice_vec(&path, 0, 80) };
            assert(path@.subrange(0, path@.len() as int) == path@);
            push_all(&mut ev, &short);
            Some((i, ev))
        },
        None => None,
    }
}

} // verus!

verus! {

/// Adds the signals of one line of an entry's text.
fn score_line(scores: &mut Vec<(usize, u128, Vec<Vec<char>>)>, ix: &ModIndex, line: &Vec<char>, Ghost(cap): Ghost<int>)
    requires
        ix.wf(),
        scores_ok(old(scores)@, ix.refs_v().len() as int, cap),
        0 <= cap,
        cap + 5 * (4 + ix.packages_v().len() + ix.names_v().len()) <= u128::MAX,
    ensures
        scores_view(final(scores)@) == line_scored(*ix, scores_view(old(scores)@), line@),
        scores_ok(final(scores)@, ix.refs_v().len() as int, cap + 5 * (4 + ix.packages_v().len() + ix.names_v().len())),
{
    let lower = lower_chars(line);
    score_markers(scores, ix, &lower, Ghost(cap));
    score_packages(scores, ix, &lower, Ghost(cap + 20));
    score_names(scores, ix, line, Ghost(cap + 20 + 5 * ix.packages_v().len()));
}

fn score_markers(scores: &mut Vec<(usize, u128, Vec<Vec<char>>)>, ix: &ModIndex, lower: &Vec<char>, Ghost(cap): Ghost<int>)
    requires
        ix.wf(),
        scores_ok(old(scores)@, ix.refs_v().len() as int, cap),
        0 <= cap,
        cap + 20 <= u128::MAX,
    ensures
        scores_view(final(scores)@) == marker_scored(*ix, scores_view(old(scores)@), lower@),
        scores_ok(final(scores)@, ix.refs_v().len() as int, cap + 20),
{
    score_marker(scores, ix, lower, &chars_of("mods/"), Ghost(cap));
    score_marker(scores, ix, lower, &chars_of("mods\\"), Ghost(cap + 5));
    score_marker(scores, ix, lower, &chars_of("294100/"), Ghost(cap + 10));
    score_marker(scores, ix, lower, &chars_of("294100\\"), Ghost(cap + 15));
}

fn score_marker(scores: &mut Vec<(usize, u128, Vec<Vec<char>>)>, ix: &ModIndex, lower: &Vec<char>, m: &Vec<char>, Ghost(cap): Ghost<int>)
    requires
        ix.wf(),
        scores_ok(old(scores)@, ix.refs_v().len() as int, cap),
        0 <= cap,
        cap + 5 <= u128::MAX,
    ensures
        scores_view(final(scores)@) == marker_step(*ix, scores_view(old(scores)@), lower@, m@),
        scores_ok(final(scores)@, ix.refs_v().len() as int, cap + 5),
{
    let ghost n = ix.refs_v().len() as int;
    match segment_after_of(lower, m) {
        Some(seg) => {
            proof {
                lemma_assoc_bound(pairs_view(ix.folder@), seg@, n);
            }
            match lookup(&ix.folder, &seg) {
                Some(i) => {
                    let mut ev = chars_of("путь: …");
                    push_all(&mut ev, m);
                    push_all(&mut ev, &seg);
                    let tail = chars_of("/…");
                    push_all(&mut ev, &tail);
                    add_signal(scores, i, SCORE_PATH, ev, Ghost(n), Ghost(cap));
                },
                None => {},
            }
        },
        None => {},
    }
}

fn score_packages(scores: &mut Vec<(usize, u128, Vec<Vec<char>>)>, ix: &ModIndex, lower: &Vec<char>, Ghost(cap): Ghost<int>)
    requires
        ix.wf(),
        scores_ok(old(scores)@, ix.refs_v().len() as int, cap),
        0 <= cap,
        cap + 5 * ix.packages_v().len() <= u128::MAX,
    ensures
        scores_view(final(scores)@) == package_scored(scores_view(old(scores)@), lower@, ix.packages_v()),
        scores_ok(final(scores)@, ix.refs_v().len() as int, cap + 5 * ix.packages_v().len()),
{
    let ghost n = ix.refs_v().len() as int;
    let ghost st1 = scores_view(scores@);
    let ghost pv = ix.packages_v();
    assert(pv.take(0) == Seq::<(Seq<char>, int)>::empty());
    for k in 0..ix.packages.len()
        invariant
            ix.wf(),
            n == ix.refs@.len(),
            pv == pairs_view(ix.packages@),
            scores_view(scores@) == package_scored(st1, lower@, pv.take(k as int)),
            scores_ok(scores@, n, cap + 5 * k),
            0 <= cap,
            cap + 5 * pv.len() <= u128::MAX,
    {
        assert(pv.take(k + 1).drop_last() == pv.take(k as int));
        assert(pv.take(k + 1).last() == pv[k as int]);
        let p = &ix.packages[k];
        if contains(lower, &p.0) {
            let mut ev = chars_of("packageId: ");
            push_all(&mut ev, &p.0);
            add_signal(scores, p.1, SCORE_PACKAGE, ev, Ghost(n), Ghost(cap + 5 * k));
        }
    }
    assert(pv.take(pv.len() as int) == pv);
}

fn score_names(scores: &mut Vec<(usize, u128, Vec<Vec<char>>)>, ix: &ModIndex, line: &Vec<char>, Ghost(cap): Ghost<int>)
    requires
        ix.wf(),
        scores_ok(old(scores)@, ix.refs_v().len() as int, cap),
        0 <= cap,
        cap + 5 * ix.names_v().len() <= u128::MAX,
    ensures
        scores_view(final(scores)@) == name_scored(scores_view(old(scores)@), line@, ix.names_v()),
        scores_ok(final(scores)@, ix.refs_v().len() as int, cap + 5 * ix.names_v().len()),
{
    let ghost n = ix.refs_v().len() as int;
    let ghost st2 = scores_view(scores@);
    let ghost nv = ix.names_v();
    assert(nv.take(0) == Seq::<(Seq<char>, int)>::empty());
    for k in 0..ix.names.len()
        invariant
            ix.wf(),
            n == ix.refs@.len(),
            nv == pairs_view(ix.names@),
            scores_view(scores@) == name_scored(st2, line@, nv.take(k as int)),
            scores_ok(scores@, n, cap + 5 * k),
            0 <= cap,
            cap + 5 * nv.len() <= u128::MAX,
    {
        assert(nv.take(k + 1).drop_last() == nv.take(k as int));
        assert(nv.take(k + 1).last() == nv[k as int]);
        let p = &ix.names[k];
        if contains(line, &p.0) {
            let mut ev = chars_of("упомянуто название «");
            push_all(&mut ev, &p.0);
            let close = chars_of("»");
            push_all(&mut ev, &close);
            add_signal(scores, p.1, SCORE_NAME, ev, Ghost(n), Ghost(cap + 5 * k));
        }
    }
    assert(nv.take(nv.len() as int) == nv);
}

} // verus!

verus! {

// ── Suspects ────────────────────────────────────────────────────────────────

/// packageId, name, whether active, score, evidence.
pub type SuspectView = (Seq<char>, Seq<char>, bool, int, Seq<Seq<char>>);

pub open spec fn suspect_view(s: Suspect) -> SuspectView {
    (s.package_id@, s.name@, s.is_active, s.score as int, s.evidence@.map_values(|e: String| e@))
}

/// The scored mods as suspects, in the order of their first signal.
pub open spec fn as_suspects(ix: ModIndex, st: Scores) -> Seq<SuspectView> {
    st.map_values(|e: (int, int, Seq<Seq<char>>)| (ix.refs_v()[e.0].0, ix.refs_v()[e.0].1, ix.refs_v()[e.0].2, e.1, e.2))
}

/// `a` goes before `b`: a higher score, or the same score and a name that
/// sorts first.
pub open spec fn ranks_before(a: SuspectView, b: SuspectView) -> bool {
    a.3 > b.3 || (a.3 == b.3 && seq_lt(a.1, b.1))
}

/// `x` placed into a ranked list after everything that does not rank
/// behind it.
pub open spec fn insert_ranked(s: Seq<SuspectView>, x: SuspectView) -> Seq<SuspectView>
    decreases s.len(),
{
    if s.len() == 0 {
        seq![x]
    } else if ranks_before(x, s[0]) {
        seq![x] + s
    } else {
        seq![s[0]] + insert_ranked(s.drop_first(), x)
    }
}

/// The suspects ranked: by score, highest first, then by name; suspects
/// that tie on both keep the order of their first signal.
pub open spec fn ranked(s: Seq<SuspectView>) -> Seq<SuspectView>
    decreases s.len(),
{
    if s.len() == 0 {
        Seq::empty()
    } else {
        insert_ranked(ranked(s.drop_last()), s.last())
    }
}

/// The first suspects of a ranked list.
pub open spec fn top(s: Seq<SuspectView>) -> Seq<SuspectView> {
    if s.len() <= MAX_SUSPECTS { s } else { s.take(MAX_SUSPECTS as int) }
}

proof fn lemma_insert_ranked(s: Seq<SuspectView>, x: SuspectView, p: int)
    requires
        0 <= p <= s.len(),
        forall|t: int| 0 <= t < p ==> !ranks_before(x, #[trigger] s[t]),
        p == s.len() || ranks_before(x, s[p]),
    ensures
        insert_ranked(s, x) == s.insert(p, x),
    decreases p,
{
    if p == 0 {
        if s.len() == 0 {
            assert(s.insert(0, x) == seq![x]);
        } else {
            assert(s.insert(0, x) == seq![x] + s);
        }
    } else {
        let d = s.drop_first();
        assert(!ranks_before(x, s[0]));
        assert forall|t: int| 0 <= t < p - 1 implies !ranks_before(x, #[trigger] d[t]) by {
            assert(d[t] == s[t + 1]);
        }
        if p < s.len() {
            assert(d[p - 1] == s[p]);
        }
        lemma_insert_ranked(d, x, p - 1);
        assert(s.insert(p, x) == seq![s[0]] + d.insert(p - 1, x));
    }
}

fn ranks_before_exec(a: &Suspect, b: &Suspect) -> (r: bool)
    ensures
        r == ranks_before(suspect_view(*a), suspect_view(*b)),
{
    if a.score != b.score {
        a.score > b.score
    } else {
        lex_lt(&chars_of(a.name.as_str()), &chars_of(b.name.as_str()))
    }
}

/// The suspect a score stands for.
fn suspect_of(ix: &ModIndex, e: &(usize, u128, Vec<Vec<char>>)) -> (r: Suspect)
    requires
        e.0 < ix.refs_v().len(),
        e.1 <= i32::MAX,
    ensures
        suspect_view(r) == (ix.refs_v()[e.0 as int].0, ix.refs_v()[e.0 as int].1, ix.refs_v()[e.0 as int].2, e.1 as int, lines_view(e.2@)),
{
    let m = &ix.refs[e.0];
    Suspect {
        package_id: string_of(&chars_of(m.package_id.as_str())),
        name: string_of(&chars_of(m.name.as_str())),
        is_active: m.is_active,
        score: e.1 as i32,
        evidence: strings_of(&e.2),
    }
}

/// The suspects of the scores, ranked.
fn rank(scores: &Vec<(usize, u128, Vec<Vec<char>>)>, ix: &ModIndex) -> (r: Vec<Suspect>)
    requires
        scores_ok(scores@, ix.refs_v().len() as int, i32::MAX as int),
    ensures
        r@.map_values(|s: Suspect| suspect_view(s)) == ranked(as_suspects(*ix, scores_view(scores@))),
{
    let ghost all = as_suspects(*ix, scores_view(scores@));
    let mut out: Vec<Suspect> = Vec::new();
    for k in 0..scores.len()
        invariant
            scores_ok(scores@, ix.refs_v().len() as int, i32::MAX as int),
            all == as_suspects(*ix, scores_view(scores@)),
            out@.map_values(|s: Suspect| suspect_view(s)) == ranked(all.take(k as int)),
    {
        let x = suspect_of(ix, &scores[k]);
        assert(suspect_view(x) == all[k as int]);
        let ghost ov = out@.map_values(|s: Suspect| suspect_view(s));
        let mut p: usize = 0;
        while p < out.len() && !ranks_before_exec(&x, &out[p])
            invariant
                p <= out@.len(),
                ov == out@.map_values(|s: Suspect| suspect_view(s)),
                forall|t: int| 0 <= t < p ==> !ranks_before(suspect_view(x), #[trigger] ov[t]),
            decreases out@.len() - p,
        {
            assert(ov[p as int] == suspect_view(out@[p as int]));
            p = p + 1;
        }
        proof {
            if p < out@.len() {
                assert(ov[p as int] == suspect_view(out@[p as int]));
            }
            lemma_insert_ranked(ov, suspect_view(x), p as int);
            assert(all.take(k + 1).drop_last() == all.take(k as int));
            assert(all.take(k + 1).last() == all[k as int]);
        }
        out.insert(p, x);
        assert(out@.map_values(|s: Suspect| suspect_view(s)) == ov.insert(p as int, suspect_view(x)));
    }
    assert(all.take(scores@.len() as int) == all);
    out
}

} // verus!

verus! {

// ── Attribution ─────────────────────────────────────────────────────────────

/// The scores of an issue: its frames first, then its first lines.
fn scores_for(issue: &LogIssue, index: &ModIndex) -> (scores: Vec<(usize, u128, Vec<Vec<char>>)>)
    requires
        index.wf(),
    ensures
        scores_view(scores@) == scores_of(*index, issue.frames@.map_values(|f: String| f@), issue.full_text@),
        scores_ok(scores@, index.refs_v().len() as int, u128::MAX as int),
{
    let nf = issue.frames.len();
    let (p, n) = index.key_counts();
    assert(5 * nf + 100 * (4 + p + n) <= u128::MAX);
    let mut scores = frame_scores(issue, index);
    score_lines(&mut scores, issue, index);
    scores
}

fn frame_scores(issue: &LogIssue, index: &ModIndex) -> (scores: Vec<(usize, u128, Vec<Vec<char>>)>)
    requires
        index.wf(),
        5 * issue.frames@.len() <= u128::MAX,
    ensures
        scores_view(scores@) == frames_scored(*index, Seq::empty(), issue.frames@.map_values(|f: String| f@)),
        scores_ok(scores@, index.refs_v().len() as int, 5 * issue.frames@.len() as int),
{
    let ghost n = index.refs_v().len() as int;
    let ghost fv = issue.frames@.map_values(|f: String| f@);
    let mut scores: Vec<(usize, u128, Vec<Vec<char>>)> = Vec::new();
    assert(fv.take(0) == Seq::<Seq<char>>::empty());
    for k in 0..issue.frames.len()
        invariant
            index.wf(),
            n == index.refs_v().len(),
            fv == issue.frames@.map_values(|f: String| f@),
            scores_view(scores@) == frames_scored(*index, Seq::empty(), fv.take(k as int)),
            scores_ok(scores@, n, 5 * k),
            5 * issue.frames@.len() <= u128::MAX,
    {
        assert(fv.take(k + 1).drop_last() == fv.take(k as int));
        assert(fv.take(k + 1).last() == issue.frames@[k as int]@);
        match frame_signal_of(index, &issue.frames[k]) {
            Some(sig) => {
                add_signal(&mut scores, sig.0, SCORE_NAMESPACE, sig.1, Ghost(n), Ghost(5 * k));
            },
            None => {},
        }
    }
    assert(fv.take(issue.frames@.len() as int) == fv);
    scores
}

proof fn lemma_cap_step(k: int, w: int)
    requires
        0 <= k < 20,
        w >= 0,
    ensures
        (k + 1) * w == k * w + w,
        (k + 1) * w <= 20 * w,
        0 * w == 0,
{
    assert((k + 1) * w == k * w + w) by (nonlinear_arith);
    assert((k + 1) * w <= 20 * w) by (nonlinear_arith)
        requires
            k + 1 <= 20,
            w >= 0,
    ;
}

#[verifier::rlimit(30)]
fn score_lines(scores: &mut Vec<(usize, u128, Vec<Vec<char>>)>, issue: &LogIssue, index: &ModIndex)
    requires
        index.wf(),
        scores_ok(old(scores)@, index.refs_v().len() as int, 5 * issue.frames@.len() as int),
        5 * issue.frames@.len() + 100 * (4 + index.packages_v().len() + index.names_v().len()) <= u128::MAX,
    ensures
        scores_view(final(scores)@) == lines_scored(*index, scores_view(old(scores)@), scanned_lines(issue.full_text@)),
        scores_ok(final(scores)@, index.refs_v().len() as int, u128::MAX as int),
{
    let ghost n = index.refs_v().len() as int;
    let lines = text_lines(issue.full_text.as_str());
    let ghost lv = lines_view(lines@);
    let m = if lines.len() <= MAX_SCAN_LINES { lines.len() } else { MAX_SCAN_LINES };
    assert(lv == lines_of(issue.full_text@));
    assert(lv.take(m as int) == scanned_lines(issue.full_text@));
    let ghost st0 = scores_view(scores@);
    let ghost w: int = 5 * (4 + index.packages_v().len() + index.names_v().len()) as int;
    let ghost mut cap: int = 5 * issue.frames@.len() as int;
    proof {
        lemma_cap_step(0, w);
    }
    assert(lv.take(0) == Seq::<Seq<char>>::empty());
    for k in 0..m
        invariant
            index.wf(),
            n == index.refs_v().len(),
            lv == lines_view(lines@),
            m <= 20,
            m <= lines@.len(),
            w == 5 * (4 + index.packages_v().len() + index.names_v().len()),
            w >= 0,
            cap == 5 * issue.frames@.len() + k * w,
            5 * issue.frames@.len() + 20 * w <= u128::MAX,
            scores_view(scores@) == lines_scored(*index, st0, lv.take(k as int)),
            scores_ok(scores@, n, cap),
    {
        assert(lv.take(k + 1).drop_last() == lv.take(k as int));
        assert(lv.take(k + 1).last() == lines@[k as int]@);
        proof {
            lemma_cap_step(k as int, w);
        }
        score_line(scores, index, &lines[k], Ghost(cap));
        proof {
            cap = cap + w;
        }
    }
    proof {
        if m > 0 {
            lemma_cap_step((m - 1) as int, w);
        }
        assert(cap <= u128::MAX);
    }
}

pub open spec fn opt_view(o: Option<String>) -> Option<Seq<char>> {
    match o {
        Some(s) => Some(s@),
        None => None,
    }
}

/// Every score of an issue fits in the `i32` of a suspect's score.
#[verifier::opaque]
pub open spec fn scores_fit(ix: ModIndex, frames: Seq<Seq<char>>, text: Seq<char>) -> bool {
    forall|k: int| 0 <= k < scores_of(ix, frames, text).len() ==> #[trigger] scores_of(ix, frames, text)[k].1 <= i32::MAX
}

/// Whether every score of an issue fits in the `i32` of a suspect's score.
#[verifier::spinoff_prover]
#[verifier::rlimit(40)]
pub fn fits_scores(issue: &LogIssue, index: &ModIndex) -> (r: bool)
    requires
        index.wf(),
    ensures
        r == scores_fit(*index, issue.frames@.map_values(|f: String| f@), issue.full_text@),
{
    let scores = scores_for(issue, index);
    let ghost st = scores_of(*index, issue.frames@.map_values(|f: String| f@), issue.full_text@);
    proof {
        reveal(scores_fit);
    }
    for k in 0..scores.len()
        invariant
            scores_view(scores@) == st,
            forall|j: int| 0 <= j < k ==> #[trigger] st[j].1 <= i32::MAX,
    {
        assert(st[k as int] == scores_view(scores@)[k as int]);
        assert(st[k as int].1 == scores@[k as int].1 as int);
        if scores[k].1 > 2147483647 {
            return false;
        }
    }
    true
}

/// Fills in the suspects of an issue and, where none is found but a frame
/// is a Harmony patch, the patched method.
///
/// Signals, strongest first: a path into a mod's folder in the text (5), a
/// frame whose namespace names one of the mod's DLLs (4), the mod's
/// packageId in the text (3), the mod's name in the text (1). Only the
/// first lines of the text are searched. The best suspects are kept, by
/// score and then by name.
#[verifier::spinoff_prover]
#[verifier::rlimit(40)]
pub fn attribute(issue: &mut LogIssue, index: &ModIndex)
    requires
        index.wf(),
        scores_fit(*index, old(issue).frames@.map_values(|f: String| f@), old(issue).full_text@),
    ensures
        final(issue).suspects@.map_values(|s: Suspect| suspect_view(s)) == top(
            ranked(as_suspects(*index, scores_of(*index, old(issue).frames@.map_values(|f: String| f@), old(issue).full_text@))),
        ),
        opt_view(final(issue).harmony_hint) == (if final(issue).suspects@.len() == 0 {
            hint_of(old(issue).frames@.map_values(|f: String| f@))
        } else {
            opt_view(old(issue).harmony_hint)
        }),
        final(issue).severity == old(issue).severity,
        final(issue).title@ == old(issue).title@,
        final(issue).full_text@ == old(issue).full_text@,
        final(issue).count == old(issue).count,
        final(issue).frames@ == old(issue).frames@,
{
    let scores = scores_for(issue, index);
    proof {
        reveal(scores_fit);
        let st = scores_of(*index, old(issue).frames@.map_values(|f: String| f@), old(issue).full_text@);
        assert forall|k: int| 0 <= k < scores@.len() implies
            (#[trigger] scores@[k]).0 < index.refs_v().len() && 0 < scores@[k].1 <= i32::MAX by {
            assert(scores_view(scores@)[k] == st[k]);
            assert(scores_view(scores@)[k].1 == scores@[k].1 as int);
            assert(st[k].1 <= i32::MAX);
        }
    }
    let mut suspects = rank(&scores, index);
    suspects.truncate(MAX_SUSPECTS);
    issue.suspects = suspects;
    if issue.suspects.len() == 0 {
        issue.harmony_hint = hint_of_frames(&issue.frames);
    }
}

} // verus!

verus! {

// ── Laws ────────────────────────────────────────────────────────────────────

/// No suspect ranks before one that comes earlier.
pub open spec fn is_ranked(s: Seq<SuspectView>) -> bool {
    forall|i: int, j: int| 0 <= i < j < s.len() ==> !ranks_before(#[trigger] s[j], #[trigger] s[i])
}

proof fn lemma_ranks_before_transitive(a: SuspectView, b: SuspectView, c: SuspectView)
    requires
        ranks_before(a, b),
        ranks_before(b, c),
    ensures
        ranks_before(a, c),
{
    if a.3 == b.3 && b.3 == c.3 {
        crate::text::lemma_seq_lt_transitive(a.1, b.1, c.1);
    }
}

proof fn lemma_insert_ranked_keeps_order(s: Seq<SuspectView>, x: SuspectView)
    requires
        is_ranked(s),
    ensures
        is_ranked(insert_ranked(s, x)),
        insert_ranked(s, x).len() == s.len() + 1,
    decreases s.len(),
{
    if s.len() == 0 {
    } else if ranks_before(x, s[0]) {
        let r = seq![x] + s;
        assert forall|i: int, j: int| 0 <= i < j < r.len() implies !ranks_before(#[trigger] r[j], #[trigger] r[i]) by {
            if i == 0 {
                assert(r[j] == s[j - 1]);
                if j - 1 > 0 {
                    assert(!ranks_before(s[j - 1], s[0]));
                }
                if ranks_before(s[j - 1], x) {
                    lemma_ranks_before_transitive(s[j - 1], x, s[0]);
                    if j - 1 == 0 {
                        crate::text::lemma_seq_lt_irreflexive(s[0].1);
                    }
                }
            } else {
                assert(r[i] == s[i - 1] && r[j] == s[j - 1]);
            }
        }
    } else {
        let d = s.drop_first();
        assert forall|i: int, j: int| 0 <= i < j < d.len() implies !ranks_before(#[trigger] d[j], #[trigger] d[i]) by {
            assert(d[i] == s[i + 1] && d[j] == s[j + 1]);
        }
        lemma_insert_ranked_keeps_order(d, x);
        let rest = insert_ranked(d, x);
        let r = seq![s[0]] + rest;
        assert forall|i: int, j: int| 0 <= i < j < r.len() implies !ranks_before(#[trigger] r[j], #[trigger] r[i]) by {
            if i == 0 {
                assert(r[j] == rest[j - 1]);
                lemma_insert_ranked_members(d, x, j - 1);
                if rest[j - 1] != x {
                    let t = choose|t: int| 0 <= t < d.len() && d[t] == rest[j - 1];
                    assert(d[t] == s[t + 1]);
                }
            } else {
                assert(r[i] == rest[i - 1] && r[j] == rest[j - 1]);
            }
        }
    }
}

proof fn lemma_insert_ranked_members(s: Seq<SuspectView>, x: SuspectView, k: int)
    requires
        0 <= k < s.len() + 1,
    ensures
        insert_ranked(s, x).len() == s.len() + 1,
        insert_ranked(s, x)[k] == x || exists|t: int| 0 <= t < s.len() && s[t] == insert_ranked(s, x)[k],
    decreases s.len(),
{
    if s.len() == 0 {
    } else if ranks_before(x, s[0]) {
        if k > 0 {
            assert((seq![x] + s)[k] == s[k - 1]);
        }
    } else {
        let d = s.drop_first();
        lemma_insert_ranked_members(d, x, 0);
        if k == 0 {
            assert(insert_ranked(s, x)[0] == s[0]);
        } else {
            lemma_insert_ranked_members(d, x, k - 1);
            assert(insert_ranked(s, x)[k] == insert_ranked(d, x)[k - 1]);
            if insert_ranked(d, x)[k - 1] != x {
                let t = choose|t: int| 0 <= t < d.len() && d[t] == insert_ranked(d, x)[k - 1];
                assert(s[t + 1] == d[t]);
            }
        }
    }
}

/// Suspects come ranked: by score, highest first, then by name; and no
/// more than five are kept. (What [`attribute`] keeps is `top(ranked(..))`
/// of the scored mods.)
pub proof fn law_suspects_are_ranked(s: Seq<SuspectView>)
    ensures
        is_ranked(top(ranked(s))),
        top(ranked(s)).len() <= MAX_SUSPECTS,
        top(ranked(s)).len() == if s.len() <= MAX_SUSPECTS { s.len() } else { MAX_SUSPECTS as nat },
{
    lemma_ranked_order(s);
    let r = ranked(s);
    let t = top(r);
    assert forall|i: int, j: int| 0 <= i < j < t.len() implies !ranks_before(#[trigger] t[j], #[trigger] t[i]) by {
        assert(t[i] == r[i] && t[j] == r[j]);
    }
}

proof fn lemma_ranked_order(s: Seq<SuspectView>)
    ensures
        is_ranked(ranked(s)),
        ranked(s).len() == s.len(),
    decreases s.len(),
{
    if s.len() > 0 {
        lemma_ranked_order(s.drop_last());
        lemma_insert_ranked_keeps_order(ranked(s.drop_last()), s.last());
    }
}

proof fn lemma_insert_ranked_multiset(s: Seq<SuspectView>, x: SuspectView)
    ensures
        insert_ranked(s, x).to_multiset() =~= s.to_multiset().insert(x),
    decreases s.len(),
{
    broadcast use vstd::seq_lib::group_to_multiset_ensures;
    if s.len() == 0 {
        assert(seq![x] =~= s.push(x));
    } else if ranks_before(x, s[0]) {
        assert(seq![x] + s =~= s.insert(0, x));
        vstd::seq_lib::to_multiset_insert(s, 0, x);
    } else {
        let t = s.drop_first();
        lemma_insert_ranked_multiset(t, x);
        assert(seq![s[0]] + insert_ranked(t, x) =~= insert_ranked(t, x).insert(0, s[0]));
        vstd::seq_lib::to_multiset_insert(insert_ranked(t, x), 0, s[0]);
        assert(s =~= t.insert(0, s[0]));
        vstd::seq_lib::to_multiset_insert(t, 0, s[0]);
    }
}

/// Ranking only reorders: the ranked suspects are the suspects given,
/// each as often.
pub proof fn law_ranking_keeps_suspects(s: Seq<SuspectView>)
    ensures
        ranked(s).to_multiset() =~= s.to_multiset(),
    decreases s.len(),
{
    broadcast use vstd::seq_lib::group_to_multiset_ensures;
    if s.len() > 0 {
        law_ranking_keeps_suspects(s.drop_last());
        lemma_insert_ranked_multiset(ranked(s.drop_last()), s.last());
        assert(s =~= s.drop_last().push(s.last()));
    } else {
        assert(ranked(s) =~= s);
    }
}

/// Suspects that tie with `k`: the same score and the same name.
pub open spec fn ties_with(k: SuspectView) -> spec_fn(SuspectView) -> bool {
    |y: SuspectView| y.3 == k.3 && y.1 == k.1
}

proof fn lemma_none_tie(s: Seq<SuspectView>, p: spec_fn(SuspectView) -> bool)
    requires
        forall|t: int| 0 <= t < s.len() ==> !p(#[trigger] s[t]),
    ensures
        s.filter(p) =~= Seq::<SuspectView>::empty(),
{
    if s.filter(p).len() > 0 {
        s.lemma_filter_pred(p, 0);
        assert(s.filter(p).contains(s.filter(p)[0]));
        s.lemma_filter_contains_rev(p, s.filter(p)[0]);
    }
}

proof fn lemma_insert_ranked_ties(s: Seq<SuspectView>, x: SuspectView, k: SuspectView)
    requires
        is_ranked(s),
    ensures
        insert_ranked(s, x).filter(ties_with(k)) == if ties_with(k)(x) {
            s.filter(ties_with(k)).push(x)
        } else {
            s.filter(ties_with(k))
        },
    decreases s.len(),
{
    let p = ties_with(k);
    if s.len() == 0 {
        assert(seq![x] =~= s.push(x));
        s.lemma_filter_push(x, p);
    } else if ranks_before(x, s[0]) {
        Seq::filter_distributes_over_add(seq![x], s, p);
        assert(seq![x] =~= Seq::<SuspectView>::empty().push(x));
        Seq::<SuspectView>::empty().lemma_filter_push(x, p);
        if p(x) {
            assert forall|t: int| 0 <= t < s.len() implies !p(#[trigger] s[t]) by {
                if p(s[t]) {
                    if t == 0 {
                        crate::text::lemma_seq_lt_irreflexive(x.1);
                    } else {
                        assert(!ranks_before(s[t], s[0]));
                    }
                }
            }
            lemma_none_tie(s, p);
        }
    } else {
        let d = s.drop_first();
        assert forall|i: int, j: int| 0 <= i < j < d.len() implies !ranks_before(#[trigger] d[j], #[trigger] d[i]) by {
            assert(d[i] == s[i + 1] && d[j] == s[j + 1]);
        }
        lemma_insert_ranked_ties(d, x, k);
        assert(s =~= seq![s[0]] + d);
        Seq::filter_distributes_over_add(seq![s[0]], d, p);
        Seq::filter_distributes_over_add(seq![s[0]], insert_ranked(d, x), p);
        if p(x) {
            assert(seq![s[0]].filter(p) + d.filter(p).push(x) =~= (seq![s[0]].filter(p) + d.filter(p)).push(x));
        }
    }
}

/// Ranking is stable: suspects that tie (the same score and name) come out
/// in the order they went in.
pub proof fn law_ranking_is_stable(s: Seq<SuspectView>, k: SuspectView)
    ensures
        ranked(s).filter(ties_with(k)) == s.filter(ties_with(k)),
    decreases s.len(),
{
    if s.len() > 0 {
        law_ranking_is_stable(s.drop_last(), k);
        lemma_ranked_order(s.drop_last());
        lemma_insert_ranked_ties(ranked(s.drop_last()), s.last(), k);
        assert(s =~= s.drop_last().push(s.last()));
        s.drop_last().lemma_filter_push(s.last(), ties_with(k));
    } else {
        assert(ranked(s) =~= s);
    }
}

} // verus!
