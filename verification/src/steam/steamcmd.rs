//! SteamCMD: where it lives, what it is told, and what its output says.

use vstd::prelude::*;
use crate::text::{all_digits, chars_of, decimal_text, find_from, first_occurrence, is_ascii_alpha, is_ascii_digit, join_path, joined, occurs_at};
use crate::text::{parse_u64, parse_u64_chars, prefix_before, push_all, slice_vec, string_of, trim, trim_chars};

verus! {

/// RimWorld's Steam app id, as SteamCMD takes it.
pub open spec fn rimworld_app_id() -> Seq<char> {
    "294100"@
}

// ── Events ──────────────────────────────────────────────────────────────────

/// What a download reports.
pub enum DownloadEvent {
    Log(String),
    ItemStarted(u64),
    ItemDone(u64),
    ItemFailed(u64),
    Finished { failed: Vec<u64> },
}

/// What an installation of SteamCMD reports.
pub enum InstallEvent {
    Log(String),
    Done,
    Error(String),
}

// ── Paths ───────────────────────────────────────────────────────────────────

/// The folder SteamCMD is installed into.
pub fn steamcmd_dir(base: &str) -> (r: String)
    ensures
        r@ == joined(base@, "steamcmd"@),
{
    join_path(base, "steamcmd")
}

/// The SteamCMD script of this (Linux) application.
pub fn steamcmd_executable(base: &str) -> (r: String)
    ensures
        r@ == joined(joined(base@, "steamcmd"@), "steamcmd.sh"@),
{
    let dir = steamcmd_dir(base);
    join_path(dir.as_str(), "steamcmd.sh")
}

/// Where SteamCMD downloads Workshop mods:
/// `{base}/steam/steamapps/workshop/content/294100`.
pub fn steam_content_path(base: &str) -> (r: String)
    ensures
        r@ == joined(joined(joined(joined(joined(base@, "steam"@), "steamapps"@), "workshop"@), "content"@), rimworld_app_id()),
{
    let a = join_path(base, "steam");
    let b = join_path(a.as_str(), "steamapps");
    let c = join_path(b.as_str(), "workshop");
    let d = join_path(c.as_str(), "content");
    join_path(d.as_str(), "294100")
}

/// Whether SteamCMD can be run: on NixOS the system's own (patched)
/// `steamcmd` on the PATH, elsewhere the installed script.
pub fn is_installed(on_nixos: bool, system_steamcmd_found: bool, script_exists: bool) -> (r: bool)
    ensures
        r == (if on_nixos { system_steamcmd_found } else { script_exists }),
{
    if on_nixos {
        system_steamcmd_found
    } else {
        script_exists
    }
}

// ── Output ──────────────────────────────────────────────────────────────────

/// The rest of a control sequence after `ESC [`: everything up to and
/// including the first ASCII letter.
pub open spec fn skip_csi(s: Seq<char>) -> Seq<char>
    decreases s.len(),
{
    if s.len() == 0 {
        s
    } else if is_ascii_alpha(s[0]) {
        s.drop_first()
    } else {
        skip_csi(s.drop_first())
    }
}

pub proof fn lemma_skip_csi_len(s: Seq<char>)
    ensures
        skip_csi(s).len() <= s.len(),
        exists|k: int| 0 <= k <= s.len() && skip_csi(s) == #[trigger] s.skip(k),
    decreases s.len(),
{
    if s.len() == 0 {
        assert(s.skip(0) == s);
    } else if is_ascii_alpha(s[0]) {
        assert(s.skip(1) == s.drop_first());
    } else {
        lemma_skip_csi_len(s.drop_first());
        let k = choose|k: int| 0 <= k <= s.drop_first().len() && skip_csi(s.drop_first()) == #[trigger] s.drop_first().skip(k);
        assert(s.drop_first().skip(k) == s.skip(k + 1));
    }
}

/// Text without ANSI control sequences (`ESC [ ... letter`); a lone `ESC`
/// is dropped.
pub open spec fn strip_ansi(s: Seq<char>) -> Seq<char>
    decreases s.len(),
{
    if s.len() == 0 {
        Seq::empty()
    } else if s[0] == '\x1b' {
        if s.len() > 1 && s[1] == '[' {
            proof {
                lemma_skip_csi_len(s.skip(2));
            }
            strip_ansi(skip_csi(s.skip(2)))
        } else {
            strip_ansi(s.drop_first())
        }
    } else {
        seq![s[0]] + strip_ansi(s.drop_first())
    }
}

fn strip_ansi_codes(s: &[char]) -> (r: Vec<char>)
    ensures
        r@ == strip_ansi(s@),
{
    let mut out: Vec<char> = Vec::new();
    let mut i: usize = 0;
    assert(s@.skip(0) == s@);
    while i < s.len()
        invariant
            i <= s@.len(),
            out@ + strip_ansi(s@.skip(i as int)) == strip_ansi(s@),
        decreases s@.len() - i,
    {
        let ghost rest = s@.skip(i as int);
        if s[i] == '\x1b' {
            if i + 1 < s.len() && s[i + 1] == '[' {
                let ghost start = s@.skip(i + 2);
                assert(rest.skip(2) == start);
                let mut j = i + 2;
                assert(s@.skip(j as int) == start);
                while j < s.len() && !(('A' <= s[j] && s[j] <= 'Z') || ('a' <= s[j] && s[j] <= 'z'))
                    invariant
                        i + 2 <= j <= s@.len(),
                        skip_csi(s@.skip(j as int)) == skip_csi(start),
                    decreases s@.len() - j,
                {
                    assert(s@.skip(j as int).drop_first() == s@.skip(j + 1));
                    j = j + 1;
                }
                if j < s.len() {
                    assert(s@.skip(j as int).drop_first() == s@.skip(j + 1));
                    j = j + 1;
                } else {
                    assert(s@.skip(j as int).len() == 0);
                }
                assert(skip_csi(start) == s@.skip(j as int));
                i = j;
            } else {
                assert(rest.drop_first() == s@.skip(i + 1));
                i = i + 1;
            }
        } else {
            assert(rest.drop_first() == s@.skip(i + 1));
            let ghost before = out@;
            out.push(s[i]);
            assert(out@ == before + seq![s@[i as int]]);
            i = i + 1;
        }
    }
    assert(s@.skip(i as int).len() == 0);
    out
}

/// Splitting at every `\r`.
pub open spec fn split_cr(s: Seq<char>) -> Seq<Seq<char>>
    decreases s.len(),
{
    if s.len() == 0 {
        seq![Seq::empty()]
    } else {
        let parts = split_cr(s.drop_last());
        if s.last() == '\r' {
            parts.push(Seq::empty())
        } else {
            parts.update(parts.len() - 1, parts.last().push(s.last()))
        }
    }
}

/// The parts, trimmed, without the empty ones.
pub open spec fn nonempty_trimmed(parts: Seq<Seq<char>>) -> Seq<Seq<char>>
    decreases parts.len(),
{
    if parts.len() == 0 {
        Seq::empty()
    } else {
        let p = nonempty_trimmed(parts.drop_last());
        let t = trim(parts.last());
        if t.len() > 0 { p.push(t) } else { p }
    }
}

/// The lines in a chunk of SteamCMD output: control sequences removed,
/// split at `\r` (its progress lines), trimmed, the empty ones dropped.
pub open spec fn output_lines(raw: Seq<char>) -> Seq<Seq<char>> {
    nonempty_trimmed(split_cr(strip_ansi(raw)))
}

proof fn lemma_split_cr_len(s: Seq<char>)
    ensures
        split_cr(s).len() >= 1,
    decreases s.len(),
{
    if s.len() > 0 {
        lemma_split_cr_len(s.drop_last());
    }
}

fn split_parts(s: &[char]) -> (r: Vec<Vec<char>>)
    ensures
        r@.map_values(|l: Vec<char>| l@) == split_cr(s@),
{
    let mut parts: Vec<Vec<char>> = Vec::new();
    let mut cur: Vec<char> = Vec::new();
    for k in 0..s.len()
        invariant
            parts@.map_values(|l: Vec<char>| l@).push(cur@) == split_cr(s@.take(k as int)),
    {
        let ghost before = parts@.map_values(|l: Vec<char>| l@);
        proof {
            lemma_split_cr_len(s@.take(k as int));
            assert(s@.take(k + 1).drop_last() == s@.take(k as int));
        }
        if s[k] == '\r' {
            parts.push(cur);
            cur = Vec::new();
            assert(parts@.map_values(|l: Vec<char>| l@) == before.push(split_cr(s@.take(k as int)).last()));
            assert(parts@.map_values(|l: Vec<char>| l@).push(cur@) == split_cr(s@.take(k + 1)));
        } else {
            cur.push(s[k]);
            assert(parts@.map_values(|l: Vec<char>| l@).push(cur@) == split_cr(s@.take(k + 1)));
        }
    }
    assert(s@.take(s@.len() as int) == s@);
    let ghost before = parts@.map_values(|l: Vec<char>| l@);
    parts.push(cur);
    assert(parts@.map_values(|l: Vec<char>| l@) == before.push(cur@));
    parts
}

/// The lines in a chunk of SteamCMD output.
pub fn split_ansi_lines(raw: &str) -> (r: Vec<String>)
    ensures
        r@.map_values(|s: String| s@) == output_lines(raw@),
{
    let clean = strip_ansi_codes(&chars_of(raw));
    let parts = split_parts(&clean);
    let ghost pv = parts@.map_values(|l: Vec<char>| l@);
    let mut out: Vec<String> = Vec::new();
    for k in 0..parts.len()
        invariant
            pv == parts@.map_values(|l: Vec<char>| l@),
            out@.map_values(|s: String| s@) == nonempty_trimmed(pv.take(k as int)),
    {
        assert(pv.take(k + 1).drop_last() == pv.take(k as int));
        assert(pv.take(k + 1).last() == parts@[k as int]@);
        let t = trim_chars(&parts[k]);
        if t.len() > 0 {
            let ghost before = out@.map_values(|s: String| s@);
            out.push(string_of(&t));
            assert(out@.map_values(|s: String| s@) == before.push(t@));
        }
    }
    assert(pv.take(parts@.len() as int) == pv);
    out
}

/// The number right after the first `prefix` in a line: its leading digits,
/// parsed; none where no digit follows or the number does not fit.
#[verifier::opaque]
pub open spec fn id_after(line: Seq<char>, prefix: Seq<char>) -> Option<u64> {
    match first_occurrence(line, prefix) {
        None => None,
        Some(p) => {
            let digits = digit_run(line.skip(p + prefix.len()));
            if digits.len() == 0 { None } else { parse_u64(digits) }
        },
    }
}

/// The leading ASCII digits of `s`.
pub open spec fn digit_run(s: Seq<char>) -> Seq<char>
    decreases s.len(),
{
    if s.len() > 0 && is_ascii_digit(s[0]) {
        seq![s[0]] + digit_run(s.drop_first())
    } else {
        Seq::empty()
    }
}

proof fn lemma_digit_run(s: Seq<char>, k: int)
    requires
        0 <= k <= s.len(),
        forall|t: int| 0 <= t < k ==> is_ascii_digit(#[trigger] s[t]),
        k == s.len() || !is_ascii_digit(s[k]),
    ensures
        digit_run(s) == s.take(k),
    decreases k,
{
    if k > 0 {
        let d = s.drop_first();
        assert forall|t: int| 0 <= t < k - 1 implies is_ascii_digit(#[trigger] d[t]) by {
            assert(d[t] == s[t + 1]);
        }
        if k < s.len() {
            assert(d[k - 1] == s[k]);
        }
        lemma_digit_run(d, k - 1);
        assert(s.take(k) == seq![s[0]] + d.take(k - 1));
    } else {
        assert(s.take(0) == Seq::<char>::empty());
    }
}

fn parse_id_after(line: &Vec<char>, prefix: &Vec<char>) -> (r: Option<u64>)
    ensures
        r == id_after(line@, prefix@),
{
    reveal(id_after);
    match find_from(line, prefix, 0) {
        None => {
            proof {
                if crate::text::occurs(line@, prefix@) {
                    let k = choose|k: int| occurs_at(line@, prefix@, k);
                    assert(!occurs_at(line@, prefix@, k));
                }
            }
            None
        },
        Some(p) => {
            proof {
                crate::text::lemma_first_occurrence_is(line@, prefix@, p as int);
            }
            assert(p + prefix@.len() <= line.len());
            let n = line.len();
            let start = p + prefix.len();
            let rest = slice_vec(line, start, n);
            assert(rest@ == line@.skip(p + prefix@.len()));
            let mut k: usize = 0;
            while k < rest.len() && '0' <= rest[k] && rest[k] <= '9'
                invariant
                    k <= rest@.len(),
                    forall|t: int| 0 <= t < k ==> is_ascii_digit(#[trigger] rest@[t]),
                decreases rest@.len() - k,
            {
                k = k + 1;
            }
            proof {
                lemma_digit_run(rest@, k as int);
            }
            if k == 0 {
                return None;
            }
            let digits = slice_vec(&rest, 0, k);
            parse_u64_chars(&digits)
        },
    }
}

/// "Downloading item N": SteamCMD started on a mod.
pub fn parse_downloading_id(line: &str) -> (r: Option<u64>)
    ensures
        r == id_after(line@, "Downloading item "@),
{
    parse_id_after(&chars_of(line), &chars_of("Downloading item "))
}

/// "Success. Downloaded item N": a mod is done.
pub fn parse_success_id(line: &str) -> (r: Option<u64>)
    ensures
        r == id_after(line@, "Success. Downloaded item "@),
{
    parse_id_after(&chars_of(line), &chars_of("Success. Downloaded item "))
}

/// "ERROR! Download item N": a mod failed.
pub fn parse_error_id(line: &str) -> (r: Option<u64>)
    ensures
        r == id_after(line@, "ERROR! Download item "@),
{
    parse_id_after(&chars_of(line), &chars_of("ERROR! Download item "))
}

} // verus!

verus! {

// ── Downloading ─────────────────────────────────────────────────────────────

/// The ids at positions `k`, `k + n`, `k + 2n`, ... of `ids`.
pub open spec fn strided(ids: Seq<u64>, n: nat, k: nat) -> Seq<u64>
    decreases ids.len(),
{
    if ids.len() == 0 {
        Seq::empty()
    } else {
        let p = strided(ids.drop_last(), n, k);
        if (ids.len() - 1) % (n as int) == k { p.push(ids.last()) } else { p }
    }
}

/// The non-empty lists among `lists`, in order.
pub open spec fn nonempty_lists(lists: Seq<Seq<u64>>) -> Seq<Seq<u64>>
    decreases lists.len(),
{
    if lists.len() == 0 {
        Seq::empty()
    } else {
        let p = nonempty_lists(lists.drop_last());
        if lists.last().len() > 0 { p.push(lists.last()) } else { p }
    }
}

/// The ids dealt round-robin into `n` lists; empty lists are dropped.
pub open spec fn chunks_of(ids: Seq<u64>, n: nat) -> Seq<Seq<u64>> {
    nonempty_lists(Seq::new(n, |k: int| strided(ids, n, k as nat)))
}

/// Deals the ids round-robin into `n` parts, one per SteamCMD process.
pub fn split_chunks(ids: Vec<u64>, n: usize) -> (r: Vec<Vec<u64>>)
    requires
        n >= 1,
    ensures
        r@.map_values(|c: Vec<u64>| c@) == chunks_of(ids@, n as nat),
{
    let mut chunks: Vec<Vec<u64>> = Vec::new();
    for k in 0..n
        invariant
            chunks@.len() == k,
            forall|t: int| 0 <= t < k ==> (#[trigger] chunks@[t])@ == strided(ids@.take(0), n as nat, t as nat),
    {
        chunks.push(Vec::new());
    }
    for i in 0..ids.len()
        invariant
            n >= 1,
            chunks@.len() == n,
            forall|t: int| 0 <= t < n ==> (#[trigger] chunks@[t])@ == strided(ids@.take(i as int), n as nat, t as nat),
    {
        let slot = i % n;
        let mut c = chunks.remove(slot);
        c.push(ids[i]);
        chunks.insert(slot, c);
        assert(ids@.take(i + 1).drop_last() == ids@.take(i as int));
        assert forall|t: int| 0 <= t < n implies (#[trigger] chunks@[t])@ == strided(ids@.take(i + 1), n as nat, t as nat) by {
            assert(ids@.take(i + 1).last() == ids@[i as int]);
        }
    }
    assert(ids@.take(ids@.len() as int) == ids@);
    let ghost all = Seq::new(n as nat, |k: int| strided(ids@, n as nat, k as nat));
    let mut out: Vec<Vec<u64>> = Vec::new();
    let mut k: usize = 0;
    while k < n
        invariant
            k <= n,
            chunks@.len() == n - k,
            forall|t: int| 0 <= t < n - k ==> (#[trigger] chunks@[t])@ == all[t + k],
            all.len() == n,
            out@.map_values(|c: Vec<u64>| c@) == nonempty_lists(all.take(k as int)),
        decreases n - k,
    {
        let c = chunks.remove(0);
        assert(c@ == all[k as int]);
        assert(all.take(k + 1).drop_last() == all.take(k as int));
        assert(all.take(k + 1).last() == all[k as int]);
        if c.len() > 0 {
            let ghost before = out@.map_values(|c: Vec<u64>| c@);
            out.push(c);
            assert(out@.map_values(|c: Vec<u64>| c@) == before.push(all[k as int]));
        }
        assert forall|t: int| 0 <= t < n - (k + 1) implies (#[trigger] chunks@[t])@ == all[t + k + 1] by {}
        k = k + 1;
    }
    assert(all.take(n as int) == all);
    out
}

/// Backslashes turned into slashes.
pub open spec fn slashed(s: Seq<char>) -> Seq<char> {
    s.map_values(|c: char| if c == '\\' { '/' } else { c })
}

/// What SteamCMD is told to do, item by item.
pub open spec fn item_args(ids: Seq<u64>, validate: bool) -> Seq<Seq<char>>
    decreases ids.len(),
{
    if ids.len() == 0 {
        Seq::empty()
    } else {
        let p = item_args(ids.drop_last(), validate);
        let one = seq!["+workshop_download_item"@, rimworld_app_id(), decimal_text(ids.last() as nat)];
        p + (if validate { one.push("validate"@) } else { one })
    }
}

/// The arguments of a SteamCMD run: install into the steam folder, log in
/// anonymously, download each item (validating it if asked), quit.
pub open spec fn steamcmd_args_spec(steam_path: Seq<char>, ids: Seq<u64>, validate: bool) -> Seq<Seq<char>> {
    seq!["+force_install_dir"@, slashed(steam_path), "+login"@, "anonymous"@] + item_args(ids, validate) + seq!["+quit"@]
}

fn push_lit(out: &mut Vec<String>, s: &str)
    ensures
        final(out)@.map_values(|x: String| x@) == old(out)@.map_values(|x: String| x@).push(s@),
{
    let ghost before = out@.map_values(|x: String| x@);
    out.push(string_of(&chars_of(s)));
    assert(out@.map_values(|x: String| x@) == before.push(s@));
}

/// The arguments of a SteamCMD run.
pub fn steamcmd_args(steam_path: &str, ids: &[u64], validate: bool) -> (r: Vec<String>)
    ensures
        r@.map_values(|x: String| x@) == steamcmd_args_spec(steam_path@, ids@, validate),
{
    let mut out: Vec<String> = Vec::new();
    push_lit(&mut out, "+force_install_dir");
    let p = chars_of(steam_path);
    let mut sl: Vec<char> = Vec::new();
    for k in 0..p.len()
        invariant
            sl@ == slashed(p@.take(k as int)),
    {
        sl.push(if p[k] == '\\' { '/' } else { p[k] });
        assert(slashed(p@.take(k + 1)) == slashed(p@.take(k as int)).push(if p@[k as int] == '\\' { '/' } else { p@[k as int] }));
    }
    assert(p@.take(p@.len() as int) == p@);
    let ghost b0 = out@.map_values(|x: String| x@);
    out.push(string_of(&sl));
    assert(out@.map_values(|x: String| x@) == b0.push(slashed(steam_path@)));
    push_lit(&mut out, "+login");
    push_lit(&mut out, "anonymous");
    let ghost head = out@.map_values(|x: String| x@);
    assert(head == seq!["+force_install_dir"@, slashed(steam_path@), "+login"@, "anonymous"@]);
    for k in 0..ids.len()
        invariant
            out@.map_values(|x: String| x@) == head + item_args(ids@.take(k as int), validate),
    {
        assert(ids@.take(k + 1).drop_last() == ids@.take(k as int));
        assert(ids@.take(k + 1).last() == ids@[k as int]);
        let ghost before = out@.map_values(|x: String| x@);
        push_lit(&mut out, "+workshop_download_item");
        push_lit(&mut out, "294100");
        let ghost mid = out@.map_values(|x: String| x@);
        out.push(crate::text::decimal_string(ids[k]));
        assert(out@.map_values(|x: String| x@) == mid.push(decimal_text(ids@[k as int] as nat)));
        if validate {
            push_lit(&mut out, "validate");
        }
    }
    assert(ids@.take(ids@.len() as int) == ids@);
    push_lit(&mut out, "+quit");
    out
}

} // verus!

verus! {

// ── Reading a download ──────────────────────────────────────────────────────

/// A download event as values: which kind (log, started, done, failed,
/// finished), the text of a log line, the item, the failed items.
pub open spec fn event_view(e: DownloadEvent) -> (int, Seq<char>, u64, Seq<u64>) {
    match e {
        DownloadEvent::Log(s) => (0, s@, 0, Seq::empty()),
        DownloadEvent::ItemStarted(id) => (1, Seq::empty(), id, Seq::empty()),
        DownloadEvent::ItemDone(id) => (2, Seq::empty(), id, Seq::empty()),
        DownloadEvent::ItemFailed(id) => (3, Seq::empty(), id, Seq::empty()),
        DownloadEvent::Finished { failed } => (4, Seq::empty(), 0, failed@),
    }
}

pub open spec fn events_view(v: Seq<DownloadEvent>) -> Seq<(int, Seq<char>, u64, Seq<u64>)> {
    v.map_values(|e: DownloadEvent| event_view(e))
}

/// The events of one line of output, and the failed items after it: the
/// line itself, then, as the line says, an item started, done or failed (a
/// line may say more than one). A failed item is noted once.
pub open spec fn line_events(p: Seq<char>, failed: Seq<u64>) -> (Seq<(int, Seq<char>, u64, Seq<u64>)>, Seq<u64>) {
    let dl = id_after(p, "Downloading item "@);
    let ok = id_after(p, "Success. Downloaded item "@);
    let err = id_after(p, "ERROR! Download item "@);
    let e1 = seq![(0int, p, 0u64, Seq::<u64>::empty())];
    let e2 = match dl { Some(id) => e1.push((1int, Seq::<char>::empty(), id, Seq::<u64>::empty())), None => e1 };
    let e3 = match ok { Some(id) => e2.push((2int, Seq::<char>::empty(), id, Seq::<u64>::empty())), None => e2 };
    match err {
        Some(id) => (
            e3.push((3int, Seq::<char>::empty(), id, Seq::<u64>::empty())),
            if failed.contains(id) { failed } else { failed.push(id) },
        ),
        None => (e3, failed),
    }
}

/// The events of lines of output, in order, and the failed items after them.
pub open spec fn lines_events(ps: Seq<Seq<char>>, failed: Seq<u64>) -> (Seq<(int, Seq<char>, u64, Seq<u64>)>, Seq<u64>)
    decreases ps.len(),
{
    if ps.len() == 0 {
        (Seq::empty(), failed)
    } else {
        let (evs, f) = lines_events(ps.drop_last(), failed);
        let (e2, f2) = line_events(ps.last(), f);
        (evs + e2, f2)
    }
}

fn push_event(out: &mut Vec<DownloadEvent>, e: DownloadEvent)
    ensures
        events_view(final(out)@) == events_view(old(out)@).push(event_view(e)),
{
    let ghost before = events_view(out@);
    let ghost ev = event_view(e);
    out.push(e);
    assert(events_view(out@) == before.push(ev));
}

fn has_id(v: &Vec<u64>, id: u64) -> (r: bool)
    ensures
        r == v@.contains(id),
{
    for k in 0..v.len()
        invariant
            forall|t: int| 0 <= t < k ==> v@[t] != id,
    {
        if v[k] == id {
            return true;
        }
    }
    false
}

fn part_events(out: &mut Vec<DownloadEvent>, part: &str, failed: &mut Vec<u64>)
    ensures
        events_view(final(out)@) == events_view(old(out)@) + line_events(part@, old(failed)@).0,
        final(failed)@ == line_events(part@, old(failed)@).1,
{
    let ghost before = events_view(out@);
    push_event(out, DownloadEvent::Log(string_of(&chars_of(part))));
    if let Some(id) = parse_downloading_id(part) {
        push_event(out, DownloadEvent::ItemStarted(id));
    }
    if let Some(id) = parse_success_id(part) {
        push_event(out, DownloadEvent::ItemDone(id));
    }
    if let Some(id) = parse_error_id(part) {
        if !has_id(failed, id) {
            failed.push(id);
        }
        push_event(out, DownloadEvent::ItemFailed(id));
    }
    assert(events_view(out@) == before + line_events(part@, old(failed)@).0);
}

/// What a chunk of SteamCMD output reports; `failed` collects the items
/// that failed.
pub fn output_events(raw: &str, failed: &mut Vec<u64>) -> (r: Vec<DownloadEvent>)
    ensures
        (events_view(r@), final(failed)@) == lines_events(output_lines(raw@), old(failed)@),
{
    let parts = split_ansi_lines(raw);
    let ghost pv = parts@.map_values(|s: String| s@);
    let mut out: Vec<DownloadEvent> = Vec::new();
    let ghost f0 = failed@;
    for k in 0..parts.len()
        invariant
            pv == parts@.map_values(|s: String| s@),
            (events_view(out@), failed@) == lines_events(pv.take(k as int), f0),
    {
        assert(pv.take(k + 1).drop_last() == pv.take(k as int));
        assert(pv.take(k + 1).last() == parts@[k as int]@);
        part_events(&mut out, parts[k].as_str(), failed);
    }
    assert(pv.take(parts@.len() as int) == pv);
    out
}

/// A signed number in decimal.
pub open spec fn signed_text(c: int) -> Seq<char> {
    if c < 0 { seq!['-'] + decimal_text((-c) as nat) } else { decimal_text(c as nat) }
}

/// The line logged when SteamCMD failed without naming a failed item: its
/// exit code, -1 where it has none.
pub open spec fn exit_message(code: Option<i32>) -> Seq<char> {
    "✕ SteamCMD завершился с ошибкой (код "@ + signed_text(match code { Some(c) => c as int, None => -1 }) + seq![')']
}

/// The last events of a download: when SteamCMD failed without naming a
/// failed item, every item counts as failed and the exit code is logged.
pub fn final_events(success: bool, code: Option<i32>, failed: Vec<u64>, ids: &[u64]) -> (r: Vec<DownloadEvent>)
    ensures
        !success && failed@.len() == 0 ==> events_view(r@) == seq![
            (0int, exit_message(code), 0u64, Seq::<u64>::empty()),
            (4int, Seq::<char>::empty(), 0u64, ids@),
        ],
        !(!success && failed@.len() == 0) ==> events_view(r@) == seq![(4int, Seq::<char>::empty(), 0u64, failed@)],
{
    let mut out: Vec<DownloadEvent> = Vec::new();
    if !success && failed.len() == 0 {
        let mut msg = chars_of("✕ SteamCMD завершился с ошибкой (код ");
        let c: i32 = match code {
            Some(c) => c,
            None => -1,
        };
        if c < 0 {
            msg.push('-');
            let m: u64 = if c == i32::MIN { 2147483648 } else { (-c) as u64 };
            push_all(&mut msg, &crate::text::decimal_chars(m));
        } else {
            push_all(&mut msg, &crate::text::decimal_chars(c as u64));
        }
        msg.push(')');
        proof {
            reveal_strlit("✕ SteamCMD завершился с ошибкой (код ");
            assert(msg@ =~= exit_message(code));
        }
        push_event(&mut out, DownloadEvent::Log(string_of(&msg)));
        let mut all: Vec<u64> = Vec::new();
        for k in 0..ids.len()
            invariant
                all@ == ids@.take(k as int),
        {
            all.push(ids[k]);
            assert(ids@.take(k + 1) == ids@.take(k as int).push(ids@[k as int]));
        }
        assert(ids@.take(ids@.len() as int) == ids@);
        push_event(&mut out, DownloadEvent::Finished { failed: all });
        return out;
    }
    push_event(&mut out, DownloadEvent::Finished { failed });
    out
}

/// Gathers the events of parallel SteamCMD processes into one stream:
/// everything passes through but the processes' own `Finished`, which are
/// added up into one when the last process is done.
pub struct Gather {
    pub workers: usize,
    pub finished: usize,
    pub failed: Vec<u64>,
}

impl Gather {
    pub fn new(workers: usize) -> (r: Gather)
        ensures
            r.workers == workers,
            r.finished == 0,
            r.failed@.len() == 0,
    {
        Gather { workers, finished: 0, failed: Vec::new() }
    }

    /// An event of one of the processes: what to pass on, if anything, and
    /// whether the stream is complete.
    pub fn on_event(&mut self, ev: DownloadEvent) -> (r: (Option<DownloadEvent>, bool))
        requires
            old(self).finished < old(self).workers,
        ensures
            final(self).workers == old(self).workers,
            match ev {
                DownloadEvent::Finished { failed } => {
                    &&& final(self).finished == old(self).finished + 1
                    &&& final(self).failed@ == old(self).failed@ + failed@
                    &&& if final(self).finished == final(self).workers {
                        r.1 && (r.0 matches Some(e) && event_view(e) == (4int, Seq::<char>::empty(), 0u64, final(self).failed@))
                    } else {
                        !r.1 && r.0 is None
                    }
                },
                _ => r.0 == Some(ev) && !r.1 && final(self).finished == old(self).finished && final(self).failed@ == old(self).failed@,
            },
    {
        match ev {
            DownloadEvent::Finished { failed } => {
                self.finished = self.finished + 1;
                for k in 0..failed.len()
                    invariant
                        self.failed@ == old(self).failed@ + failed@.take(k as int),
                        self.finished == old(self).finished + 1,
                        self.workers == old(self).workers,
                {
                    self.failed.push(failed[k]);
                    assert(failed@.take(k + 1) == failed@.take(k as int).push(failed@[k as int]));
                }
                assert(failed@.take(failed@.len() as int) == failed@);
                if self.finished == self.workers {
                    let mut all: Vec<u64> = Vec::new();
                    for k in 0..self.failed.len()
                        invariant
                            all@ == self.failed@.take(k as int),
                    {
                        all.push(self.failed[k]);
                        assert(self.failed@.take(k + 1) == self.failed@.take(k as int).push(self.failed@[k as int]));
                    }
                    assert(self.failed@.take(self.failed@.len() as int) == self.failed@);
                    (Some(DownloadEvent::Finished { failed: all }), true)
                } else {
                    (None, false)
                }
            },
            other => (Some(other), false),
        }
    }

    /// The channel closed before every process reported: the stream still
    /// ends with one `Finished`.
    pub fn on_close(&self) -> (r: Option<DownloadEvent>)
        ensures
            self.finished < self.workers ==> (r matches Some(e) && event_view(e) == (4int, Seq::<char>::empty(), 0u64, self.failed@)),
            self.finished >= self.workers ==> r is None,
    {
        if self.finished < self.workers {
            let mut all: Vec<u64> = Vec::new();
            for k in 0..self.failed.len()
                invariant
                    all@ == self.failed@.take(k as int),
            {
                all.push(self.failed[k]);
                assert(self.failed@.take(k + 1) == self.failed@.take(k as int).push(self.failed@[k as int]));
            }
            assert(self.failed@.take(self.failed@.len() as int) == self.failed@);
            Some(DownloadEvent::Finished { failed: all })
        } else {
            None
        }
    }
}

/// Some line of `ps` reports item `x` as failed.
pub open spec fn reports_failure(ps: Seq<Seq<char>>, x: u64) -> bool {
    exists|i: int| 0 <= i < ps.len() && id_after(#[trigger] ps[i], "ERROR! Download item "@) == Some(x)
}

/// Reading SteamCMD output notes every item that a line reports as failed
/// (`ERROR! Download item N`), each once, keeps the items noted before,
/// and notes nothing else.
pub proof fn law_failed_items_are_noted_once(ps: Seq<Seq<char>>, failed: Seq<u64>)
    requires
        failed.no_duplicates(),
    ensures
        lines_events(ps, failed).1.no_duplicates(),
        forall|x: u64| failed.contains(x) ==> #[trigger] lines_events(ps, failed).1.contains(x),
        forall|x: u64| reports_failure(ps, x) ==> #[trigger] lines_events(ps, failed).1.contains(x),
        forall|x: u64| #[trigger] lines_events(ps, failed).1.contains(x) ==> failed.contains(x) || reports_failure(ps, x),
    decreases ps.len(),
{
    if ps.len() > 0 {
        let q = ps.drop_last();
        law_failed_items_are_noted_once(q, failed);
        let f = lines_events(q, failed).1;
        let g = lines_events(ps, failed).1;
        let err = id_after(ps.last(), "ERROR! Download item "@);
        assert(g == line_events(ps.last(), f).1);
        assert forall|x: u64| reports_failure(ps, x) implies #[trigger] g.contains(x) by {
            let i = choose|i: int| 0 <= i < ps.len() && id_after(#[trigger] ps[i], "ERROR! Download item "@) == Some(x);
            if i < ps.len() - 1 {
                assert(q[i] == ps[i]);
                assert(reports_failure(q, x));
                if !f.contains(x) {
                    assert(false);
                }
                let k = choose|k: int| 0 <= k < f.len() && f[k] == x;
                if g != f {
                    assert(g == f.push(err.unwrap()));
                    assert(g[k] == x);
                }
            } else {
                if !f.contains(x) {
                    assert(g == f.push(x));
                    assert(g[f.len() as int] == x);
                }
            }
        }
        assert forall|x: u64| failed.contains(x) implies #[trigger] g.contains(x) by {
            assert(f.contains(x));
            let k = choose|k: int| 0 <= k < f.len() && f[k] == x;
            if g != f {
                assert(g[k] == x);
            }
        }
        assert forall|x: u64| #[trigger] g.contains(x) implies failed.contains(x) || reports_failure(ps, x) by {
            let k = choose|k: int| 0 <= k < g.len() && g[k] == x;
            if k < f.len() {
                if g != f {
                    assert(g[k] == f[k]);
                }
                assert(f.contains(x));
                if reports_failure(q, x) {
                    let i = choose|i: int| 0 <= i < q.len() && id_after(#[trigger] q[i], "ERROR! Download item "@) == Some(x);
                    assert(ps[i] == q[i]);
                }
            } else {
                assert(id_after(ps[ps.len() - 1], "ERROR! Download item "@) == Some(x));
            }
        }
        if g != f {
            assert forall|a: int, b: int| 0 <= a < b < g.len() implies g[a] != g[b] by {
                if b == f.len() {
                    assert(g[a] == f[a]);
                    assert(f.contains(f[a]));
                }
            }
        }
    }
}

/// The event of item `x` of the kind `kind` (started 1, done 2, failed 3).
pub open spec fn item_event(kind: int, x: u64) -> (int, Seq<char>, u64, Seq<u64>) {
    (kind, Seq::<char>::empty(), x, Seq::<u64>::empty())
}

/// Reading SteamCMD output passes every line on as a log line, and reports
/// each item that a line says started (`Downloading item N`), was
/// downloaded (`Success. Downloaded item N`) or failed
/// (`ERROR! Download item N`).
pub proof fn law_output_lines_become_events(ps: Seq<Seq<char>>, failed: Seq<u64>)
    ensures
        forall|i: int| 0 <= i < ps.len() ==> lines_events(ps, failed).0.contains((0int, #[trigger] ps[i], 0u64, Seq::<u64>::empty())),
        forall|i: int| 0 <= i < ps.len() ==> (id_after(#[trigger] ps[i], "Downloading item "@) matches Some(x)
            ==> lines_events(ps, failed).0.contains(item_event(1, x))),
        forall|i: int| 0 <= i < ps.len() ==> (id_after(#[trigger] ps[i], "Success. Downloaded item "@) matches Some(x)
            ==> lines_events(ps, failed).0.contains(item_event(2, x))),
        forall|i: int| 0 <= i < ps.len() ==> (id_after(#[trigger] ps[i], "ERROR! Download item "@) matches Some(x)
            ==> lines_events(ps, failed).0.contains(item_event(3, x))),
    decreases ps.len(),
{
    if ps.len() > 0 {
        let q = ps.drop_last();
        law_output_lines_become_events(q, failed);
        let (evs, f) = lines_events(q, failed);
        let p = ps.last();
        let e = line_events(p, f).0;
        let all = lines_events(ps, failed).0;
        assert(all == evs + e);
        assert forall|t: int| 0 <= t < evs.len() implies all[t] == #[trigger] evs[t] by {}
        assert forall|t: int| 0 <= t < e.len() implies all[evs.len() as int + t] == #[trigger] e[t] by {}
        assert forall|i: int| 0 <= i < ps.len() implies all.contains((0int, #[trigger] ps[i], 0u64, Seq::<u64>::empty())) by {
            if i < ps.len() - 1 {
                assert(q[i] == ps[i]);
                let k = choose|k: int| 0 <= k < evs.len() && evs[k] == (0int, q[i], 0u64, Seq::<u64>::empty());
                assert(all[k] == evs[k]);
            } else {
                assert(e[0] == (0int, p, 0u64, Seq::<u64>::empty()));
                assert(all[evs.len() as int] == e[0]);
            }
        }
        assert forall|i: int| 0 <= i < ps.len() implies (id_after(#[trigger] ps[i], "Downloading item "@) matches Some(x)
            ==> all.contains(item_event(1, x))) by {
            if let Some(x) = id_after(ps[i], "Downloading item "@) {
            if i < ps.len() - 1 {
                assert(q[i] == ps[i]);
                let k = choose|k: int| 0 <= k < evs.len() && evs[k] == item_event(1, x);
                assert(all[k] == evs[k]);
            } else {
                assert(e[1] == item_event(1, x));
                assert(all[evs.len() + 1int] == e[1]);
            }
            }
        }
        assert forall|i: int| 0 <= i < ps.len() implies (id_after(#[trigger] ps[i], "Success. Downloaded item "@) matches Some(x)
            ==> all.contains(item_event(2, x))) by {
            if let Some(x) = id_after(ps[i], "Success. Downloaded item "@) {
            if i < ps.len() - 1 {
                assert(q[i] == ps[i]);
                let k = choose|k: int| 0 <= k < evs.len() && evs[k] == item_event(2, x);
                assert(all[k] == evs[k]);
            } else {
                let j = if id_after(p, "Downloading item "@) is Some { 2int } else { 1int };
                assert(e[j] == item_event(2, x));
                assert(all[evs.len() + j] == e[j]);
            }
            }
        }
        assert forall|i: int| 0 <= i < ps.len() implies (id_after(#[trigger] ps[i], "ERROR! Download item "@) matches Some(x)
            ==> all.contains(item_event(3, x))) by {
            if let Some(x) = id_after(ps[i], "ERROR! Download item "@) {
            if i < ps.len() - 1 {
                assert(q[i] == ps[i]);
                let k = choose|k: int| 0 <= k < evs.len() && evs[k] == item_event(3, x);
                assert(all[k] == evs[k]);
            } else {
                let j = e.len() - 1;
                assert(e[j] == item_event(3, x));
                assert(all[evs.len() + j] == e[j]);
            }
            }
        }
    }
}

} // verus!
