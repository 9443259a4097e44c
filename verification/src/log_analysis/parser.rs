//! Splitting Player.log into grouped error and warning entries.

use vstd::prelude::*;
use super::{issue_view, IssueView, LogIssue, Severity};
use crate::text::{byte_len, byte_width, chars_of, contains, utf8_width, ends_with, first_at, has_prefix, has_suffix, is_whitespace, lower_chars, lowercase};
use crate::text::{char_whitespace, occurs, push_all, slice_vec, starts_with, string_of, trim, trim_chars, trim_end, trim_end_chars, trim_start, trim_start_chars};

verus! {

// ── Lines ───────────────────────────────────────────────────────────────────

/// `\r` dropped from the end of a line that ended in `\r\n`.
pub open spec fn strip_cr(c: Seq<char>) -> Seq<char> {
    if c.len() > 0 && c.last() == '\r' { c.drop_last() } else { c }
}

/// Splitting into lines, left to right: the lines done, and the one being
/// read.
pub open spec fn lines_state(s: Seq<char>) -> (Seq<Seq<char>>, Seq<char>)
    decreases s.len(),
{
    if s.len() == 0 {
        (Seq::empty(), Seq::empty())
    } else {
        let (done, cur) = lines_state(s.drop_last());
        if s.last() == '\n' { (done.push(strip_cr(cur)), Seq::empty()) } else { (done, cur.push(s.last())) }
    }
}

/// The lines of a text, as `str::lines` gives them: split at `\n` or
/// `\r\n`, the final line ending optional.
pub open spec fn lines_of(s: Seq<char>) -> Seq<Seq<char>> {
    let (done, cur) = lines_state(s);
    if cur.len() > 0 { done.push(cur) } else { done }
}

/// `str::lines`, collected as characters.
pub fn text_lines(text: &str) -> (r: Vec<Vec<char>>)
    ensures
        r@.map_values(|l: Vec<char>| l@) == lines_of(text@),
{
    let cs = chars_of(text);
    let mut done: Vec<Vec<char>> = Vec::new();
    let mut cur: Vec<char> = Vec::new();
    for i in 0..cs.len()
        invariant
            cs@ == text@,
            (done@.map_values(|l: Vec<char>| l@), cur@) == lines_state(cs@.take(i as int)),
    {
        proof {
            assert(cs@.take(i + 1).drop_last() == cs@.take(i as int));
        }
        let c = cs[i];
        if c == '\n' {
            let ghost before = done@.map_values(|l: Vec<char>| l@);
            let ghost cv = cur@;
            if cur.len() > 0 && cur[cur.len() - 1] == '\r' {
                cur.pop();
            }
            done.push(cur);
            assert(done@.map_values(|l: Vec<char>| l@) =~= before.push(strip_cr(cv)));
            cur = Vec::new();
        } else {
            cur.push(c);
        }
    }
    assert(cs@.take(cs.len() as int) == cs@);
    if cur.len() > 0 {
        let ghost before = done@.map_values(|l: Vec<char>| l@);
        let ghost cv = cur@;
        done.push(cur);
        assert(done@.map_values(|l: Vec<char>| l@) =~= before.push(cv));
    }
    done
}

// ── Lines of interest ───────────────────────────────────────────────────────

/// Lines that look like errors but come with every start and have nothing
/// to do with mods, and translation noise: every run with a non-English
/// language has it, and the game goes on with the English text. (A mod that
/// breaks only a translation is lost from the report: a deliberate trade.)
pub open spec fn noise_prefixes() -> Seq<Seq<char>> {
    seq![
        "fallback handler could not load library"@,
        "could not load signature of"@,
        "failed to resolve text"@,
        "translation data for language"@,
        "grammar unresolvable"@,
        "could not find translation key"@,
        "duplicate translation key"@,
        "translation error"@,
    ]
}

/// An entry that does not belong in the report.
pub open spec fn is_noise_spec(line: Seq<char>) -> bool {
    exists|k: int| 0 <= k < noise_prefixes().len() && has_prefix(lowercase(line), #[trigger] noise_prefixes()[k])
}

fn noise_list() -> (r: Vec<Vec<char>>)
    ensures
        r@.map_values(|l: Vec<char>| l@) == noise_prefixes(),
{
    let mut r: Vec<Vec<char>> = Vec::new();
    r.push(chars_of("fallback handler could not load library"));
    r.push(chars_of("could not load signature of"));
    r.push(chars_of("failed to resolve text"));
    r.push(chars_of("translation data for language"));
    r.push(chars_of("grammar unresolvable"));
    r.push(chars_of("could not find translation key"));
    r.push(chars_of("duplicate translation key"));
    r.push(chars_of("translation error"));
    assert(r@.map_values(|l: Vec<char>| l@) =~= noise_prefixes());
    r
}

fn is_noise(line: &[char]) -> (r: bool)
    ensures
        r == is_noise_spec(line@),
{
    let lower = lower_chars(line);
    let list = noise_list();
    for k in 0..list.len()
        invariant
            list@.map_values(|l: Vec<char>| l@) == noise_prefixes(),
            lower@ == lowercase(line@),
            forall|t: int| 0 <= t < k ==> !has_prefix(lowercase(line@), #[trigger] noise_prefixes()[t]),
    {
        assert(list@.map_values(|l: Vec<char>| l@)[k as int] == list@[k as int]@);
        if starts_with(&lower, &list[k]) {
            return true;
        }
    }
    false
}

/// How an entry starting at this line is classed, if one starts here.
/// Entries are not indented; stack frames are.
pub open spec fn start_kind(line: Seq<char>) -> Option<Severity> {
    let lower = lowercase(line);
    if line.len() == 0 || line[0] == ' ' || line[0] == '\t' {
        None
    } else if has_prefix(lower, "warning"@) || has_prefix(lower, "[warning]"@) {
        Some(Severity::Warning)
    } else if occurs(lower, "exception"@) || has_prefix(lower, "error"@) || occurs(lower, "error:"@)
        || has_prefix(lower, "failed"@) || has_prefix(lower, "could not"@) || has_prefix(lower, "couldn't"@)
        || has_prefix(lower, "unable to"@) || has_prefix(lower, "xml error"@) || has_prefix(lower, "mod errors"@)
        || has_prefix(lower, "loader exceptions"@) {
        // Statistics such as "0 errors" are no error.
        if occurs(lower, "0 errors"@) || occurs(lower, "no errors"@) { None } else { Some(Severity::Error) }
    } else {
        None
    }
}

fn has(s: &Vec<char>, lit: &str) -> (r: bool)
    ensures
        r == occurs(s@, lit@),
{
    contains(s, &chars_of(lit))
}

fn begins(s: &Vec<char>, lit: &str) -> (r: bool)
    ensures
        r == has_prefix(s@, lit@),
{
    starts_with(s, &chars_of(lit))
}

fn classify_start(line: &Vec<char>) -> (r: Option<Severity>)
    ensures
        r == start_kind(line@),
{
    if line.len() == 0 || line[0] == ' ' || line[0] == '\t' {
        return None;
    }
    let lower = lower_chars(line);
    if begins(&lower, "warning") || begins(&lower, "[warning]") {
        return Some(Severity::Warning);
    }
    let is_error = has(&lower, "exception") || begins(&lower, "error") || has(&lower, "error:")
        || begins(&lower, "failed") || begins(&lower, "could not") || begins(&lower, "couldn't")
        || begins(&lower, "unable to") || begins(&lower, "xml error") || begins(&lower, "mod errors")
        || begins(&lower, "loader exceptions");
    if is_error {
        if has(&lower, "0 errors") || has(&lower, "no errors") {
            return None;
        }
        return Some(Severity::Error);
    }
    None
}

/// An unindented line such as "System.NullReferenceException: ...": the
/// game often writes the message and the exception on two lines. The
/// exception type is one word right before the colon: "Exception filling
/// window for ...: ..." starts with the word Exception too, but is an entry
/// of its own.
pub open spec fn exception_line(line: Seq<char>) -> bool {
    exists|c: int| 0 <= c < line.len() && line[c] == ':' && (forall|k: int| 0 <= k < c ==> line[k] != ':') && {
        let head = line.take(c);
        &&& forall|k: int| 0 <= k < head.len() ==> !char_whitespace(#[trigger] head[k])
        &&& has_suffix(head, "Exception"@)
    }
}

fn looks_like_exception_line(line: &Vec<char>) -> (r: bool)
    ensures
        r == exception_line(line@),
{
    let mut c: usize = 0;
    while c < line.len() && line[c] != ':'
        invariant
            c <= line@.len(),
            forall|k: int| 0 <= k < c ==> line@[k] != ':',
        decreases line@.len() - c,
    {
        c = c + 1;
    }
    if c == line.len() {
        return false;
    }
    let mut head: Vec<char> = Vec::new();
    let mut spaced = false;
    for k in 0..c
        invariant
            c < line@.len(),
            head@ == line@.take(k as int),
            spaced == exists|t: int| 0 <= t < k && char_whitespace(#[trigger] line@[t]),
    {
        if is_whitespace(line[k]) {
            spaced = true;
        }
        head.push(line[k]);
        assert(head@ =~= line@.take(k + 1));
    }
    let tail = chars_of("Exception");
    let r = !spaced && ends_with(&head, &tail);
    proof {
        if r {
            assert(exception_line(line@));
        } else if exception_line(line@) {
            let c2 = choose|c2: int| 0 <= c2 < line@.len() && line@[c2] == ':' && (forall|k: int| 0 <= k < c2 ==> line@[k] != ':') && {
                let head = line@.take(c2);
                &&& forall|k: int| 0 <= k < head.len() ==> !char_whitespace(#[trigger] head[k])
                &&& has_suffix(head, "Exception"@)
            };
            assert(c2 == c) by {
                if c2 < c {
                    assert(line@[c2] != ':');
                } else if c2 > c {
                    assert(line@[c as int] != ':');
                }
            }
            if spaced {
                let t = choose|t: int| 0 <= t < c && char_whitespace(#[trigger] line@[t]);
                assert(line@.take(c as int)[t] == line@[t]);
            }
        }
    }
    r
}

/// A line that continues an entry: stack frames, nested exceptions, XML
/// context.
pub open spec fn continues(line: Seq<char>) -> bool {
    ||| has_prefix(line, " "@)
    ||| has_prefix(line, "\t"@)
    ||| has_prefix(line, "at "@)
    ||| has_prefix(line, "--- "@)
    ||| has_prefix(line, "--->"@)
    ||| has_prefix(line, "=>"@)
    ||| has_prefix(line, "Rethrow as"@)
    ||| has_prefix(line, "Parameter name"@)
    ||| has_prefix(line, "(wrapper"@)
    ||| has_prefix(line, "[Ref "@)
    ||| exception_line(line)
}

fn is_continuation(line: &Vec<char>) -> (r: bool)
    ensures
        r == continues(line@),
{
    begins(line, " ") || begins(line, "\t") || begins(line, "at ") || begins(line, "--- ")
        || begins(line, "--->") || begins(line, "=>") || begins(line, "Rethrow as")
        || begins(line, "Parameter name") || begins(line, "(wrapper") || begins(line, "[Ref ")
        || looks_like_exception_line(line)
}

} // verus!

verus! {

// ── Grouping keys ───────────────────────────────────────────────────────────

/// How many leading characters of `s` fit in `n` bytes.
pub open spec fn fit(s: Seq<char>, n: nat) -> nat
    decreases s.len(),
{
    if byte_len(s) <= n { s.len() } else { fit(s.drop_last(), n) }
}

/// Cutting `s` to `n` bytes does not split a character (else
/// `String::truncate` panics).
pub open spec fn cuts_cleanly(s: Seq<char>, n: nat) -> bool {
    byte_len(s) <= n || byte_len(s.take(fit(s, n) as int)) == n
}

/// Every ASCII digit replaced by `#`.
pub open spec fn digits_masked(s: Seq<char>) -> Seq<char> {
    s.map_values(|c: char| if crate::text::is_ascii_digit(c) { '#' } else { c })
}

/// The grouping form of a line: digits masked, cut to 160 bytes.
pub open spec fn normalized(s: Seq<char>) -> Seq<char> {
    let m = digits_masked(s);
    m.take(fit(m, 160) as int)
}

/// Whether [`normalized`] of `s` is defined without splitting a character.
pub open spec fn normalizes(s: Seq<char>) -> bool {
    cuts_cleanly(digits_masked(s), 160)
}

proof fn lemma_fit(s: Seq<char>, n: nat, k: int)
    requires
        0 <= k < s.len(),
        byte_len(s.take(k)) <= n,
        byte_len(s.take(k + 1)) > n,
    ensures
        fit(s, n) == k,
        byte_len(s) > n,
    decreases s.len(),
{
    if s.len() == k + 1 {
        assert(s.take(k + 1) == s);
        assert(s.drop_last() == s.take(k));
        assert(byte_len(s) > n);
        assert(fit(s.drop_last(), n) == k);
    } else {
        let d = s.drop_last();
        assert(d.take(k) == s.take(k));
        assert(d.take(k + 1) == s.take(k + 1));
        lemma_fit(d, n, k);
    }
}

/// The grouping form of a line, or `None` where cutting it to 160 bytes
/// would split a character.
fn normalize(s: &[char]) -> (r: Option<Vec<char>>)
    ensures
        r is Some <==> normalizes(s@),
        r matches Some(v) ==> v@ == normalized(s@),
{
    let ghost m = digits_masked(s@);
    let mut out: Vec<char> = Vec::new();
    let mut bytes: usize = 0;
    let mut k: usize = 0;
    while k < s.len()
        invariant
            k <= s@.len(),
            m == digits_masked(s@),
            out@ == m.take(k as int),
            bytes == byte_len(out@),
            bytes <= 160,
        decreases s@.len() - k,
    {
        let c = if '0' <= s[k] && s[k] <= '9' { '#' } else { s[k] };
        let w = utf8_width(c);
        assert(m.take(k + 1) == m.take(k as int).push(c));
        assert(m.take(k + 1).drop_last() == m.take(k as int));
        if bytes + w > 160 {
            proof {
                lemma_fit(m, 160, k as int);
            }
            if bytes == 160 {
                return Some(out);
            } else {
                return None;
            }
        }
        out.push(c);
        bytes = bytes + w;
        k = k + 1;
    }
    assert(m.take(k as int) == m);
    Some(out)
}

} // verus!

verus! {

// ── Entries ─────────────────────────────────────────────────────────────────

/// The longest an entry gets, in lines (a guard against endless XML dumps).
pub const MAX_ENTRY_LINES: usize = 80;

/// The characters of each line.
pub open spec fn lines_view(v: Seq<Vec<char>>) -> Seq<Seq<char>> {
    v.map_values(|l: Vec<char>| l@)
}

/// The frames after a continuation line (already trimmed at the start):
/// `at X` gives the frame `X`, a `(wrapper ...)` line is a frame itself.
pub open spec fn frames_after(frames: Seq<Seq<char>>, t: Seq<char>) -> Seq<Seq<char>> {
    if has_prefix(t, "at "@) {
        frames.push(trim_end(t.skip(3)))
    } else if has_prefix(t, "(wrapper"@) {
        frames.push(trim_end(t))
    } else {
        frames
    }
}

/// Reading an entry on from line `j`, with the lines and frames read so far:
/// the entry's lines, its frames, and the line after it. A `(Filename: ...)`
/// line ends an entry and belongs to it; an empty line ends it unless a
/// continuation follows.
pub open spec fn collect(lines: Seq<Seq<char>>, j: int, body: Seq<Seq<char>>, frames: Seq<Seq<char>>) -> (
    Seq<Seq<char>>,
    Seq<Seq<char>>,
    int,
)
    decreases lines.len() - j,
{
    if j < 0 || j >= lines.len() || body.len() >= MAX_ENTRY_LINES {
        (body, frames, j)
    } else {
        let line = lines[j];
        if has_prefix(trim_start(line), "(Filename:"@) {
            (body, frames, j + 1)
        } else if trim(line).len() == 0 {
            if j + 1 < lines.len() && continues(lines[j + 1]) {
                collect(lines, j + 1, body, frames)
            } else {
                (body, frames, j)
            }
        } else if !continues(line) {
            (body, frames, j)
        } else {
            collect(lines, j + 1, body.push(trim_end(line)), frames_after(frames, trim_start(line)))
        }
    }
}

/// The entry whose first line is `start`.
pub open spec fn entry_at(lines: Seq<Seq<char>>, start: int) -> (Seq<Seq<char>>, Seq<Seq<char>>, int) {
    collect(lines, start + 1, seq![trim_end(lines[start])], Seq::empty())
}

fn lit(s: &str) -> (r: Vec<char>)
    ensures
        r@ == s@,
{
    chars_of(s)
}

fn collect_entry(lines: &Vec<Vec<char>>, start: usize) -> (r: (Vec<Vec<char>>, Vec<Vec<char>>, usize))
    requires
        start < lines.len(),
    ensures
        (lines_view(r.0@), lines_view(r.1@), r.2 as int) == entry_at(lines_view(lines@), start as int),
        r.0@.len() >= 1,
        r.0@[0]@ == trim_end(lines@[start as int]@),
        start < r.2 <= lines@.len(),
{
    let ghost ls = lines_view(lines@);
    let mut body: Vec<Vec<char>> = Vec::new();
    body.push(trim_end_chars(&lines[start]));
    let mut frames: Vec<Vec<char>> = Vec::new();
    let mut j = start + 1;
    assert(lines_view(body@) == seq![trim_end(ls[start as int])]);
    assert(lines_view(frames@) == Seq::<Seq<char>>::empty());
    while j < lines.len() && body.len() < MAX_ENTRY_LINES
        invariant
            ls == lines_view(lines@),
            start < j <= lines@.len(),
            body@.len() >= 1,
            body@[0]@ == trim_end(lines@[start as int]@),
            collect(ls, j as int, lines_view(body@), lines_view(frames@)) == entry_at(ls, start as int),
        decreases lines@.len() - j,
    {
        let line = &lines[j];
        assert(ls[j as int] == line@);
        let ts = trim_start_chars(line);
        if starts_with(&ts, &lit("(Filename:")) {
            j = j + 1;
            break;
        }
        let tt = trim_chars(line);
        if tt.len() == 0 {
            if j + 1 < lines.len() && is_continuation(&lines[j + 1]) {
                assert(ls[j + 1] == lines@[j + 1]@);
                j = j + 1;
                continue;
            }
            break;
        }
        if !is_continuation(line) {
            break;
        }
        let ghost fv = lines_view(frames@);
        if starts_with(&ts, &lit("at ")) {
            proof {
                reveal_strlit("at ");
            }
            let rest = slice_vec(&ts, 3, ts.len());
            assert(rest@ == ts@.skip(3));
            frames.push(trim_end_chars(&rest));
        } else if starts_with(&ts, &lit("(wrapper")) {
            frames.push(trim_end_chars(&ts));
        }
        assert(lines_view(frames@) == frames_after(fv, trim_start(line@)));
        let ghost bv = lines_view(body@);
        body.push(trim_end_chars(line));
        assert(lines_view(body@) == bv.push(trim_end(line@)));
        j = j + 1;
    }
    (body, frames, j)
}

} // verus!

verus! {

// ── Scanning and grouping ───────────────────────────────────────────────────

/// The entries found from line `i` on: severity, lines, frames. Noise is
/// skipped with its whole entry, stack included, so that an exception line
/// from its trace does not surface as an error of its own.
pub open spec fn entries_from(lines: Seq<Seq<char>>, i: int) -> Seq<(Severity, Seq<Seq<char>>, Seq<Seq<char>>)>
    decreases (if i < lines.len() { lines.len() - i } else { 0 }),
{
    if i < 0 || i >= lines.len() {
        Seq::empty()
    } else {
        let (body, frames, next) = entry_at(lines, i);
        let after = if next > i + 1 { next } else { i + 1 };
        if is_noise_spec(lines[i]) {
            entries_from(lines, after)
        } else {
            match start_kind(lines[i]) {
                None => entries_from(lines, i + 1),
                Some(sev) => seq![(sev, body, frames)] + entries_from(lines, after),
            }
        }
    }
}

/// Lines joined with `\n`.
pub open spec fn joined_lines(ls: Seq<Seq<char>>) -> Seq<char>
    decreases ls.len(),
{
    if ls.len() == 0 {
        Seq::empty()
    } else if ls.len() == 1 {
        ls[0]
    } else {
        joined_lines(ls.drop_last()) + seq!['\n'] + ls.last()
    }
}

/// What identical entries share: the grouping form of the title, and of the
/// first frame where there is one.
pub open spec fn signature(title: Seq<char>, frames: Seq<Seq<char>>) -> Seq<char> {
    if frames.len() > 0 {
        normalized(title) + seq!['\n'] + normalized(frames[0])
    } else {
        normalized(title)
    }
}

pub open spec fn issue_sig(iv: IssueView) -> Seq<char> {
    signature(iv.1, iv.4)
}

/// One more entry: one more count for the issue with its signature, or a
/// new issue after the others.
pub open spec fn group_step(g: Seq<IssueView>, e: (Severity, Seq<Seq<char>>, Seq<Seq<char>>)) -> Seq<IssueView> {
    let key = signature(e.1[0], e.2);
    let keys = g.map_values(|iv: IssueView| issue_sig(iv));
    if keys.contains(key) {
        let k = first_at(keys, key);
        g.update(k, (g[k].0, g[k].1, g[k].2, g[k].3 + 1, g[k].4))
    } else {
        g.push((e.0, e.1[0], joined_lines(e.1), 1nat, e.2))
    }
}

/// Entries grouped by signature, in order of first occurrence: the first
/// occurrence gives title, text and frames, later ones only add to the count.
pub open spec fn grouped(es: Seq<(Severity, Seq<Seq<char>>, Seq<Seq<char>>)>) -> Seq<IssueView>
    decreases es.len(),
{
    if es.len() == 0 {
        Seq::empty()
    } else {
        group_step(grouped(es.drop_last()), es.last())
    }
}

/// An entry whose title and first frame take their grouping form without
/// splitting a character.
pub open spec fn entry_ok(e: (Severity, Seq<Seq<char>>, Seq<Seq<char>>)) -> bool {
    normalizes(e.1[0]) && (e.2.len() > 0 ==> normalizes(e.2[0]))
}

/// The entries of a log text.
pub open spec fn log_entries(text: Seq<char>) -> Seq<(Severity, Seq<Seq<char>>, Seq<Seq<char>>)> {
    entries_from(lines_of(text), 0)
}

/// The issues of a log text.
pub open spec fn log_issues(text: Seq<char>) -> Seq<IssueView> {
    grouped(log_entries(text))
}

/// The log can be grouped: no title or first frame has a character across
/// the 160-byte cut.
pub open spec fn parse_ok(text: Seq<char>) -> bool {
    forall|k: int| 0 <= k < log_entries(text).len() ==> entry_ok(#[trigger] log_entries(text)[k])
}

fn join_lines(ls: &Vec<Vec<char>>) -> (r: Vec<char>)
    ensures
        r@ == joined_lines(lines_view(ls@)),
{
    let ghost v = lines_view(ls@);
    let mut out: Vec<char> = Vec::new();
    for k in 0..ls.len()
        invariant
            v == lines_view(ls@),
            out@ == joined_lines(v.take(k as int)),
    {
        assert(v.take(k + 1).drop_last() == v.take(k as int));
        assert(v[k as int] == ls@[k as int]@);
        if k > 0 {
            out.push('\n');
        }
        push_all(&mut out, &ls[k]);
        assert(v.take(k + 1).last() == v[k as int]);
        if k == 0 {
            assert(out@ == v.take(1)[0]);
        }
    }
    assert(v.take(ls.len() as int) == v);
    out
}

fn same_chars(a: &Vec<char>, b: &Vec<char>) -> (r: bool)
    ensures
        r == (a@ == b@),
{
    if a.len() != b.len() {
        return false;
    }
    for k in 0..a.len()
        invariant
            a@.len() == b@.len(),
            forall|t: int| 0 <= t < k ==> a@[t] == b@[t],
    {
        if a[k] != b[k] {
            return false;
        }
    }
    assert(a@ == b@);
    true
}

pub(crate) fn strings_of(v: &Vec<Vec<char>>) -> (r: Vec<String>)
    ensures
        r@.map_values(|s: String| s@) == lines_view(v@),
{
    let mut out: Vec<String> = Vec::new();
    for k in 0..v.len()
        invariant
            out@.map_values(|s: String| s@) == lines_view(v@).take(k as int),
    {
        let ghost before = out@.map_values(|s: String| s@);
        out.push(string_of(&v[k]));
        assert(out@.map_values(|s: String| s@) == before.push(v@[k as int]@));
        assert(lines_view(v@).take(k + 1) == lines_view(v@).take(k as int).push(v@[k as int]@));
    }
    assert(lines_view(v@).take(v.len() as int) == lines_view(v@));
    out
}

} // verus!

verus! {

/// Where in the keys `key` first occurs.
fn position_of(keys: &Vec<Vec<char>>, key: &Vec<char>) -> (r: Option<usize>)
    ensures
        r matches Some(k) ==> k < keys@.len() && lines_view(keys@)[k as int] == key@ && first_at(
            lines_view(keys@),
            key@,
        ) == k,
        r is None ==> !lines_view(keys@).contains(key@),
{
    let ghost kv = lines_view(keys@);
    for k in 0..keys.len()
        invariant
            kv == lines_view(keys@),
            forall|t: int| 0 <= t < k ==> kv[t] != key@,
    {
        assert(kv[k as int] == keys@[k as int]@);
        if same_chars(&keys[k], key) {
            proof {
                crate::text::lemma_first_at(kv, key@, k as int);
            }
            return Some(k);
        }
    }
    proof {
        if kv.contains(key@) {
            let t = choose|t: int| 0 <= t < kv.len() && kv[t] == key@;
            assert(kv[t] != key@);
        }
    }
    None
}

/// The first occurrences, the counts and the keys of issues built so far
/// stand for `g`.
pub open spec fn groups_match(
    firsts: Seq<(Severity, Vec<char>, Vec<char>, Vec<Vec<char>>)>,
    counts: Seq<usize>,
    keys: Seq<Vec<char>>,
    g: Seq<IssueView>,
) -> bool {
    &&& firsts.len() == g.len()
    &&& counts.len() == g.len()
    &&& lines_view(keys) == g.map_values(|iv: IssueView| issue_sig(iv))
    &&& forall|k: int|
        0 <= k < g.len() ==> (#[trigger] firsts[k].0, firsts[k].1@, firsts[k].2@, counts[k] as nat, lines_view(
            firsts[k].3@,
        )) == g[k]
}

/// Scans and groups, or gives `None` where a title or first frame would be
/// cut inside a character.
fn scan_issues(text: &str) -> (r: Option<Vec<LogIssue>>)
    ensures
        r is Some <==> parse_ok(text@),
        r matches Some(v) ==> v@.map_values(|i: LogIssue| issue_view(i)) == log_issues(text@) && forall|k: int|
            0 <= k < v@.len() ==> (#[trigger] v@[k]).suspects@.len() == 0 && v@[k].harmony_hint is None,
{
    let lines = text_lines(text);
    let ghost ls = lines_view(lines@);
    let ghost es = entries_from(ls, 0);
    let ghost mut found: Seq<(Severity, Seq<Seq<char>>, Seq<Seq<char>>)> = Seq::empty();
    let mut firsts: Vec<(Severity, Vec<char>, Vec<char>, Vec<Vec<char>>)> = Vec::new();
    let mut counts: Vec<usize> = Vec::new();
    let mut keys: Vec<Vec<char>> = Vec::new();
    let mut i: usize = 0;
    assert(ls == lines_of(text@));
    assert(lines_view(keys@) == grouped(found).map_values(|iv: IssueView| issue_sig(iv)));
    while i < lines.len()
        invariant
            ls == lines_view(lines@),
            ls == lines_of(text@),
            es == entries_from(ls, 0),
            i <= lines@.len(),
            found + entries_from(ls, i as int) == es,
            found.len() <= i,
            forall|k: int| 0 <= k < found.len() ==> entry_ok(#[trigger] found[k]),
            groups_match(firsts@, counts@, keys@, grouped(found)),
            forall|k: int| 0 <= k < counts@.len() ==> counts@[k] <= found.len(),
        decreases lines@.len() - i,
    {
        assert(ls[i as int] == lines@[i as int]@);
        if is_noise(&lines[i]) {
            let (_, _, next) = collect_entry(&lines, i);
            assert(entries_from(ls, i as int) == entries_from(ls, next as int));
            i = next;
            continue;
        }
        let kind = classify_start(&lines[i]);
        if kind.is_none() {
            assert(entries_from(ls, i as int) == entries_from(ls, i + 1));
            i = i + 1;
            continue;
        }
        let sev = kind.unwrap();
        let (body, frames, j) = collect_entry(&lines, i);
        let ghost e = (sev, lines_view(body@), lines_view(frames@));
        assert(entries_from(ls, i as int) == seq![e] + entries_from(ls, j as int));
        assert(es[found.len() as int] == e) by {
            assert((found + entries_from(ls, i as int))[found.len() as int] == e);
        }
        assert(e.1[0] == body@[0]@);
        let title = slice_vec(&body[0], 0, body[0].len());
        assert(title@ == body@[0]@);
        let mut key = match normalize(&title) {
            Some(n) => n,
            None => {
                assert(log_entries(text@) == es);
                assert(!entry_ok(log_entries(text@)[found.len() as int]));
                return None;
            },
        };
        if frames.len() > 0 {
            assert(e.2[0] == frames@[0]@);
            match normalize(&frames[0]) {
                Some(nf) => {
                    key.push('\n');
                    push_all(&mut key, &nf);
                },
                None => {
                    assert(log_entries(text@) == es);
                    assert(!entry_ok(log_entries(text@)[found.len() as int]));
                    return None;
                },
            }
        }
        assert(key@ == signature(e.1[0], e.2));
        add_entry(&mut firsts, &mut counts, &mut keys, sev, title, body, frames, key, Ghost(found));
        proof {
            found = found.push(e);
            assert(found + entries_from(ls, j as int) == es);
        }
        i = j;
    }
    assert(found == es);
    Some(assemble(&firsts, &counts, &keys, Ghost(grouped(found))))
}

/// Adds an entry to the groups: one more count where its signature is
/// known, a new group where it is not.
fn add_entry(
    firsts: &mut Vec<(Severity, Vec<char>, Vec<char>, Vec<Vec<char>>)>,
    counts: &mut Vec<usize>,
    keys: &mut Vec<Vec<char>>,
    sev: Severity,
    title: Vec<char>,
    body: Vec<Vec<char>>,
    frames: Vec<Vec<char>>,
    key: Vec<char>,
    Ghost(found): Ghost<Seq<(Severity, Seq<Seq<char>>, Seq<Seq<char>>)>>,
)
    requires
        groups_match(old(firsts)@, old(counts)@, old(keys)@, grouped(found)),
        forall|k: int| 0 <= k < old(counts)@.len() ==> old(counts)@[k] <= found.len(),
        found.len() < usize::MAX,
        body@.len() >= 1,
        title@ == body@[0]@,
        key@ == signature(title@, lines_view(frames@)),
    ensures
        groups_match(final(firsts)@, final(counts)@, final(keys)@, grouped(found.push((sev, lines_view(body@), lines_view(frames@))))),
        forall|k: int| 0 <= k < final(counts)@.len() ==> final(counts)@[k] <= found.len() + 1,
{
    let ghost e = (sev, lines_view(body@), lines_view(frames@));
    let ghost g = grouped(found);
    let ghost g2 = grouped(found.push(e));
    assert(found.push(e).drop_last() == found);
    assert(found.push(e).last() == e);
    assert(e.1[0] == title@);
    match position_of(keys, &key) {
        Some(k) => {
            let c = counts[k];
            counts.set(k, c + 1);
            assert(g2 == g.update(k as int, (g[k as int].0, g[k as int].1, g[k as int].2, g[k as int].3 + 1, g[k as int].4)));
            assert(lines_view(keys@) == g2.map_values(|iv: IssueView| issue_sig(iv)));
        },
        None => {
            let text_of = join_lines(&body);
            firsts.push((sev, title, text_of, frames));
            counts.push(1);
            let ghost kv = lines_view(keys@);
            keys.push(key);
            assert(g2 == g.push((e.0, e.1[0], joined_lines(e.1), 1nat, e.2)));
            assert(lines_view(keys@) == kv.push(signature(e.1[0], e.2)));
            assert(lines_view(keys@) == g2.map_values(|iv: IssueView| issue_sig(iv)));
        },
    }
}

/// The issues the groups stand for.
fn assemble(
    firsts: &Vec<(Severity, Vec<char>, Vec<char>, Vec<Vec<char>>)>,
    counts: &Vec<usize>,
    keys: &Vec<Vec<char>>,
    Ghost(g): Ghost<Seq<IssueView>>,
) -> (out: Vec<LogIssue>)
    requires
        groups_match(firsts@, counts@, keys@, g),
    ensures
        out@.map_values(|i: LogIssue| issue_view(i)) == g,
        forall|t: int| 0 <= t < out@.len() ==> (#[trigger] out@[t]).suspects@.len() == 0 && out@[t].harmony_hint is None,
{
    let mut out: Vec<LogIssue> = Vec::new();
    for k in 0..firsts.len()
        invariant
            groups_match(firsts@, counts@, keys@, g),
            out@.map_values(|i: LogIssue| issue_view(i)) == g.take(k as int),
            forall|t: int| 0 <= t < out@.len() ==> (#[trigger] out@[t]).suspects@.len() == 0 && out@[t].harmony_hint is None,
    {
        let f = &firsts[k];
        let issue = LogIssue {
            severity: f.0,
            title: string_of(&f.1),
            full_text: string_of(&f.2),
            count: counts[k],
            frames: strings_of(&f.3),
            suspects: Vec::new(),
            harmony_hint: None,
        };
        assert(issue_view(issue) == g[k as int]);
        let ghost before = out@.map_values(|i: LogIssue| issue_view(i));
        out.push(issue);
        assert(out@.map_values(|i: LogIssue| issue_view(i)) == before.push(issue_view(issue)));
        assert(g.take(k + 1) == g.take(k as int).push(g[k as int]));
    }
    assert(g.take(firsts.len() as int) == g);
    out
}

/// Whether the log can be grouped: no title or first frame of an entry has
/// a character across the 160-byte cut.
pub fn log_parses(text: &str) -> (r: bool)
    ensures
        r == parse_ok(text@),
{
    scan_issues(text).is_some()
}

/// Splits a log into entries and groups identical ones.
///
/// An entry starts at an unindented line that reads as an error or warning
/// and takes the continuation lines after it; entries with the same title
/// and first frame (digits masked, cut to 160 bytes) are one issue, counted.
pub fn parse_log(text: &str) -> (r: Vec<LogIssue>)
    requires
        parse_ok(text@),
    ensures
        r@.map_values(|i: LogIssue| issue_view(i)) == log_issues(text@),
        forall|k: int| 0 <= k < r@.len() ==> (#[trigger] r@[k]).suspects@.len() == 0 && r@[k].harmony_hint is None,
{
    match scan_issues(text) {
        Some(v) => v,
        None => Vec::new(),
    }
}

/// [`parse_log`] where the log can be grouped, `None` where grouping would
/// cut a title or frame inside a character.
pub fn try_parse_log(text: &str) -> (r: Option<Vec<LogIssue>>)
    ensures
        r is Some <==> parse_ok(text@),
        r matches Some(v) ==> v@.map_values(|i: LogIssue| issue_view(i)) == log_issues(text@),
{
    if log_parses(text) {
        Some(parse_log(text))
    } else {
        None
    }
}

} // verus!

verus! {

// ── Sizes ───────────────────────────────────────────────────────────────────

proof fn lemma_collect_sizes(lines: Seq<Seq<char>>, j: int, body: Seq<Seq<char>>, frames: Seq<Seq<char>>)
    ensures
        collect(lines, j, body, frames).1.len() + body.len() <= collect(lines, j, body, frames).0.len() + frames.len(),
        collect(lines, j, body, frames).0.len() <= if body.len() <= MAX_ENTRY_LINES { MAX_ENTRY_LINES as nat } else { body.len() },
    decreases lines.len() - j,
{
    if j < 0 || j >= lines.len() || body.len() >= MAX_ENTRY_LINES {
    } else {
        let line = lines[j];
        if has_prefix(trim_start(line), "(Filename:"@) {
        } else if trim(line).len() == 0 {
            if j + 1 < lines.len() && continues(lines[j + 1]) {
                lemma_collect_sizes(lines, j + 1, body, frames);
            }
        } else if !continues(line) {
        } else {
            lemma_collect_sizes(lines, j + 1, body.push(trim_end(line)), frames_after(frames, trim_start(line)));
        }
    }
}

/// Every entry has fewer frames than the longest entry has lines.
pub proof fn lemma_entry_frames(lines: Seq<Seq<char>>, i: int)
    ensures
        forall|k: int| 0 <= k < entries_from(lines, i).len() ==> (#[trigger] entries_from(lines, i)[k]).2.len() < MAX_ENTRY_LINES,
    decreases (if i < lines.len() { lines.len() - i } else { 0 }),
{
    if i < 0 || i >= lines.len() {
    } else {
        let (body, frames, next) = entry_at(lines, i);
        let after = if next > i + 1 { next } else { i + 1 };
        lemma_collect_sizes(lines, i + 1, seq![trim_end(lines[i])], Seq::empty());
        lemma_entry_frames(lines, after);
        lemma_entry_frames(lines, i + 1);
        let r = collect(lines, i + 1, seq![trim_end(lines[i])], Seq::empty());
        assert(r.1.len() < MAX_ENTRY_LINES);
        if is_noise_spec(lines[i]) {
            assert(entries_from(lines, i) == entries_from(lines, after));
        } else {
            match start_kind(lines[i]) {
                None => {
                    assert(entries_from(lines, i) == entries_from(lines, i + 1));
                },
                Some(sev) => {
                    let rest = entries_from(lines, after);
                    assert(entries_from(lines, i) == seq![(sev, body, frames)] + rest);
                    assert forall|k: int| 0 <= k < entries_from(lines, i).len() implies (#[trigger] entries_from(lines, i)[k]).2.len() < MAX_ENTRY_LINES by {
                        if k > 0 {
                            assert(entries_from(lines, i)[k] == rest[k - 1]);
                        }
                    }
                },
            }
        }
    }
}

/// The issues have the frames of entries.
pub proof fn lemma_grouped_frames(es: Seq<(Severity, Seq<Seq<char>>, Seq<Seq<char>>)>, bound: nat)
    requires
        forall|k: int| 0 <= k < es.len() ==> (#[trigger] es[k]).2.len() < bound,
    ensures
        forall|k: int| 0 <= k < grouped(es).len() ==> (#[trigger] grouped(es)[k]).4.len() < bound,
    decreases es.len(),
{
    if es.len() > 0 {
        let d = es.drop_last();
        assert forall|k: int| 0 <= k < d.len() implies (#[trigger] d[k]).2.len() < bound by {
            assert(d[k] == es[k]);
        }
        lemma_grouped_frames(d, bound);
        assert(es.last() == es[es.len() - 1]);
        let g = grouped(d);
        let e = es.last();
        let key = signature(e.1[0], e.2);
        let keys = g.map_values(|iv: IssueView| issue_sig(iv));
        if keys.contains(key) {
            let k0 = first_at(keys, key);
            crate::text::lemma_first_at_exists(keys, key);
            assert forall|k: int| 0 <= k < grouped(es).len() implies (#[trigger] grouped(es)[k]).4.len() < bound by {
                assert(grouped(es)[k].4 == g[k].4);
            }
        } else {
            assert forall|k: int| 0 <= k < grouped(es).len() implies (#[trigger] grouped(es)[k]).4.len() < bound by {
                if k < g.len() {
                    assert(grouped(es)[k] == g[k]);
                }
            }
        }
    }
}

/// Every issue of a log has fewer frames than the longest entry has lines.
pub proof fn lemma_issue_frames(text: Seq<char>)
    ensures
        forall|k: int| 0 <= k < log_issues(text).len() ==> (#[trigger] log_issues(text)[k]).4.len() < MAX_ENTRY_LINES,
{
    lemma_entry_frames(lines_of(text), 0);
    lemma_grouped_frames(log_entries(text), MAX_ENTRY_LINES as nat);
}

} // verus!

verus! {

// ── Laws ────────────────────────────────────────────────────────────────────

/// The counts of issues, added up.
pub open spec fn total_count(g: Seq<IssueView>) -> nat
    decreases g.len(),
{
    if g.len() == 0 { 0 } else { total_count(g.drop_last()) + g.last().3 }
}

proof fn lemma_total_update(g: Seq<IssueView>, k: int, iv: IssueView)
    requires
        0 <= k < g.len(),
        iv.3 == g[k].3 + 1,
    ensures
        total_count(g.update(k, iv)) == total_count(g) + 1,
    decreases g.len(),
{
    if k == g.len() - 1 {
        assert(g.update(k, iv).drop_last() == g.drop_last());
    } else {
        lemma_total_update(g.drop_last(), k, iv);
        assert(g.update(k, iv).drop_last() == g.drop_last().update(k, iv));
    }
}

/// What grouping keeps: distinct signatures, counts of at least one.
pub open spec fn groups_sound(g: Seq<IssueView>) -> bool {
    &&& forall|i: int, j: int| 0 <= i < j < g.len() ==> issue_sig(#[trigger] g[i]) != issue_sig(#[trigger] g[j])
    &&& forall|i: int| 0 <= i < g.len() ==> (#[trigger] g[i]).3 >= 1
}

proof fn lemma_group_step(g: Seq<IssueView>, e: (Severity, Seq<Seq<char>>, Seq<Seq<char>>))
    requires
        groups_sound(g),
    ensures
        groups_sound(group_step(g, e)),
        total_count(group_step(g, e)) == total_count(g) + 1,
{
    let key = signature(e.1[0], e.2);
    let keys = g.map_values(|iv: IssueView| issue_sig(iv));
    let r = group_step(g, e);
    if keys.contains(key) {
        crate::text::lemma_first_at_exists(keys, key);
        let k = first_at(keys, key);
        let iv = (g[k].0, g[k].1, g[k].2, g[k].3 + 1, g[k].4);
        assert(r == g.update(k, iv));
        lemma_total_update(g, k, iv);
        assert forall|i: int, j: int| 0 <= i < j < r.len() implies issue_sig(#[trigger] r[i]) != issue_sig(#[trigger] r[j]) by {
            assert(issue_sig(r[i]) == issue_sig(g[i]));
            assert(issue_sig(r[j]) == issue_sig(g[j]));
        }
    } else {
        let iv = (e.0, e.1[0], joined_lines(e.1), 1nat, e.2);
        assert(r == g.push(iv));
        assert(r.drop_last() == g);
        assert forall|i: int, j: int| 0 <= i < j < r.len() implies issue_sig(#[trigger] r[i]) != issue_sig(#[trigger] r[j]) by {
            if j == g.len() {
                assert(keys[i] == issue_sig(g[i]));
                assert(issue_sig(r[j]) == key);
            } else {
                assert(r[i] == g[i] && r[j] == g[j]);
            }
        }
        assert forall|i: int| 0 <= i < r.len() implies (#[trigger] r[i]).3 >= 1 by {
            if i < g.len() {
                assert(r[i] == g[i]);
            }
        }
    }
}

proof fn lemma_grouped_laws(es: Seq<(Severity, Seq<Seq<char>>, Seq<Seq<char>>)>)
    ensures
        groups_sound(grouped(es)),
        total_count(grouped(es)) == es.len(),
    decreases es.len(),
{
    if es.len() > 0 {
        lemma_grouped_laws(es.drop_last());
        lemma_group_step(grouped(es.drop_last()), es.last());
    }
}

/// Identical entries collapse into one issue: no two issues of a log share
/// a signature, every issue occurs at least once, and the counts add up to
/// the number of entries.
pub proof fn law_identical_entries_collapse(text: Seq<char>)
    ensures
        forall|i: int, j: int|
            0 <= i < j < log_issues(text).len() ==> issue_sig(#[trigger] log_issues(text)[i]) != issue_sig(
                #[trigger] log_issues(text)[j],
            ),
        forall|i: int| 0 <= i < log_issues(text).len() ==> (#[trigger] log_issues(text)[i]).3 >= 1,
        total_count(log_issues(text)) == log_entries(text).len(),
{
    lemma_grouped_laws(log_entries(text));
}

/// An entry's body keeps the lines it was started with.
proof fn lemma_collect_keeps(lines: Seq<Seq<char>>, j: int, body: Seq<Seq<char>>, frames: Seq<Seq<char>>)
    ensures
        collect(lines, j, body, frames).0.len() >= body.len(),
        forall|k: int| 0 <= k < body.len() ==> #[trigger] collect(lines, j, body, frames).0[k] == body[k],
    decreases lines.len() - j,
{
    if !(j < 0 || j >= lines.len() || body.len() >= MAX_ENTRY_LINES) {
        let line = lines[j];
        if has_prefix(trim_start(line), "(Filename:"@) {
        } else if trim(line).len() == 0 {
            if j + 1 < lines.len() && continues(lines[j + 1]) {
                lemma_collect_keeps(lines, j + 1, body, frames);
            }
        } else if !continues(line) {
        } else {
            let b2 = body.push(trim_end(line));
            lemma_collect_keeps(lines, j + 1, b2, frames_after(frames, trim_start(line)));
            assert forall|k: int| 0 <= k < body.len() implies #[trigger] collect(lines, j, body, frames).0[k] == body[k] by {
                assert(b2[k] == body[k]);
            }
        }
    }
}

/// An unindented line whose lowercase form starts with `could not` (and
/// that reports no statistics such as `0 errors` or `no errors`) starts an
/// error entry.
pub proof fn law_could_not_is_an_error(line: Seq<char>)
    requires
        line.len() > 0,
        line[0] != ' ',
        line[0] != '\t',
        has_prefix(lowercase(line), "could not"@),
        !occurs(lowercase(line), "0 errors"@),
        !occurs(lowercase(line), "no errors"@),
    ensures
        start_kind(line) == Some(Severity::Error),
{
    reveal_strlit("could not");
    reveal_strlit("warning");
    reveal_strlit("[warning]");
    let l = lowercase(line);
    assert("could not"@.len() == 9 && "could not"@[0] == 'c');
    assert(l.take(9) == "could not"@);
    assert(l.take(9)[0] == l[0]);
    if has_prefix(l, "warning"@) {
        assert("warning"@[0] == 'w');
        assert(l.take(7) == "warning"@);
        assert(l.take(7)[0] == l[0]);
    }
    if has_prefix(l, "[warning]"@) {
        assert("[warning]"@[0] == '[');
        assert(l.take(9) == "[warning]"@);
    }
}

/// In a log, such a `could not` line that is no translation or start-up
/// noise begins an error entry whose title is the line (without trailing
/// whitespace).
pub proof fn law_could_not_line_begins_an_error_entry(lines: Seq<Seq<char>>, i: int)
    requires
        0 <= i < lines.len(),
        lines[i].len() > 0,
        lines[i][0] != ' ',
        lines[i][0] != '\t',
        has_prefix(lowercase(lines[i]), "could not"@),
        !occurs(lowercase(lines[i]), "0 errors"@),
        !occurs(lowercase(lines[i]), "no errors"@),
        !is_noise_spec(lines[i]),
    ensures
        entries_from(lines, i).len() > 0,
        entries_from(lines, i)[0].0 == Severity::Error,
        entries_from(lines, i)[0].1[0] == trim_end(lines[i]),
{
    law_could_not_is_an_error(lines[i]);
    lemma_collect_keeps(lines, i + 1, seq![trim_end(lines[i])], Seq::empty());
}

/// A line that reports statistics such as `0 errors` or `no errors` never
/// starts an error entry, whatever else it says.
pub proof fn law_error_statistics_are_no_error(line: Seq<char>)
    requires
        occurs(lowercase(line), "0 errors"@) || occurs(lowercase(line), "no errors"@),
    ensures
        start_kind(line) != Some(Severity::Error),
{
}

/// An indented line, or an empty one, starts no entry: it belongs to the
/// entry above it.
pub proof fn law_indented_lines_start_nothing(line: Seq<char>)
    requires
        line.len() == 0 || line[0] == ' ' || line[0] == '\t',
    ensures
        start_kind(line).is_none(),
{
}

/// An unindented line whose lowercase form starts with `warning` starts a
/// warning entry.
pub proof fn law_warning_lines_start_warnings(line: Seq<char>)
    requires
        line.len() > 0,
        line[0] != ' ',
        line[0] != '\t',
        has_prefix(lowercase(line), "warning"@),
    ensures
        start_kind(line) == Some(Severity::Warning),
{
}

/// The beginnings that mark a line as an error.
pub open spec fn error_openings() -> Seq<Seq<char>> {
    seq!["error"@, "failed"@, "could not"@, "couldn't"@, "unable to"@, "xml error"@, "mod errors"@, "loader exceptions"@]
}

/// An unindented line that is no warning, reports no statistics such as
/// `0 errors`, and whose lowercase form begins with one of
/// [`error_openings`] or mentions `exception` or `error:` starts an error
/// entry.
pub proof fn law_error_lines_start_errors(line: Seq<char>, k: int)
    requires
        line.len() > 0,
        line[0] != ' ',
        line[0] != '\t',
        !has_prefix(lowercase(line), "warning"@),
        !has_prefix(lowercase(line), "[warning]"@),
        !occurs(lowercase(line), "0 errors"@),
        !occurs(lowercase(line), "no errors"@),
        (0 <= k < error_openings().len() && has_prefix(lowercase(line), error_openings()[k]))
            || occurs(lowercase(line), "exception"@) || occurs(lowercase(line), "error:"@),
    ensures
        start_kind(line) == Some(Severity::Error),
{
}

} // verus!
