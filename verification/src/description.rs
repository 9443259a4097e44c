//! Mod descriptions to Markdown.
//!
//! `About.xml` formally holds Unity rich text (`<b>`, `<color=…>`), but
//! authors paste Steam Workshop markup into it as well: BBCode (`[h2]`,
//! `[table]`, `[img]`, `[list]`). Its line breaks are real ones, which
//! Markdown would join. Both formats are brought to Markdown here, with hard
//! line breaks where the text had them.
//!
//! The text is handled as characters. Closing tags are searched for with
//! ASCII letters folded to lower case; tag names and link schemes are
//! lowercased in full (`str::to_lowercase`).

use vstd::prelude::*;
use crate::log_analysis::parser::{lines_of, lines_view, text_lines};
use crate::text::{all_digits, ascii_lower, chars_of, char_whitespace, decimal_chars, decimal_text, find, first_occurrence};
use crate::text::{has_char, has_prefix, is_whitespace, lemma_first_occurrence_valid, lemma_prefix_before_len, lemma_ws_bounds};
use crate::text::{lower_chars, lowercase, occurs_at, prefix_before, push_all, replace_all, replace_chars, slice_vec};
use crate::text::{starts_with, strip_char, strip_char_chars, string_of, swap_char, swap_char_chars, to_ascii_lower};
use crate::text::{trim, trim_chars, trim_end, trim_end_chars, trim_start, trim_start_chars};
use crate::text::{lemma_trim_of_trimmed, lemma_trim_shape};

verus! {

broadcast use vstd::string::group_string_axioms;

/// Longest visible link text. A long URL is one unbreakable word that
/// would make the description wider than its panel.
pub const MAX_LABEL: usize = 45;

/// Widest table (in visible characters, three per cell for the borders)
/// that stays a table; wider ones are laid out as lines.
pub const MAX_TABLE_WIDTH: usize = 60;

/// Most columns a table may have and stay a table.
pub const MAX_TABLE_COLUMNS: usize = 3;

// ── Small helpers ───────────────────────────────────────────────────────────

fn lit(s: &str) -> (r: Vec<char>)
    ensures
        r@ == s@,
{
    chars_of(s)
}

/// Whether `name` is exactly the word `w`.
fn is_word(name: &[char], w: &str) -> (r: bool)
    ensures
        r == (name@ == w@),
{
    let l = chars_of(w);
    if name.len() != l.len() {
        return false;
    }
    let r = starts_with(name, &l);
    assert(name@.take(l@.len() as int) =~= name@);
    r
}

fn prefixed(s: &[char], p: &str) -> (r: bool)
    ensures
        r == has_prefix(s@, p@),
{
    starts_with(s, &lit(p))
}

/// Position of the first character of `s` that is `c` (`s.len()` if none).
pub open spec fn char_pos(s: Seq<char>, c: char) -> int {
    prefix_before(s, seq![c]).len() as int
}

pub proof fn lemma_char_pos(s: Seq<char>, c: char)
    ensures
        0 <= char_pos(s, c) <= s.len(),
        char_pos(s, c) < s.len() ==> s[char_pos(s, c)] == c,
        forall|j: int| 0 <= j < char_pos(s, c) ==> s[j] != c,
{
    lemma_prefix_before_len(s, seq![c]);
    let k = char_pos(s, c);
    assert forall|j: int| 0 <= j < k implies s[j] != c by {
        lemma_prefix_before_in(s, seq![c], j);
        if s[j] == c {
            assert(seq![c][0] == s[j]);
        }
    }
}

pub proof fn lemma_prefix_before_in(s: Seq<char>, stops: Seq<char>, j: int)
    requires
        0 <= j < prefix_before(s, stops).len(),
    ensures
        !stops.contains(s[j]),
    decreases s.len(),
{
    lemma_prefix_before_len(s, stops);
    if s.len() > 0 && !stops.contains(s[0]) && j > 0 {
        lemma_prefix_before_in(s.drop_first(), stops, j - 1);
        assert(s.drop_first()[j - 1] == s[j]);
    }
}

fn char_index(s: &[char], c: char) -> (k: usize)
    ensures
        k == char_pos(s@, c),
{
    let mut k: usize = 0;
    while k < s.len() && s[k] != c
        invariant
            k <= s@.len(),
            forall|t: int| 0 <= t < k ==> s@[t] != c,
        decreases s@.len() - k,
    {
        k = k + 1;
    }
    proof {
        assert forall|t: int| 0 <= t < k implies !seq![c].contains(#[trigger] s@[t]) by {
            if seq![c].contains(s@[t]) {
                assert(seq![c][0] == c);
            }
        }
        if k < s@.len() {
            assert(seq![c][0] == s@[k as int]);
        }
        crate::text::lemma_prefix_before(s@, seq![c], k as int);
    }
    k
}

pub proof fn lemma_trim_len(s: Seq<char>)
    ensures
        trim(s).len() <= s.len(),
        trim_start(s).len() <= s.len(),
        trim_end(s).len() <= s.len(),
{
    lemma_ws_bounds(s);
    lemma_ws_bounds(trim_start(s));
}

pub proof fn lemma_strip_char_len(s: Seq<char>, c: char)
    ensures
        strip_char(s, c).len() <= s.len(),
    decreases s.len(),
{
    if s.len() > 0 && s[0] == c {
        lemma_strip_char_len(s.drop_first(), c);
    } else if s.len() > 0 && s.last() == c {
        lemma_strip_char_len(s.drop_last(), c);
    }
}

// ── Escaped line breaks ─────────────────────────────────────────────────────

/// Some `About.xml` files were written with escaped line breaks: the
/// description holds the two characters `\n`, not a line feed.
pub open spec fn unescaped(raw: Seq<char>) -> Seq<char> {
    replace_all(replace_all(replace_all(raw, "\\r\\n"@, "\n"@), "\\n"@, "\n"@), "\\t"@, "\t"@)
}

fn unescape(raw: &[char]) -> (r: Vec<char>)
    ensures
        r@ == unescaped(raw@),
{
    proof {
        reveal_strlit("\\r\\n");
        reveal_strlit("\\n");
        reveal_strlit("\\t");
    }
    let a = replace_chars(raw, &lit("\\r\\n"), &lit("\n"));
    let b = replace_chars(&a, &lit("\\n"), &lit("\n"));
    replace_chars(&b, &lit("\\t"), &lit("\t"))
}

// ── Tags ────────────────────────────────────────────────────────────────────

/// `[name]`, `[name=arg]` or `[/name]` at the start of `s`: the name
/// (trimmed, lowercased), the argument (quotes stripped) and the tag's
/// length. No tag where there is no `]`, or where the text between the
/// brackets is empty or holds `[` or a line break.
pub open spec fn tag_parts(s: Seq<char>) -> Option<(Seq<char>, Option<Seq<char>>, int)> {
    let close = char_pos(s, ']');
    if close >= s.len() || close < 1 {
        None
    } else {
        let body = s.subrange(1, close);
        if body.len() == 0 || body.contains('[') || body.contains('\n') {
            None
        } else {
            let eq = char_pos(body, '=');
            let arg = if eq < body.len() { Some(strip_char(body.skip(eq + 1), '"')) } else { None };
            Some((lowercase(trim(body.take(eq))), arg, close + 1))
        }
    }
}

/// The characters of an optional argument.
pub open spec fn arg_view(a: Option<Vec<char>>) -> Option<Seq<char>> {
    match a {
        Some(v) => Some(v@),
        None => None,
    }
}

fn tag_at(s: &[char]) -> (r: Option<(Vec<char>, Option<Vec<char>>, usize)>)
    requires
        s@.len() > 0,
        s@[0] == '[',
    ensures
        match r {
            Some((name, arg, len)) => tag_parts(s@) == Some((name@, arg_view(arg), len as int)) && 2 <= len <= s@.len(),
            None => tag_parts(s@).is_none(),
        },
{
    let close = char_index(s, ']');
    proof {
        lemma_char_pos(s@, ']');
    }
    if close >= s.len() {
        return None;
    }
    let body = slice_vec(s, 1, close);
    if body.len() == 0 || has_char(&body, '[') || has_char(&body, '\n') {
        return None;
    }
    let eq = char_index(&body, '=');
    proof {
        lemma_char_pos(body@, '=');
    }
    let arg = if eq < body.len() {
        let a = slice_vec(&body, eq + 1, body.len());
        assert(a@ == body@.skip(eq + 1));
        Some(strip_char_chars(&a, '"'))
    } else {
        None
    };
    let name = slice_vec(&body, 0, eq);
    assert(name@ == body@.take(eq as int));
    let lower = lower_chars(&trim_chars(&name));
    Some((lower, arg, close + 1))
}

/// The closing tag for `tag`.
pub open spec fn closing(tag: Seq<char>) -> Seq<char> {
    seq!['[', '/'] + tag + seq![']']
}

/// The text before the first closing `[/tag]` (ASCII letters compared
/// without case) and the length up to the end of that tag.
pub open spec fn close_split(s: Seq<char>, tag: Seq<char>) -> Option<(Seq<char>, int)> {
    match first_occurrence(ascii_lower(s), closing(tag)) {
        Some(at) => Some((s.take(at), at + closing(tag).len())),
        None => None,
    }
}

pub proof fn lemma_close_split(s: Seq<char>, tag: Seq<char>)
    ensures
        close_split(s, tag) matches Some((inner, n)) ==> inner.len() + 3 <= n <= s.len() && inner == s.take(inner.len() as int),
{
    lemma_first_occurrence_valid(ascii_lower(s), closing(tag));
}

fn closing_of(tag: &[char]) -> (r: Vec<char>)
    ensures
        r@ == closing(tag@),
{
    let mut r: Vec<char> = Vec::new();
    r.push('[');
    r.push('/');
    push_all(&mut r, tag);
    r.push(']');
    assert(r@ == closing(tag@));
    r
}

fn split_until_close(s: &[char], tag: &[char]) -> (r: Option<(Vec<char>, usize)>)
    ensures
        match r {
            Some((inner, n)) => close_split(s@, tag@) == Some((inner@, n as int)) && inner@.len() + 3 <= n <= s@.len(),
            None => close_split(s@, tag@).is_none(),
        },
{
    let needle = closing_of(tag);
    let lower = to_ascii_lower(s);
    proof {
        lemma_first_occurrence_valid(lower@, needle@);
    }
    match find(&lower, &needle) {
        Some(at) => {
            assert(occurs_at(lower@, needle@, at as int));
            let total = lower.len();
            assert(at + needle@.len() <= total);
            let inner = slice_vec(s, 0, at);
            assert(inner@ == s@.take(at as int));
            Some((inner, at + needle.len()))
        },
        None => None,
    }
}

// ── Unity rich text ─────────────────────────────────────────────────────────

/// `<b>`, `<i>`, `<color=…>`, `<size=…>`, `<br>` at the start of `s`: its
/// Markdown and length. Anything else between angle brackets (`x < y`) is
/// no tag.
pub open spec fn unity_at(s: Seq<char>) -> Option<(Seq<char>, int)> {
    let close = char_pos(s, '>');
    if close >= s.len() || close < 1 {
        None
    } else {
        let body = s.subrange(1, close);
        let l = ascii_lower(body);
        if body.len() == 0 || body.contains('<') || body.contains('\n') {
            None
        } else if l == "b"@ || l == "/b"@ {
            Some(("**"@, close + 1))
        } else if l == "i"@ || l == "/i"@ {
            Some(("*"@, close + 1))
        } else if l == "br"@ || l == "br/"@ {
            Some(("\n"@, close + 1))
        } else if l == "/color"@ || l == "/size"@ || l == "/material"@ || l == "/quad"@ || has_prefix(l, "color="@)
            || has_prefix(l, "size="@) || has_prefix(l, "material="@) || has_prefix(l, "quad"@) {
            Some((Seq::empty(), close + 1))
        } else {
            None
        }
    }
}

fn unity(s: &[char]) -> (r: Option<(Vec<char>, usize)>)
    requires
        s@.len() > 0,
        s@[0] == '<',
    ensures
        match r {
            Some((o, n)) => unity_at(s@) == Some((o@, n as int)) && 0 < n <= s@.len(),
            None => unity_at(s@).is_none(),
        },
{
    let close = char_index(s, '>');
    proof {
        lemma_char_pos(s@, '>');
    }
    if close >= s.len() {
        return None;
    }
    let body = slice_vec(s, 1, close);
    if body.len() == 0 || has_char(&body, '<') || has_char(&body, '\n') {
        return None;
    }
    let l = to_ascii_lower(&body);
    let out = if is_word(&l, "b") || is_word(&l, "/b") {
        lit("**")
    } else if is_word(&l, "i") || is_word(&l, "/i") {
        lit("*")
    } else if is_word(&l, "br") || is_word(&l, "br/") {
        lit("\n")
    } else if is_word(&l, "/color") || is_word(&l, "/size") || is_word(&l, "/material") || is_word(&l, "/quad")
        || prefixed(&l, "color=") || prefixed(&l, "size=") || prefixed(&l, "material=") || prefixed(&l, "quad") {
        Vec::new()
    } else {
        return None;
    };
    Some((out, close + 1))
}

// ── Links and images ────────────────────────────────────────────────────────

/// A link target that may be handed to Markdown: `http://` or `https://`,
/// in any case, after trimming.
pub open spec fn is_safe(url: Seq<char>) -> bool {
    let l = lowercase(trim(url));
    has_prefix(l, "http://"@) || has_prefix(l, "https://"@)
}

fn is_safe_url(url: &[char]) -> (r: bool)
    ensures
        r == is_safe(url@),
{
    let l = lower_chars(&trim_chars(url));
    prefixed(&l, "http://") || prefixed(&l, "https://")
}

/// The visible text of `s`: each `[text](target)` reduced to `text`.
#[verifier::opaque]
pub open spec fn flat(s: Seq<char>) -> Seq<char>
    decreases s.len(),
{
    let open = char_pos(s, '[');
    if open >= s.len() {
        s
    } else {
        let r = s.skip(open + 1);
        s.take(open) + match first_occurrence(r, seq![']', '(']) {
            Some(close) => {
                proof {
                    lemma_first_occurrence_valid(r, seq![']', '(']);
                }
                let after = r.skip(close + 2);
                let end = char_pos(after, ')');
                if 0 <= end < after.len() {
                    r.take(close) + flat(after.skip(end + 1))
                } else {
                    seq!['['] + flat(r)
                }
            },
            None => seq!['['] + flat(r),
        }
    }
}

/// One step of [`flat`] over a non-empty `rest`: the visible text it gives
/// and how many characters it reads.
#[verifier::spinoff_prover]
#[verifier::rlimit(40)]
fn flat_step(rest: &[char], link_mid: &[char]) -> (r: (Vec<char>, usize))
    requires
        rest@.len() > 0,
        link_mid@ == seq![']', '('],
    ensures
        0 < r.1 <= rest@.len(),
        r.0@ + flat(rest@.skip(r.1 as int)) == flat(rest@),
{
    reveal(flat);
    let open = char_index(rest, '[');
    proof {
        lemma_char_pos(rest@, '[');
    }
    if open >= rest.len() {
        assert(rest@.skip(rest@.len() as int).len() == 0);
        return (slice_vec(rest, 0, rest.len()), rest.len());
    }
    let mut out = slice_vec(rest, 0, open);
    let r = vstd::slice::slice_subrange(rest, open + 1, rest.len());
    assert(r@ == rest@.skip(open + 1));
    proof {
        lemma_first_occurrence_valid(r@, seq![']', '(']);
    }
    match find(r, link_mid) {
        Some(close) => {
            let after = vstd::slice::slice_subrange(r, close + 2, r.len());
            assert(after@ == r@.skip(close + 2));
            let end = char_index(after, ')');
            proof {
                lemma_char_pos(after@, ')');
            }
            if end < after.len() {
                let text = slice_vec(r, 0, close);
                push_all(&mut out, &text);
                assert(after@.skip(end + 1) == rest@.skip(open + 1 + close + 2 + end + 1));
                (out, open + 1 + close + 2 + end + 1)
            } else {
                out.push('[');
                (out, open + 1)
            }
        },
        None => {
            out.push('[');
            (out, open + 1)
        },
    }
}

fn flatten_links(s: &[char]) -> (r: Vec<char>)
    ensures
        r@ == flat(s@),
{
    let mut out: Vec<char> = Vec::new();
    let mut i: usize = 0;
    let link_mid = lit("](");
    proof {
        reveal_strlit("](");
    }
    assert(s@.skip(0) == s@);
    while i < s.len()
        invariant
            i <= s@.len(),
            link_mid@ == seq![']', '('],
            out@ + flat(s@.skip(i as int)) == flat(s@),
        decreases s@.len() - i,
    {
        let rest = vstd::slice::slice_subrange(s, i, s.len());
        let (part, n) = flat_step(rest, &link_mid);
        assert(rest@.skip(n as int) == s@.skip(i + n));
        let ghost before = out@;
        push_all(&mut out, &part);
        assert(out@ + flat(s@.skip(i + n)) == before + (part@ + flat(rest@.skip(n as int))));
        i = i + n;
    }
    assert(flat(s@.skip(i as int)) == Seq::<char>::empty()) by {
        reveal(flat);
    }
    out
}

/// `label` trimmed, and cut to [`MAX_LABEL`] characters with an ellipsis
/// where it is one long word (a bare URL, mostly).
pub open spec fn shortened(label: Seq<char>) -> Seq<char> {
    let l = trim(label);
    if l.len() <= MAX_LABEL || exists|k: int| 0 <= k < l.len() && char_whitespace(#[trigger] l[k]) {
        l
    } else {
        l.take(MAX_LABEL - 1) + "…"@
    }
}

fn shorten(label: &[char]) -> (r: Vec<char>)
    ensures
        r@ == shortened(label@),
{
    let l = trim_chars(label);
    if l.len() <= MAX_LABEL {
        return l;
    }
    let mut k: usize = 0;
    while k < l.len()
        invariant
            k <= l@.len(),
            forall|j: int| 0 <= j < k ==> !char_whitespace(l@[j]),
        decreases l@.len() - k,
    {
        if is_whitespace(l[k]) {
            return l;
        }
        k = k + 1;
    }
    let mut head = slice_vec(&l, 0, MAX_LABEL - 1);
    push_all(&mut head, &lit("…"));
    head
}

/// An image: a link to it, or with `inline` the image itself; nothing for
/// a target that is not `http(s)`. Images are not fetched unless asked for:
/// selecting a mod should not send a request to an arbitrary host.
pub open spec fn image_md(url: Seq<char>, inline: bool) -> Seq<char> {
    if !is_safe(url) {
        Seq::empty()
    } else if inline {
        "![]("@ + url + ")"@
    } else {
        "[🖼 изображение]("@ + url + ")"@
    }
}

fn emit_image(url: &[char], inline: bool) -> (r: Vec<char>)
    ensures
        r@ == image_md(url@, inline),
{
    if !is_safe_url(url) {
        return Vec::new();
    }
    let mut out = if inline { lit("![](") } else { lit("[🖼 изображение](") };
    push_all(&mut out, url);
    push_all(&mut out, &lit(")"));
    out
}

// ── Line breaks ─────────────────────────────────────────────────────────────

/// A line that is a block of its own (heading, table row, rule, code fence,
/// quote, list item) and breaks by itself.
pub open spec fn hard_break(line: Seq<char>) -> bool {
    let t = trim_start(line);
    let numbered = match first_occurrence(t, ". "@) {
        Some(p) => p > 0 && all_digits(t.take(p)),
        None => false,
    };
    let list_item = has_prefix(t, "- "@) || numbered;
    !(has_prefix(t, "#"@) || has_prefix(t, "|"@) || has_prefix(t, "---"@) || has_prefix(t, "```"@) || has_prefix(t, ">"@)
        || list_item)
}

fn needs_hard_break(line: &[char]) -> (r: bool)
    ensures
        r == hard_break(line@),
{
    let t = trim_start_chars(line);
    let numbered = match find(&t, &lit(". ")) {
        Some(p) => {
            proof {
                lemma_first_occurrence_valid(t@, ". "@);
            }
            let mut ok = p > 0;
            let mut k: usize = 0;
            while k < p
                invariant
                    p <= t@.len(),
                    k <= p,
                    ok == (p > 0 && forall|j: int| 0 <= j < k ==> crate::text::is_ascii_digit(t@[j])),
                decreases p - k,
            {
                ok = ok && '0' <= t[k] && t[k] <= '9';
                k = k + 1;
            }
            proof {
                let h = t@.take(p as int);
                if ok {
                    assert forall|j: int| 0 <= j < h.len() implies crate::text::is_ascii_digit(#[trigger] h[j]) by {
                        assert(h[j] == t@[j]);
                    }
                }
                if p > 0 && all_digits(h) {
                    assert forall|j: int| 0 <= j < p implies crate::text::is_ascii_digit(t@[j]) by {
                        assert(h[j] == t@[j]);
                    }
                }
            }
            ok
        },
        None => false,
    };
    let list_item = prefixed(&t, "- ") || numbered;
    !(prefixed(&t, "#") || prefixed(&t, "|") || prefixed(&t, "---") || prefixed(&t, "```") || prefixed(&t, ">") || list_item)
}

/// The lines from `i` on: trailing whitespace dropped, runs of blank lines
/// (outside code blocks) made one, and a hard break (two spaces) after a
/// line of text that another line of text follows.
pub open spec fn tidy_from(ls: Seq<Seq<char>>, i: int, in_code: bool, after_blank: bool) -> Seq<char>
    decreases ls.len() - i,
{
    if i < 0 || i >= ls.len() {
        Seq::empty()
    } else {
        let t = trim_end(ls[i]);
        let code = if has_prefix(trim_start(t), "```"@) { !in_code } else { in_code };
        if !code && trim(t).len() == 0 {
            (if after_blank { Seq::empty() } else { seq!['\n'] }) + tidy_from(ls, i + 1, code, true)
        } else {
            let next_text = i + 1 < ls.len() && trim(ls[i + 1]).len() > 0;
            let brk = if !code && next_text && hard_break(t) { "  "@ } else { Seq::empty() };
            t + brk + seq!['\n'] + tidy_from(ls, i + 1, code, false)
        }
    }
}

/// Line breaks made Markdown: `\r\n` read as `\n`, then [`tidy_from`] over
/// the lines, line feeds trimmed from both ends.
pub open spec fn tidied(s: Seq<char>) -> Seq<char> {
    strip_char(tidy_from(lines_of(replace_all(s, "\r\n"@, "\n"@)), 0, false, false), '\n')
}

fn tidy(s: &[char]) -> (r: Vec<char>)
    ensures
        r@ == tidied(s@),
{
    proof {
        reveal_strlit("\r\n");
    }
    let normalized = replace_chars(s, &lit("\r\n"), &lit("\n"));
    let text = string_of(&normalized);
    let lines = text_lines(text.as_str());
    let ghost ls = lines_view(lines@);
    assert(ls == lines_of(replace_all(s@, "\r\n"@, "\n"@)));
    let mut out: Vec<char> = Vec::new();
    let mut in_code = false;
    let mut after_blank = false;
    let mut i: usize = 0;
    while i < lines.len()
        invariant
            ls == lines_view(lines@),
            i <= lines@.len(),
            out@ + tidy_from(ls, i as int, in_code, after_blank) == tidy_from(ls, 0, false, false),
        decreases lines@.len() - i,
    {
        assert(ls[i as int] == lines@[i as int]@);
        let t = trim_end_chars(&lines[i]);
        if prefixed(&trim_start_chars(&t), "```") {
            in_code = !in_code;
        }
        if !in_code && trim_chars(&t).len() == 0 {
            if !after_blank {
                out.push('\n');
            }
            after_blank = true;
            i = i + 1;
            continue;
        }
        let ghost before = out@;
        push_all(&mut out, &t);
        let next_text = i + 1 < lines.len() && trim_chars(&lines[i + 1]).len() > 0;
        proof {
            if i + 1 < lines@.len() {
                assert(ls[i + 1] == lines@[i + 1]@);
            }
        }
        if !in_code && next_text && needs_hard_break(&t) {
            push_all(&mut out, &lit("  "));
        }
        out.push('\n');
        after_blank = false;
        i = i + 1;
    }
    strip_char_chars(&out, '\n')
}

// ── Tables: layout of the rows ─────────────────────────────────────────────

/// Most cells in a row.
pub open spec fn max_cells(rows: Seq<Seq<Seq<char>>>) -> nat
    decreases rows.len(),
{
    if rows.len() == 0 {
        0
    } else {
        let m = max_cells(rows.drop_last());
        if rows.last().len() > m { rows.last().len() } else { m }
    }
}

/// Visible width of a row: the visible text of each cell and three
/// characters of border per cell.
pub open spec fn row_width(row: Seq<Seq<char>>) -> int
    decreases row.len(),
{
    if row.len() == 0 {
        0
    } else {
        row_width(row.drop_last()) + flat(row.last()).len() + 3
    }
}

/// Some row is wider than [`MAX_TABLE_WIDTH`].
pub open spec fn any_wide(rows: Seq<Seq<Seq<char>>>) -> bool
    decreases rows.len(),
{
    rows.len() > 0 && (any_wide(rows.drop_last()) || row_width(rows.last()) > MAX_TABLE_WIDTH)
}

/// The non-empty cells of a row.
pub open spec fn nonempty(row: Seq<Seq<char>>) -> Seq<Seq<char>>
    decreases row.len(),
{
    if row.len() == 0 {
        Seq::empty()
    } else {
        nonempty(row.drop_last()) + if row.last().len() > 0 { seq![row.last()] } else { Seq::empty() }
    }
}

/// Parts joined with `sep` between them.
pub open spec fn joined_with(parts: Seq<Seq<char>>, sep: Seq<char>) -> Seq<char>
    decreases parts.len(),
{
    if parts.len() == 0 {
        Seq::empty()
    } else if parts.len() == 1 {
        parts[0]
    } else {
        joined_with(parts.drop_last(), sep) + sep + parts.last()
    }
}

/// A row laid out as a line: its non-empty cells joined with ` · `, escaped
/// bars restored; nothing for a row without text.
pub open spec fn row_line(row: Seq<Seq<char>>) -> Seq<char> {
    let cells = nonempty(row);
    if cells.len() == 0 {
        Seq::empty()
    } else {
        replace_all(joined_with(cells, " · "@), "\\|"@, "|"@) + seq!['\n']
    }
}

pub open spec fn lines_md(rows: Seq<Seq<Seq<char>>>) -> Seq<char>
    decreases rows.len(),
{
    if rows.len() == 0 {
        Seq::empty()
    } else {
        lines_md(rows.drop_last()) + row_line(rows.last())
    }
}

/// The first `w` cells of a row, missing ones empty, each followed by ` | `.
pub open spec fn padded(row: Seq<Seq<char>>, w: nat) -> Seq<char>
    decreases w,
{
    if w == 0 {
        Seq::empty()
    } else {
        padded(row, (w - 1) as nat) + (if w - 1 < row.len() { row[w - 1] } else { Seq::empty() }) + " | "@
    }
}

pub open spec fn dashes(w: nat) -> Seq<char>
    decreases w,
{
    if w == 0 {
        Seq::empty()
    } else {
        dashes((w - 1) as nat) + " --- |"@
    }
}

/// A Markdown table row of width `w`; the first row is the header and is
/// followed by the separator line.
pub open spec fn grid_row(row: Seq<Seq<char>>, w: nat, first: bool) -> Seq<char> {
    "| "@ + padded(row, w) + seq!['\n'] + if first { seq!['|'] + dashes(w) + seq!['\n'] } else { Seq::empty() }
}

pub open spec fn grid_md(rows: Seq<Seq<Seq<char>>>, w: nat) -> Seq<char>
    decreases rows.len(),
{
    if rows.len() == 0 {
        Seq::empty()
    } else {
        grid_md(rows.drop_last(), w) + grid_row(rows.last(), w, rows.len() == 1)
    }
}

/// The rows as Markdown: nothing for no rows; lines where images are shown,
/// where there are more than [`MAX_TABLE_COLUMNS`] columns or a row is too
/// wide (a table does not wrap in the panel); else a table.
pub open spec fn rows_md(rows: Seq<Seq<Seq<char>>>, img: bool) -> Seq<char> {
    if rows.len() == 0 {
        Seq::empty()
    } else if img || max_cells(rows) > MAX_TABLE_COLUMNS || any_wide(rows) {
        seq!['\n'] + lines_md(rows) + seq!['\n']
    } else {
        seq!['\n'] + grid_md(rows, max_cells(rows)) + seq!['\n']
    }
}

// ── The recursive conversion ────────────────────────────────────────────────

/// The description text `s` as Markdown: markup at a `[` or `<` replaced
/// by what it stands for, every other character kept.
pub open spec fn converted(s: Seq<char>, img: bool) -> Seq<char>
    decreases s.len(), 2int,
{
    if s.len() == 0 {
        Seq::empty()
    } else {
        let m = if s[0] == '[' { bbcode_at(s, img) } else if s[0] == '<' { unity_at(s) } else { None };
        match m {
            Some((o, n)) => if 0 < n <= s.len() {
                o + converted(s.skip(n), img)
            } else {
                seq![s[0]] + converted(s.drop_first(), img)
            },
            None => seq![s[0]] + converted(s.drop_first(), img),
        }
    }
}

/// A tag name whose markup has a closing tag.
pub open spec fn paired(name: Seq<char>) -> bool {
    name == "b"@ || name == "i"@ || name == "u"@ || name == "strike"@ || name == "s"@ || name == "h1"@ || name == "h2"@
        || name == "h3"@ || name == "url"@ || name == "img"@ || name == "list"@ || name == "olist"@ || name == "table"@
        || name == "code"@ || name == "noparse"@ || name == "quote"@ || name == "spoiler"@
}

/// The heading marks for `h1` to `h3`.
pub open spec fn hashes(name: Seq<char>) -> Seq<char> {
    if name == "h1"@ { "#"@ } else if name == "h3"@ { "###"@ } else { "##"@ }
}

/// The Markdown for the BBCode element `name` with argument `arg` around
/// `inner`.
pub open spec fn element_md(name: Seq<char>, arg: Option<Seq<char>>, inner: Seq<char>, img: bool) -> Seq<char>
    decreases inner.len(), 5int,
{
    proof {
        lemma_trim_len(inner);
        lemma_strip_char_len(inner, '\n');
    }
    if name == "b"@ {
        "**"@ + converted(strip_char(inner, '\n'), img) + "**"@
    } else if name == "i"@ || name == "u"@ {
        "*"@ + converted(strip_char(inner, '\n'), img) + "*"@
    } else if name == "strike"@ || name == "s"@ {
        "~~"@ + converted(strip_char(inner, '\n'), img) + "~~"@
    } else if name == "h1"@ || name == "h2"@ || name == "h3"@ {
        "\n\n"@ + hashes(name) + " "@ + converted(trim(inner), img) + "\n\n"@
    } else if name == "url"@ {
        link_md(arg, inner)
    } else if name == "img"@ {
        image_md(trim(match arg { Some(a) => a, None => inner }), img)
    } else if name == "list"@ || name == "olist"@ {
        list_md(inner, name == "olist"@, img)
    } else if name == "table"@ {
        rows_md(rows_of(inner, img), img)
    } else if name == "code"@ {
        "\n\n```\n"@ + strip_char(inner, '\n') + "\n```\n\n"@
    } else if name == "noparse"@ {
        inner
    } else {
        "\n\n"@ + (if name == "spoiler"@ { "> 🔒 "@ } else { "> "@ }) + replace_all(trim(converted(trim(inner), img)), "\n"@, "\n> "@)
            + "\n\n"@
    }
}

/// BBCode at the start of `s`: its Markdown and its length. No markup for
/// an unknown tag, or a paired one that is never closed.
pub open spec fn bbcode_at(s: Seq<char>, img: bool) -> Option<(Seq<char>, int)>
    decreases s.len(), 1int,
{
    proof {
        lemma_char_pos(s, ']');
    }
    match tag_parts(s) {
        None => None,
        Some((name, arg, tl)) => if name == "hr"@ {
            Some(("\n\n---\n\n"@, tl))
        } else if name == "*"@ {
            Some(("\n- "@, tl))
        } else if !paired(name) {
            None
        } else {
            match close_split(s.skip(tl), name) {
                None => None,
                Some((inner, n)) => {
                    proof {
                        lemma_close_split(s.skip(tl), name);
                    }
                    Some((element_md(name, arg, inner, img), tl + n))
                },
            }
        },
    }
}

/// A link: its text made plain and shortened (the target, shortened, where
/// there is no text); a link only to an `http(s)` target, else the text
/// alone.
pub open spec fn link_md(target: Option<Seq<char>>, text: Seq<char>) -> Seq<char>
    decreases text.len(), 3int,
{
    proof {
        lemma_trim_len(text);
    }
    let url = match target {
        Some(t) => trim(t),
        None => trim(text),
    };
    let label0 = shortened(flat(converted(trim(text), false)));
    let label = if label0.len() == 0 { shortened(url) } else { label0 };
    if is_safe(url) {
        seq!['['] + trim(label) + "]("@ + url + seq![')']
    } else {
        trim(label)
    }
}

pub open spec fn star() -> Seq<char> {
    seq!['[', '*', ']']
}

/// The list items from `rest` on (the text after a `[*]`), the `i`-th
/// first: each on its own line, numbered by its place when `ordered`;
/// items without text are left out (and keep their number).
pub open spec fn list_items(rest: Seq<char>, i: nat, ordered: bool, img: bool) -> Seq<char>
    decreases rest.len(), 3int,
{
    proof {
        lemma_first_occurrence_valid(rest, star());
    }
    let found = first_occurrence(rest, star());
    let item = match found {
        Some(j) => rest.take(j),
        None => rest,
    };
    proof {
        lemma_trim_len(item);
    }
    let text = trim(converted(trim(item), img));
    let line = if text.len() == 0 {
        Seq::empty()
    } else {
        (if ordered { decimal_text(i + 1) + ". "@ } else { "- "@ }) + swap_char(text, '\n', ' ') + seq!['\n']
    };
    match found {
        Some(j) => line + list_items(rest.skip(j + 3), i + 1, ordered, img),
        None => line,
    }
}

pub open spec fn list_md(inner: Seq<char>, ordered: bool, img: bool) -> Seq<char>
    decreases inner.len(), 3int,
{
    proof {
        lemma_first_occurrence_valid(inner, star());
    }
    seq!['\n'] + match first_occurrence(inner, star()) {
        Some(j) => list_items(inner.skip(j + 3), 0, ordered, img),
        None => Seq::empty(),
    } + seq!['\n']
}

pub open spec fn tr_open() -> Seq<char> {
    seq!['[', 't', 'r', ']']
}

pub open spec fn th_open() -> Seq<char> {
    seq!['[', 't', 'h', ']']
}

pub open spec fn td_open() -> Seq<char> {
    seq!['[', 't', 'd', ']']
}

/// The text of a cell: one line, bars escaped.
pub open spec fn cell_text(cell: Seq<char>, img: bool) -> Seq<char>
    decreases cell.len(), 3int,
{
    proof {
        lemma_trim_len(cell);
    }
    replace_all(swap_char(trim(converted(trim(cell), img)), '\n', ' '), "|"@, "\\|"@)
}

/// The first `[th]…[/th]` or `[td]…[/td]` of `rest`, whichever opens
/// first: the cell's text and the length read up to its end.
#[verifier::opaque]
pub open spec fn cell_step(rest: Seq<char>, img: bool) -> Option<(Seq<char>, int)>
    decreases rest.len(), 3int,
{
    let l = ascii_lower(rest);
    proof {
        lemma_first_occurrence_valid(l, th_open());
        lemma_first_occurrence_valid(l, td_open());
    }
    let pick: Option<(int, Seq<char>)> = match (first_occurrence(l, th_open()), first_occurrence(l, td_open())) {
        (Some(a), Some(b)) => if a < b { Some((a, seq!['t', 'h'])) } else { Some((b, seq!['t', 'd'])) },
        (Some(a), None) => Some((a, seq!['t', 'h'])),
        (None, Some(b)) => Some((b, seq!['t', 'd'])),
        (None, None) => None,
    };
    match pick {
        None => None,
        Some((at, tag)) => match close_split(rest.skip(at + 4), tag) {
            None => None,
            Some((cell, used)) => {
                proof {
                    lemma_close_split(rest.skip(at + 4), tag);
                }
                Some((cell_text(cell, img), at + 4 + used))
            },
        },
    }
}

/// The cells of a row, until one is missing or not closed.
pub open spec fn cells_of(rest: Seq<char>, img: bool) -> Seq<Seq<char>>
    decreases rest.len(), 4int,
{
    match cell_step(rest, img) {
        Some((cell, n)) => if 0 < n <= rest.len() {
            seq![cell] + cells_of(rest.skip(n), img)
        } else {
            Seq::empty()
        },
        None => Seq::empty(),
    }
}

/// The next `[tr]…[/tr]` in `s`: its cells and the length read up to its
/// end.
#[verifier::opaque]
pub open spec fn row_at(s: Seq<char>, img: bool) -> Option<(Seq<Seq<char>>, int)>
    decreases s.len(), 3int,
{
    proof {
        lemma_first_occurrence_valid(ascii_lower(s), tr_open());
    }
    match first_occurrence(ascii_lower(s), tr_open()) {
        None => None,
        Some(start) => match close_split(s.skip(start + 4), seq!['t', 'r']) {
            None => None,
            Some((row, len)) => {
                proof {
                    lemma_close_split(s.skip(start + 4), seq!['t', 'r']);
                }
                Some((cells_of(row, img), start + 4 + len))
            },
        },
    }
}

/// The rows of a table body, in order.
pub open spec fn rows_of(rest: Seq<char>, img: bool) -> Seq<Seq<Seq<char>>>
    decreases rest.len(), 4int,
{
    match row_at(rest, img) {
        Some((cells, n)) => if 0 < n <= rest.len() {
            seq![cells] + rows_of(rest.skip(n), img)
        } else {
            Seq::empty()
        },
        None => Seq::empty(),
    }
}

// ── Tables: exec ────────────────────────────────────────────────────────────

/// The characters of the rows of a table.
pub open spec fn grid_view(rows: Seq<Vec<Vec<char>>>) -> Seq<Seq<Seq<char>>> {
    rows.map_values(|r: Vec<Vec<char>>| lines_view(r@))
}

fn chars4(a: char, b: char, c: char, d: char) -> (r: Vec<char>)
    ensures
        r@ == seq![a, b, c, d],
{
    let mut r: Vec<char> = Vec::new();
    r.push(a);
    r.push(b);
    r.push(c);
    r.push(d);
    r
}

fn chars2(a: char, b: char) -> (r: Vec<char>)
    ensures
        r@ == seq![a, b],
{
    let mut r: Vec<char> = Vec::new();
    r.push(a);
    r.push(b);
    r
}

/// Whether a row is wider than [`MAX_TABLE_WIDTH`].
fn row_too_wide(row: &Vec<Vec<char>>) -> (r: bool)
    ensures
        r == (row_width(lines_view(row@)) > MAX_TABLE_WIDTH),
{
    let ghost v = lines_view(row@);
    let mut acc: usize = 0;
    for k in 0..row.len()
        invariant
            v == lines_view(row@),
            acc == if row_width(v.take(k as int)) > MAX_TABLE_WIDTH { MAX_TABLE_WIDTH + 1 } else { row_width(v.take(k as int)) },
    {
        assert(v.take(k + 1).drop_last() == v.take(k as int));
        assert(v[k as int] == row@[k as int]@);
        if acc <= MAX_TABLE_WIDTH {
            let vis = flatten_links(&row[k]).len();
            acc = if vis > MAX_TABLE_WIDTH {
                MAX_TABLE_WIDTH + 1
            } else if acc + vis + 3 > MAX_TABLE_WIDTH {
                MAX_TABLE_WIDTH + 1
            } else {
                acc + vis + 3
            };
        }
    }
    assert(v.take(row@.len() as int) == v);
    acc > MAX_TABLE_WIDTH
}

/// A row laid out as a line.
fn row_line_of(row: &Vec<Vec<char>>) -> (r: Vec<char>)
    ensures
        r@ == row_line(lines_view(row@)),
{
    let ghost v = lines_view(row@);
    let mut cells: Vec<Vec<char>> = Vec::new();
    for k in 0..row.len()
        invariant
            v == lines_view(row@),
            lines_view(cells@) == nonempty(v.take(k as int)),
    {
        assert(v.take(k + 1).drop_last() == v.take(k as int));
        assert(v[k as int] == row@[k as int]@);
        if row[k].len() > 0 {
            let ghost before = lines_view(cells@);
            let c = slice_vec(&row[k], 0, row[k].len());
            assert(c@ =~= v[k as int]);
            cells.push(c);
            assert(lines_view(cells@) =~= before.push(v[k as int]));
        } else {
            assert(nonempty(v.take(k + 1)) == nonempty(v.take(k as int)) + Seq::<Seq<char>>::empty());
        }
    }
    assert(v.take(row@.len() as int) == v);
    if cells.len() == 0 {
        return Vec::new();
    }
    let ghost cv = lines_view(cells@);
    let sep = lit(" · ");
    let mut joined = slice_vec(&cells[0], 0, cells[0].len());
    assert(cv.take(1) == seq![cv[0]]);
    for k in 1..cells.len()
        invariant
            cv == lines_view(cells@),
            cells@.len() >= 1,
            sep@ == " · "@,
            joined@ == joined_with(cv.take(k as int), " · "@),
    {
        assert(cv.take(k + 1).drop_last() == cv.take(k as int));
        assert(cv[k as int] == cells@[k as int]@);
        push_all(&mut joined, &sep);
        push_all(&mut joined, &cells[k]);
    }
    assert(cv.take(cells@.len() as int) == cv);
    proof {
        reveal_strlit("\\|");
    }
    let mut r = replace_chars(&joined, &lit("\\|"), &lit("|"));
    r.push('\n');
    r
}

/// A row of a Markdown table.
fn grid_row_of(row: &Vec<Vec<char>>, w: usize, first: bool) -> (r: Vec<char>)
    ensures
        r@ == grid_row(lines_view(row@), w as nat, first),
{
    let ghost v = lines_view(row@);
    let mut p: Vec<char> = Vec::new();
    for col in 0..w
        invariant
            v == lines_view(row@),
            p@ == padded(v, col as nat),
    {
        if col < row.len() {
            assert(v[col as int] == row@[col as int]@);
            push_all(&mut p, &row[col]);
        }
        push_all(&mut p, &lit(" | "));
    }
    let mut out = lit("| ");
    push_all(&mut out, &p);
    out.push('\n');
    if first {
        let mut d: Vec<char> = Vec::new();
        for col in 0..w
            invariant
                d@ == dashes(col as nat),
        {
            push_all(&mut d, &lit(" --- |"));
        }
        out.push('|');
        push_all(&mut out, &d);
        out.push('\n');
    }
    out
}

/// The rows laid out, as [`rows_md`] says.
#[verifier::spinoff_prover]
#[verifier::rlimit(50)]
fn rows_layout(rows: &Vec<Vec<Vec<char>>>, img: bool) -> (r: Vec<char>)
    ensures
        r@ == rows_md(grid_view(rows@), img),
{
    if rows.len() == 0 {
        return Vec::new();
    }
    let ghost g = grid_view(rows@);
    let mut width: usize = 0;
    let mut wide = false;
    for k in 0..rows.len()
        invariant
            g == grid_view(rows@),
            width == max_cells(g.take(k as int)),
            wide == any_wide(g.take(k as int)),
    {
        assert(g.take(k + 1).drop_last() == g.take(k as int));
        assert(g[k as int] == lines_view(rows@[k as int]@));
        if rows[k].len() > width {
            width = rows[k].len();
        }
        if !wide {
            wide = row_too_wide(&rows[k]);
        }
    }
    assert(g.take(rows@.len() as int) == g);
    let mut out: Vec<char> = Vec::new();
    out.push('\n');
    if img || width > MAX_TABLE_COLUMNS || wide {
        for k in 0..rows.len()
            invariant
                g == grid_view(rows@),
                out@ == seq!['\n'] + lines_md(g.take(k as int)),
        {
            assert(g.take(k + 1).drop_last() == g.take(k as int));
            assert(g[k as int] == lines_view(rows@[k as int]@));
            push_all(&mut out, &row_line_of(&rows[k]));
        }
    } else {
        for k in 0..rows.len()
            invariant
                g == grid_view(rows@),
                width == max_cells(g),
                out@ == seq!['\n'] + grid_md(g.take(k as int), width as nat),
        {
            assert(g.take(k + 1).drop_last() == g.take(k as int));
            assert(g[k as int] == lines_view(rows@[k as int]@));
            push_all(&mut out, &grid_row_of(&rows[k], width, k == 0));
        }
    }
    out.push('\n');
    out
}

// ── The recursive conversion: exec ──────────────────────────────────────────

#[verifier::spinoff_prover]
fn convert(s: &[char], img: bool) -> (r: Vec<char>)
    ensures
        r@ == converted(s@, img),
    decreases s@.len(), 2int,
{
    let mut out: Vec<char> = Vec::new();
    let mut i: usize = 0;
    assert(s@.skip(0) == s@);
    while i < s.len()
        invariant
            i <= s@.len(),
            out@ + converted(s@.skip(i as int), img) == converted(s@, img),
        decreases s@.len() - i,
    {
        let rest = vstd::slice::slice_subrange(s, i, s.len());
        assert(rest@ == s@.skip(i as int));
        let c = s[i];
        let m = if c == '[' {
            bbcode(rest, img)
        } else if c == '<' {
            unity(rest)
        } else {
            None
        };
        let ghost before = out@;
        match m {
            Some((o, n)) => {
                push_all(&mut out, &o);
                assert(rest@.skip(n as int) == s@.skip(i + n));
                i = i + n;
            },
            None => {
                out.push(c);
                assert(rest@.drop_first() == s@.skip(i + 1));
                i = i + 1;
            },
        }
    }
    out
}

fn is_paired(name: &[char]) -> (r: bool)
    ensures
        r == paired(name@),
{
    is_word(name, "b") || is_word(name, "i") || is_word(name, "u") || is_word(name, "strike") || is_word(name, "s")
        || is_word(name, "h1") || is_word(name, "h2") || is_word(name, "h3") || is_word(name, "url") || is_word(name, "img")
        || is_word(name, "list") || is_word(name, "olist") || is_word(name, "table") || is_word(name, "code")
        || is_word(name, "noparse") || is_word(name, "quote") || is_word(name, "spoiler")
}

#[verifier::spinoff_prover]
fn bbcode(s: &[char], img: bool) -> (r: Option<(Vec<char>, usize)>)
    requires
        s@.len() > 0,
        s@[0] == '[',
    ensures
        match r {
            Some((o, n)) => bbcode_at(s@, img) == Some((o@, n as int)) && 0 < n <= s@.len(),
            None => bbcode_at(s@, img).is_none(),
        },
    decreases s@.len(), 1int,
{
    let (name, arg, tl) = match tag_at(s) {
        Some(t) => t,
        None => {
            return None;
        },
    };
    if is_word(&name, "hr") {
        return Some((lit("\n\n---\n\n"), tl));
    }
    if is_word(&name, "*") {
        return Some((lit("\n- "), tl));
    }
    if !is_paired(&name) {
        return None;
    }
    let after = vstd::slice::slice_subrange(s, tl, s.len());
    assert(after@ == s@.skip(tl as int));
    match split_until_close(after, &name) {
        None => None,
        Some((inner, n)) => {
            let md = element(&name, &arg, &inner, img);
            Some((md, tl + n))
        },
    }
}

fn inline_md(inner: &[char], marker: &str, img: bool) -> (r: Vec<char>)
    ensures
        r@ == marker@ + converted(strip_char(inner@, '\n'), img) + marker@,
    decreases inner@.len(), 3int,
{
    proof {
        lemma_strip_char_len(inner@, '\n');
    }
    let mut out = lit(marker);
    push_all(&mut out, &convert(&strip_char_chars(inner, '\n'), img));
    push_all(&mut out, &lit(marker));
    out
}

#[verifier::spinoff_prover]
fn element(name: &[char], arg: &Option<Vec<char>>, inner: &[char], img: bool) -> (r: Vec<char>)
    ensures
        r@ == element_md(name@, arg_view(*arg), inner@, img),
    decreases inner@.len(), 6int,
{
    proof {
        lemma_trim_len(inner@);
        lemma_strip_char_len(inner@, '\n');
    }
    if is_word(name, "b") {
        inline_md(inner, "**", img)
    } else if is_word(name, "i") || is_word(name, "u") {
        inline_md(inner, "*", img)
    } else if is_word(name, "strike") || is_word(name, "s") {
        inline_md(inner, "~~", img)
    } else if is_word(name, "h1") || is_word(name, "h2") || is_word(name, "h3") {
        let hashes = if is_word(name, "h1") {
            lit("#")
        } else if is_word(name, "h3") {
            lit("###")
        } else {
            lit("##")
        };
        let mut out = lit("\n\n");
        push_all(&mut out, &hashes);
        push_all(&mut out, &lit(" "));
        push_all(&mut out, &convert(&trim_chars(inner), img));
        push_all(&mut out, &lit("\n\n"));
        out
    } else if is_word(name, "url") {
        emit_link(arg, inner)
    } else if is_word(name, "img") {
        let url = match arg {
            Some(a) => trim_chars(a),
            None => trim_chars(inner),
        };
        emit_image(&url, img)
    } else if is_word(name, "list") || is_word(name, "olist") {
        emit_list(inner, is_word(name, "olist"), img)
    } else if is_word(name, "table") {
        emit_table(inner, img)
    } else if is_word(name, "code") {
        let mut out = lit("\n\n```\n");
        push_all(&mut out, &strip_char_chars(inner, '\n'));
        push_all(&mut out, &lit("\n```\n\n"));
        out
    } else if is_word(name, "noparse") {
        slice_vec(inner, 0, inner.len())
    } else {
        let body = convert(&trim_chars(inner), img);
        proof {
            reveal_strlit("\n");
        }
        let quoted = replace_chars(&trim_chars(&body), &lit("\n"), &lit("\n> "));
        let mut out = lit("\n\n");
        if is_word(name, "spoiler") {
            push_all(&mut out, &lit("> 🔒 "));
        } else {
            push_all(&mut out, &lit("> "));
        }
        push_all(&mut out, &quoted);
        push_all(&mut out, &lit("\n\n"));
        out
    }
}

fn emit_link(target: &Option<Vec<char>>, text: &[char]) -> (r: Vec<char>)
    ensures
        r@ == link_md(arg_view(*target), text@),
    decreases text@.len(), 3int,
{
    proof {
        lemma_trim_len(text@);
    }
    let url = match target {
        Some(a) => trim_chars(a),
        None => trim_chars(text),
    };
    let label0 = shorten(&flatten_links(&convert(&trim_chars(text), false)));
    let label = if label0.len() == 0 { shorten(&url) } else { label0 };
    let lt = trim_chars(&label);
    if is_safe_url(&url) {
        let mut out: Vec<char> = Vec::new();
        out.push('[');
        push_all(&mut out, &lt);
        push_all(&mut out, &lit("]("));
        push_all(&mut out, &url);
        out.push(')');
        out
    } else {
        lt
    }
}

#[verifier::spinoff_prover]
#[verifier::rlimit(50)]
fn emit_list(inner: &[char], ordered: bool, img: bool) -> (r: Vec<char>)
    ensures
        r@ == list_md(inner@, ordered, img),
    decreases inner@.len(), 3int,
{
    let st = chars2('[', '*');
    let mut st = st;
    st.push(']');
    assert(st@ == star());
    let mut out: Vec<char> = Vec::new();
    out.push('\n');
    proof {
        lemma_first_occurrence_valid(inner@, star());
    }
    match find(inner, &st) {
        None => {},
        Some(j0) => {
            assert(occurs_at(inner@, st@, j0 as int));
            let total = inner.len();
            assert(j0 + 3 <= total);
            let ghost items = list_items(inner@.skip(j0 + 3), 0, ordered, img);
            let mut pos: usize = j0 + 3;
            let mut i: usize = 0;
            let mut done = false;
            while !done
                invariant
                    st@ == star(),
                    j0 + 3 <= pos <= inner@.len(),
                    3 * i <= pos,
                    !done ==> seq!['\n'] + items == out@ + list_items(inner@.skip(pos as int), i as nat, ordered, img),
                    done ==> out@ == seq!['\n'] + items,
                decreases inner@.len() - pos + if done { 0int } else { 1int },
            {
                let rest = vstd::slice::slice_subrange(inner, pos, inner.len());
                assert(rest@ == inner@.skip(pos as int));
                proof {
                    lemma_first_occurrence_valid(rest@, star());
                }
                let found = find(rest, &st);
                let item = match found {
                    Some(j) => slice_vec(rest, 0, j),
                    None => slice_vec(rest, 0, rest.len()),
                };
                proof {
                    lemma_trim_len(item@);
                    assert(rest@.take(rest@.len() as int) == rest@);
                }
                let text = trim_chars(&convert(&trim_chars(&item), img));
                let ghost before = out@;
                if text.len() > 0 {
                    if ordered {
                        push_all(&mut out, &decimal_chars((i + 1) as u64));
                        push_all(&mut out, &lit(". "));
                    } else {
                        push_all(&mut out, &lit("- "));
                    }
                    push_all(&mut out, &swap_char_chars(&text, '\n', ' '));
                    out.push('\n');
                }
                match found {
                    Some(j) => {
                        assert(rest@.skip(j + 3) == inner@.skip(pos + j + 3));
                        pos = pos + j + 3;
                        i = i + 1;
                    },
                    None => {
                        done = true;
                    },
                }
            }
        },
    }
    out.push('\n');
    out
}

/// The text of one table cell.
fn cell_md(cell: &[char], img: bool) -> (r: Vec<char>)
    ensures
        r@ == cell_text(cell@, img),
    decreases cell@.len(), 3int,
{
    proof {
        lemma_trim_len(cell@);
        reveal_strlit("|");
    }
    let t = trim_chars(&convert(&trim_chars(cell), img));
    replace_chars(&swap_char_chars(&t, '\n', ' '), &lit("|"), &lit("\\|"))
}

#[verifier::spinoff_prover]
#[verifier::rlimit(50)]
fn next_cell(rest: &[char], img: bool) -> (r: Option<(Vec<char>, usize)>)
    ensures
        match r {
            Some((c, n)) => cell_step(rest@, img) == Some((c@, n as int)) && 0 < n <= rest@.len(),
            None => cell_step(rest@, img).is_none(),
        },
    decreases rest@.len(), 3int,
{
    reveal(cell_step);
    let tho = chars4('[', 't', 'h', ']');
    let tdo = chars4('[', 't', 'd', ']');
    let l = to_ascii_lower(rest);
    proof {
        lemma_first_occurrence_valid(l@, th_open());
        lemma_first_occurrence_valid(l@, td_open());
    }
    let th = find(&l, &tho);
    let td = find(&l, &tdo);
    let pick: Option<(usize, bool)> = match (th, td) {
        (Some(a), Some(b)) => if a < b { Some((a, true)) } else { Some((b, false)) },
        (Some(a), None) => Some((a, true)),
        (None, Some(b)) => Some((b, false)),
        (None, None) => None,
    };
    match pick {
        None => None,
        Some((at, is_th)) => {
            let total = rest.len();
            assert(at + 4 <= total);
            let after = vstd::slice::slice_subrange(rest, at + 4, rest.len());
            assert(after@ == rest@.skip(at + 4));
            let tag = if is_th { chars2('t', 'h') } else { chars2('t', 'd') };
            match split_until_close(after, &tag) {
                None => None,
                Some((cell, used)) => Some((cell_md(&cell, img), at + 4 + used)),
            }
        },
    }
}

#[verifier::spinoff_prover]
#[verifier::rlimit(50)]
fn row_cells(row: &[char], img: bool) -> (r: Vec<Vec<char>>)
    ensures
        lines_view(r@) == cells_of(row@, img),
    decreases row@.len(), 4int,
{
    let mut cells: Vec<Vec<char>> = Vec::new();
    let mut pos: usize = 0;
    let mut done = false;
    assert(row@.skip(0) == row@);
    while !done
        invariant
            pos <= row@.len(),
            !done ==> lines_view(cells@) + cells_of(row@.skip(pos as int), img) == cells_of(row@, img),
            done ==> lines_view(cells@) == cells_of(row@, img),
        decreases row@.len() - pos + if done { 0int } else { 1int },
    {
        let rest = vstd::slice::slice_subrange(row, pos, row.len());
        assert(rest@ == row@.skip(pos as int));
        match next_cell(rest, img) {
            Some((c, n)) => {
                let ghost before = lines_view(cells@);
                cells.push(c);
                assert(lines_view(cells@) =~= before.push(c@));
                assert(rest@.skip(n as int) == row@.skip(pos + n));
                pos = pos + n;
            },
            None => {
                done = true;
            },
        }
    }
    cells
}

fn next_row(s: &[char], img: bool) -> (r: Option<(Vec<Vec<char>>, usize)>)
    ensures
        match r {
            Some((cells, n)) => row_at(s@, img) == Some((lines_view(cells@), n as int)) && 0 < n <= s@.len(),
            None => row_at(s@, img).is_none(),
        },
    decreases s@.len(), 3int,
{
    reveal(row_at);
    let lower = to_ascii_lower(s);
    let tro = chars4('[', 't', 'r', ']');
    proof {
        lemma_first_occurrence_valid(lower@, tr_open());
    }
    let start = match find(&lower, &tro) {
        Some(x) => x,
        None => {
            return None;
        },
    };
    assert(occurs_at(lower@, tro@, start as int));
    let total = s.len();
    assert(start + 4 <= total);
    let body = vstd::slice::slice_subrange(s, start + 4, s.len());
    assert(body@ == s@.skip(start + 4));
    match split_until_close(body, &chars2('t', 'r')) {
        None => None,
        Some((row, len)) => {
            let cells = row_cells(&row, img);
            Some((cells, start + 4 + len))
        },
    }
}

#[verifier::spinoff_prover]
#[verifier::rlimit(50)]
fn emit_table(inner: &[char], img: bool) -> (r: Vec<char>)
    ensures
        r@ == rows_md(rows_of(inner@, img), img),
    decreases inner@.len(), 5int,
{
    let mut rows: Vec<Vec<Vec<char>>> = Vec::new();
    let mut pos: usize = 0;
    let mut done = false;
    assert(inner@.skip(0) == inner@);
    while !done
        invariant
            pos <= inner@.len(),
            !done ==> grid_view(rows@) + rows_of(inner@.skip(pos as int), img) == rows_of(inner@, img),
            done ==> grid_view(rows@) == rows_of(inner@, img),
        decreases inner@.len() - pos + if done { 0int } else { 1int },
    {
        let rest = vstd::slice::slice_subrange(inner, pos, inner.len());
        assert(rest@ == inner@.skip(pos as int));
        match next_row(rest, img) {
            Some((cells, n)) => {
                let ghost before = grid_view(rows@);
                rows.push(cells);
                assert(grid_view(rows@) == before + seq![lines_view(cells@)]);
                assert(rest@.skip(n as int) == inner@.skip(pos + n));
                pos = pos + n;
            },
            None => {
                done = true;
            },
        }
    }
    rows_layout(&rows, img)
}

/// Text without markup, no `[` and no `<` in it, passes through the
/// conversion unchanged.
pub proof fn law_plain_text_is_kept(s: Seq<char>, img: bool)
    requires
        !s.contains('['),
        !s.contains('<'),
    ensures
        converted(s, img) == s,
    decreases s.len(),
{
    if s.len() > 0 {
        let d = s.drop_first();
        assert(s[0] != '[' && s[0] != '<') by {
            if s[0] == '[' || s[0] == '<' {
                assert(s.contains(s[0]));
            }
        }
        assert(!d.contains('[') && !d.contains('<')) by {
            if d.contains('[') || d.contains('<') {
                let t = choose|t: int| 0 <= t < d.len() && (d[t] == '[' || d[t] == '<');
                assert(s[t + 1] == d[t]);
            }
        }
        law_plain_text_is_kept(d, img);
        assert(s =~= seq![s[0]] + d);
    }
}

// ── Entry points ────────────────────────────────────────────────────────────

/// How a description is rendered.
#[derive(Clone, Copy, PartialEq, Eq, Debug)]
pub struct Options {
    /// Show images in the description itself. Off by default: descriptions
    /// point at arbitrary hosts, and selecting a mod would send a request to
    /// them.
    pub inline_images: bool,
}

impl Default for Options {
    fn default() -> (r: Self)
        ensures
            !r.inline_images,
    {
        Options { inline_images: false }
    }
}

/// A description as Markdown: escaped line breaks read, markup converted,
/// line breaks made hard.
pub open spec fn markdown(raw: Seq<char>, img: bool) -> Seq<char> {
    tidied(converted(unescaped(raw), img))
}

/// A mod description as Markdown, images as links.
pub fn to_markdown(raw: &str) -> (r: String)
    ensures
        r@ == markdown(raw@, false),
{
    to_markdown_with(raw, Options::default())
}

/// A mod description as Markdown, rendered as `opts` asks.
pub fn to_markdown_with(raw: &str, opts: Options) -> (r: String)
    ensures
        r@ == markdown(raw@, opts.inline_images),
{
    let cs = chars_of(raw);
    let u = unescape(&cs);
    let c = convert(&u, opts.inline_images);
    string_of(&tidy(&c))
}

/// A `url` element is its link.
proof fn lemma_url_element(arg: Option<Seq<char>>, inner: Seq<char>, img: bool)
    ensures
        element_md("url"@, arg, inner, img) == link_md(arg, inner),
{
    reveal_strlit("url");
    reveal_strlit("b");
    reveal_strlit("i");
    reveal_strlit("u");
    reveal_strlit("strike");
    reveal_strlit("s");
    reveal_strlit("h1");
    reveal_strlit("h2");
    reveal_strlit("h3");
    assert("url"@.len() == 3);
    assert("b"@.len() == 1 && "i"@.len() == 1 && "u"@.len() == 1 && "s"@.len() == 1 && "strike"@.len() == 6);
    assert("h1"@.len() == 2 && "h2"@.len() == 2 && "h3"@.len() == 2);
}

/// Trimming trimmed text changes nothing.
proof fn lemma_trim_twice(s: Seq<char>)
    ensures
        trim(trim(s)) == trim(s),
{
    lemma_trim_shape(s);
    lemma_trim_of_trimmed(trim(s));
}

/// A `[url=…]` element whose target, trimmed and lowercased, starts with
/// `http://` or `https://` becomes a Markdown link to the trimmed target:
/// its text in brackets, then the target in parentheses.
pub proof fn law_web_links_are_kept(target: Seq<char>, inner: Seq<char>, img: bool)
    ensures
        has_prefix(lowercase(trim(target)), "http://"@) || has_prefix(lowercase(trim(target)), "https://"@) ==>
            exists|label: Seq<char>| #[trigger] element_md("url"@, Some(target), inner, img)
                == seq!['['] + label + "]("@ + trim(target) + seq![')'],
{
    lemma_trim_twice(target);
    lemma_url_element(Some(target), inner, img);
    let url = trim(target);
    let label0 = shortened(flat(converted(trim(inner), false)));
    let label = if label0.len() == 0 { shortened(url) } else { label0 };
    if is_safe(url) {
        assert(link_md(Some(target), inner) == seq!['['] + trim(label) + "]("@ + url + seq![')']);
    }
}

/// A `[url=…]` element whose target is no web address (its trimmed,
/// lowercased text starts neither with `http://` nor with `https://`)
/// keeps only its text: two such links with the same visible text render
/// the same, whatever their targets.
pub proof fn law_other_links_lose_their_target(t1: Seq<char>, t2: Seq<char>, inner: Seq<char>, img: bool)
    requires
        !(has_prefix(lowercase(trim(t1)), "http://"@) || has_prefix(lowercase(trim(t1)), "https://"@)),
        !(has_prefix(lowercase(trim(t2)), "http://"@) || has_prefix(lowercase(trim(t2)), "https://"@)),
        shortened(flat(converted(trim(inner), false))).len() > 0,
    ensures
        element_md("url"@, Some(t1), inner, img) == element_md("url"@, Some(t2), inner, img),
{
    lemma_trim_twice(t1);
    lemma_trim_twice(t2);
    lemma_url_element(Some(t1), inner, img);
    lemma_url_element(Some(t2), inner, img);
}

} // verus!
