//! Character-level helpers shared by the parsers and converters.

use vstd::prelude::*;
use vstd::std_specs::iter::IteratorSpec;

verus! {

broadcast use vstd::string::group_string_axioms;

/// The characters of a string slice, in order.
pub fn chars_of(s: &str) -> (r: Vec<char>)
    ensures
        r@ == s@,
{
    let mut out: Vec<char> = Vec::new();
    for c in it: s.chars()
        invariant
            out@ == it.seq().take(it.index() as int),
            it.seq() == s@,
    {
        out.push(c);
    }
    out
}

/// Builds a `String` from characters (`Iterator::collect` into `String`).
#[verifier::external_body]
pub(crate) fn string_of(v: &[char]) -> (r: String)
    ensures
        r@ == v@,
{
    v.iter().collect()
}

} // verus!

verus! {

// ── Character classes ───────────────────────────────────────────────────────

/// The Unicode `White_Space` property (what `char::is_whitespace` tests):
/// the controls U+0009 to U+000D, the space, U+0085, the no-break space,
/// the Ogham space mark, the spaces U+2000 to U+200A, the line and
/// paragraph separators, U+202F, U+205F and the ideographic space.
pub open spec fn char_whitespace(c: char) -> bool {
    let u = c as u32;
    ||| 0x9 <= u <= 0xD
    ||| u == 0x20
    ||| u == 0x85
    ||| u == 0xA0
    ||| u == 0x1680
    ||| 0x2000 <= u <= 0x200A
    ||| u == 0x2028
    ||| u == 0x2029
    ||| u == 0x202F
    ||| u == 0x205F
    ||| u == 0x3000
}

/// Whether `c` is whitespace, as `char::is_whitespace` says.
pub(crate) fn is_whitespace(c: char) -> (r: bool)
    ensures
        r == char_whitespace(c),
        (c as u32) < 128 ==> (r <==> (c == ' ' || ('\t' <= c && c <= '\r'))),
{
    let u = c as u32;
    (0x9 <= u && u <= 0xD) || u == 0x20 || u == 0x85 || u == 0xA0 || u == 0x1680 || (0x2000 <= u && u <= 0x200A)
        || u == 0x2028 || u == 0x2029 || u == 0x202F || u == 0x205F || u == 0x3000
}

pub open spec fn is_ascii_digit(c: char) -> bool {
    '0' <= c && c <= '9'
}

pub open spec fn is_ascii_upper(c: char) -> bool {
    'A' <= c && c <= 'Z'
}

pub open spec fn is_ascii_alpha(c: char) -> bool {
    ('A' <= c && c <= 'Z') || ('a' <= c && c <= 'z')
}

/// ASCII lowercase of one character (non-ASCII characters are unchanged).
pub open spec fn ascii_lower_char(c: char) -> char {
    if is_ascii_upper(c) {
        ((c as u32) + 32) as char
    } else {
        c
    }
}

pub open spec fn ascii_lower(s: Seq<char>) -> Seq<char> {
    s.map_values(|c: char| ascii_lower_char(c))
}

pub fn to_ascii_lower(s: &[char]) -> (r: Vec<char>)
    ensures
        r@ == ascii_lower(s@),
{
    let mut out: Vec<char> = Vec::new();
    for i in 0..s.len()
        invariant
            out@ == ascii_lower(s@.take(i as int)),
    {
        let c = s[i];
        let l = if 'A' <= c && c <= 'Z' {
            proof {
                assert((c as u32) + 32 <= 'z' as u32);
            }
            char_from_ascii((c as u32 + 32) as u8)
        } else {
            c
        };
        out.push(l);
        assert(s@.take(i + 1) == s@.take(i as int).push(s@[i as int]));
    }
    assert(s@.take(s.len() as int) == s@);
    out
}

/// The ASCII character with code `b` (`char::from` on `u8`).
pub fn char_from_ascii(b: u8) -> (c: char)
    requires
        b < 128,
    ensures
        c as u32 == b as u32,
{
    b as char
}

// ── Whole-string lowercase ──────────────────────────────────────────────────

/// `str::to_lowercase`: the Unicode lowercase mapping of a whole string.
pub uninterp spec fn lowercase(s: Seq<char>) -> Seq<char>;

/// Lowercases a string (`str::to_lowercase`).
///
/// Trusted: the result is the Unicode lowercase of the argument, named
/// [`lowercase`]; of ASCII text it is the ASCII lowercase, character by
/// character (Unicode maps the ASCII capitals to the ASCII small letters
/// and leaves the other ASCII characters alone).
#[verifier::external_body]
pub(crate) fn to_lower(s: &str) -> (r: String)
    ensures
        r@ == lowercase(s@),
        (forall|i: int| 0 <= i < s@.len() ==> (#[trigger] s@[i] as u32) < 128) ==> r@ == ascii_lower(s@),
{
    s.to_lowercase()
}

/// String equality.
pub fn str_eq(a: &str, b: &str) -> (r: bool)
    ensures
        r == (a@ == b@),
{
    String::from_str(a) == String::from_str(b)
}

/// Lowercases characters through [`to_lower`].
pub fn lower_chars(s: &[char]) -> (r: Vec<char>)
    ensures
        r@ == lowercase(s@),
        (forall|i: int| 0 <= i < s@.len() ==> (#[trigger] s@[i] as u32) < 128) ==> r@ == ascii_lower(s@),
{
    let st = string_of(s);
    let l = to_lower(st.as_str());
    chars_of(l.as_str())
}

// ── Searching ───────────────────────────────────────────────────────────────

pub open spec fn has_prefix(s: Seq<char>, p: Seq<char>) -> bool {
    p.len() <= s.len() && s.take(p.len() as int) == p
}

pub open spec fn has_suffix(s: Seq<char>, p: Seq<char>) -> bool {
    p.len() <= s.len() && s.skip(s.len() - p.len()) == p
}

/// `p` occurs in `s` starting at `i`.
pub open spec fn occurs_at(s: Seq<char>, p: Seq<char>, i: int) -> bool {
    0 <= i && i + p.len() <= s.len() && s.subrange(i, i + p.len()) == p
}

pub open spec fn occurs(s: Seq<char>, p: Seq<char>) -> bool {
    exists|i: int| occurs_at(s, p, i)
}

/// Position of the first occurrence of `p` in `s`.
pub open spec fn first_occurrence(s: Seq<char>, p: Seq<char>) -> Option<int> {
    if occurs(s, p) {
        Some(choose|i: int| occurs_at(s, p, i) && forall|j: int| 0 <= j < i ==> !occurs_at(s, p, j))
    } else {
        None
    }
}

pub fn starts_with_at(s: &[char], p: &[char], i: usize) -> (r: bool)
    requires
        i <= s@.len(),
    ensures
        r == occurs_at(s@, p@, i as int),
{
    if p.len() > s.len() - i {
        return false;
    }
    let mut k: usize = 0;
    while k < p.len()
        invariant
            i + p@.len() <= s@.len(),
            s@.len() == s.len(),
            k <= p@.len(),
            forall|j: int| 0 <= j < k ==> s@[i + j] == p@[j],
        decreases p@.len() - k,
    {
        if s[i + k] != p[k] {
            assert(s@.subrange(i as int, i + p@.len())[k as int] != p@[k as int]);
            return false;
        }
        k = k + 1;
    }
    assert(s@.subrange(i as int, i + p@.len()) =~= p@);
    true
}

pub fn starts_with(s: &[char], p: &[char]) -> (r: bool)
    ensures
        r == has_prefix(s@, p@),
{
    let r = starts_with_at(s, p, 0);
    proof {
        if p@.len() <= s@.len() {
            assert(s@.subrange(0, p@.len() as int) == s@.take(p@.len() as int));
        }
    }
    r
}

pub fn ends_with(s: &[char], p: &[char]) -> (r: bool)
    ensures
        r == has_suffix(s@, p@),
{
    if p.len() > s.len() {
        return false;
    }
    let r = starts_with_at(s, p, s.len() - p.len());
    proof {
        assert(s@.subrange(s@.len() - p@.len(), s@.len() as int) == s@.skip(s@.len() - p@.len()));
    }
    r
}

/// First position at or after `from` where `p` occurs.
pub fn find_from(s: &[char], p: &[char], from: usize) -> (r: Option<usize>)
    requires
        from <= s@.len(),
    ensures
        match r {
            Some(i) => from <= i && occurs_at(s@, p@, i as int)
                && forall|j: int| from <= j < i ==> !occurs_at(s@, p@, j),
            None => forall|j: int| from <= j ==> !occurs_at(s@, p@, j),
        },
{
    let mut i = from;
    loop
        invariant
            from <= i <= s@.len(),
            s@.len() == s.len(),
            forall|j: int| from <= j < i ==> !occurs_at(s@, p@, j),
        decreases s@.len() - i,
    {
        if p.len() > s.len() - i {
            assert forall|j: int| from <= j implies !occurs_at(s@, p@, j) by {}
            return None;
        }
        if starts_with_at(s, p, i) {
            return Some(i);
        }
        if i == s.len() {
            assert(s@.subrange(i as int, i as int) =~= p@);
            assert(occurs_at(s@, p@, i as int));
        }
        i = i + 1;
    }
}

/// The first occurrence is the one with none before it.
pub proof fn lemma_first_occurrence_is(s: Seq<char>, p: Seq<char>, i: int)
    requires
        occurs_at(s, p, i),
        forall|j: int| 0 <= j < i ==> !occurs_at(s, p, j),
    ensures
        first_occurrence(s, p) == Some(i),
{
    assert(occurs(s, p));
    let k = choose|k: int| occurs_at(s, p, k) && forall|j: int| 0 <= j < k ==> !occurs_at(s, p, j);
    if k < i {
        assert(!occurs_at(s, p, k));
    } else if k > i {
        assert(!occurs_at(s, p, i));
    }
}

pub fn find(s: &[char], p: &[char]) -> (r: Option<usize>)
    ensures
        match r {
            Some(i) => first_occurrence(s@, p@) == Some(i as int),
            None => first_occurrence(s@, p@).is_none(),
        },
{
    let r = find_from(s, p, 0);
    proof {
        match r {
            Some(i) => {
                assert(occurs(s@, p@));
                let k = choose|k: int| occurs_at(s@, p@, k) && forall|j: int| 0 <= j < k ==> !occurs_at(s@, p@, j);
                if k < i {
                } else if k > i {
                    assert(!occurs_at(s@, p@, i as int));
                }
            },
            None => {
                if occurs(s@, p@) {
                    let k = choose|k: int| occurs_at(s@, p@, k);
                    assert(!occurs_at(s@, p@, k));
                }
            },
        }
    }
    r
}

pub fn contains(s: &[char], p: &[char]) -> (r: bool)
    ensures
        r == occurs(s@, p@),
{
    let r = find_from(s, p, 0);
    proof {
        if r.is_none() && occurs(s@, p@) {
            let k = choose|k: int| occurs_at(s@, p@, k);
            assert(!occurs_at(s@, p@, k));
        }
    }
    r.is_some()
}

/// First position of a character satisfying nothing but equality with `c`.
pub fn find_char(s: &[char], c: char) -> (r: Option<usize>)
    ensures
        match r {
            Some(i) => i < s@.len() && s@[i as int] == c && forall|j: int| 0 <= j < i ==> s@[j] != c,
            None => forall|j: int| 0 <= j < s@.len() ==> s@[j] != c,
        },
{
    for i in 0..s.len()
        invariant
            forall|j: int| 0 <= j < i ==> s@[j] != c,
    {
        if s[i] == c {
            return Some(i);
        }
    }
    None
}

pub fn has_char(s: &[char], c: char) -> (r: bool)
    ensures
        r == s@.contains(c),
{
    let r = find_char(s, c);
    proof {
        if r.is_some() {
            assert(s@[r.unwrap() as int] == c);
        }
    }
    r.is_some()
}

pub fn slice_vec(s: &[char], from: usize, to: usize) -> (r: Vec<char>)
    requires
        from <= to <= s@.len(),
    ensures
        r@ == s@.subrange(from as int, to as int),
{
    let mut out: Vec<char> = Vec::new();
    let mut i = from;
    while i < to
        invariant
            from <= i <= to <= s@.len(),
            out@ == s@.subrange(from as int, i as int),
        decreases to - i,
    {
        out.push(s[i]);
        i = i + 1;
        assert(out@ == s@.subrange(from as int, i as int));
    }
    out
}

pub fn push_all(out: &mut Vec<char>, s: &[char])
    ensures
        final(out)@ == old(out)@ + s@,
{
    let ghost start = out@;
    for i in 0..s.len()
        invariant
            out@ == start + s@.take(i as int),
    {
        out.push(s[i]);
        assert(s@.take(i + 1) == s@.take(i as int).push(s@[i as int]));
    }
    assert(s@.take(s@.len() as int) == s@);
}

// ── Trimming ────────────────────────────────────────────────────────────────

/// Number of leading whitespace characters.
pub open spec fn lead_ws(s: Seq<char>) -> nat
    decreases s.len(),
{
    if s.len() > 0 && char_whitespace(s[0]) {
        1 + lead_ws(s.drop_first())
    } else {
        0
    }
}

/// Number of trailing whitespace characters.
pub open spec fn trail_ws(s: Seq<char>) -> nat
    decreases s.len(),
{
    if s.len() > 0 && char_whitespace(s.last()) {
        1 + trail_ws(s.drop_last())
    } else {
        0
    }
}

pub open spec fn trim_start(s: Seq<char>) -> Seq<char> {
    s.skip(lead_ws(s) as int)
}

pub open spec fn trim_end(s: Seq<char>) -> Seq<char> {
    s.take(s.len() - trail_ws(s))
}

/// `str::trim`: whitespace removed from both ends.
pub open spec fn trim(s: Seq<char>) -> Seq<char> {
    trim_end(trim_start(s))
}

proof fn lemma_lead_ws(s: Seq<char>, k: int)
    requires
        0 <= k <= s.len(),
        forall|j: int| 0 <= j < k ==> char_whitespace(s[j]),
        k == s.len() || !char_whitespace(s[k]),
    ensures
        lead_ws(s) == k,
    decreases k,
{
    if k > 0 {
        lemma_lead_ws(s.drop_first(), k - 1);
    }
}

proof fn lemma_trail_ws(s: Seq<char>, k: int)
    requires
        0 <= k <= s.len(),
        forall|j: int| s.len() - k <= j < s.len() ==> char_whitespace(s[j]),
        k == s.len() || !char_whitespace(s[s.len() - k - 1]),
    ensures
        trail_ws(s) == k,
    decreases k,
{
    if k > 0 {
        lemma_trail_ws(s.drop_last(), k - 1);
    }
}

pub proof fn lemma_ws_bounds(s: Seq<char>)
    ensures
        lead_ws(s) <= s.len(),
        trail_ws(s) <= s.len(),
    decreases s.len(),
{
    if s.len() > 0 {
        lemma_ws_bounds(s.drop_first());
        lemma_ws_bounds(s.drop_last());
    }
}

/// Every character of `s` is ASCII.
pub open spec fn is_ascii_text(s: Seq<char>) -> bool {
    forall|i: int| 0 <= i < s.len() ==> (#[trigger] s[i] as u32) < 128
}

proof fn lemma_lead_ws_stops(s: Seq<char>)
    ensures
        lead_ws(s) < s.len() ==> !char_whitespace(s[lead_ws(s) as int]),
        forall|j: int| 0 <= j < lead_ws(s) ==> char_whitespace(#[trigger] s[j]),
    decreases s.len(),
{
    lemma_ws_bounds(s);
    if s.len() > 0 && char_whitespace(s[0]) {
        lemma_lead_ws_stops(s.drop_first());
        assert forall|j: int| 0 <= j < lead_ws(s) implies char_whitespace(#[trigger] s[j]) by {
            if j > 0 {
                assert(s[j] == s.drop_first()[j - 1]);
            }
        }
    }
}

proof fn lemma_trail_ws_stops(s: Seq<char>)
    ensures
        trail_ws(s) < s.len() ==> !char_whitespace(s[s.len() - trail_ws(s) - 1]),
    decreases s.len(),
{
    lemma_ws_bounds(s);
    if s.len() > 0 && char_whitespace(s.last()) {
        lemma_trail_ws_stops(s.drop_last());
        lemma_ws_bounds(s.drop_last());
    }
}

/// Trimmed text keeps only characters of the text, from position
/// `lead_ws`; it neither starts nor ends with whitespace.
pub proof fn lemma_trim_shape(s: Seq<char>)
    ensures
        lead_ws(s) + trim(s).len() <= s.len(),
        forall|i: int| 0 <= i < trim(s).len() ==> #[trigger] trim(s)[i] == s[lead_ws(s) + i],
        trim(s).len() > 0 ==> !char_whitespace(trim(s)[0]) && !char_whitespace(trim(s).last()),
{
    lemma_ws_bounds(s);
    let t0 = trim_start(s);
    lemma_ws_bounds(t0);
    lemma_lead_ws_stops(s);
    lemma_trail_ws_stops(t0);
    if trim(s).len() > 0 {
        assert(trim(s)[0] == s[lead_ws(s) as int]);
        assert(trim(s).last() == t0[t0.len() - trail_ws(t0) - 1]);
    }
}

/// Trimming ASCII text leaves ASCII text.
pub proof fn lemma_trim_ascii(s: Seq<char>)
    requires
        is_ascii_text(s),
    ensures
        is_ascii_text(trim(s)),
{
    lemma_trim_shape(s);
    assert forall|i: int| 0 <= i < trim(s).len() implies (#[trigger] trim(s)[i] as u32) < 128 by {
        let k = lead_ws(s) + i;
        assert(0 <= k < s.len());
        assert(trim(s)[i] == s[k]);
        assert((s[k] as u32) < 128);
    }
}

/// Text that neither starts nor ends with whitespace is its own trim.
pub proof fn lemma_trim_of_trimmed(s: Seq<char>)
    requires
        s.len() > 0 ==> !char_whitespace(s[0]) && !char_whitespace(s.last()),
    ensures
        trim(s) == s,
{
    lemma_lead_ws(s, 0);
    assert(trim_start(s) == s);
    lemma_trail_ws(s, 0);
    assert(trim(s) =~= s);
}

pub fn trim_start_chars(s: &[char]) -> (r: Vec<char>)
    ensures
        r@ == trim_start(s@),
{
    let mut k: usize = 0;
    while k < s.len() && is_whitespace(s[k])
        invariant
            k <= s@.len(),
            forall|j: int| 0 <= j < k ==> char_whitespace(s@[j]),
        decreases s@.len() - k,
    {
        k = k + 1;
    }
    proof {
        lemma_lead_ws(s@, k as int);
    }
    slice_vec(s, k, s.len())
}

pub fn trim_end_chars(s: &[char]) -> (r: Vec<char>)
    ensures
        r@ == trim_end(s@),
{
    let mut k: usize = 0;
    while k < s.len() && is_whitespace(s[s.len() - 1 - k])
        invariant
            k <= s@.len(),
            forall|j: int| s@.len() - k <= j < s@.len() ==> char_whitespace(s@[j]),
        decreases s@.len() - k,
    {
        k = k + 1;
    }
    proof {
        lemma_trail_ws(s@, k as int);
    }
    slice_vec(s, 0, s.len() - k)
}

/// A string with leading and trailing whitespace removed.
pub fn trim_str(s: &str) -> (r: String)
    ensures
        r@ == trim(s@),
{
    let cs = chars_of(s);
    let t = trim_chars(&cs);
    string_of(&t)
}

pub fn trim_chars(s: &[char]) -> (r: Vec<char>)
    ensures
        r@ == trim(s@),
{
    let a = trim_start_chars(s);
    trim_end_chars(&a)
}

} // verus!

verus! {

// ── Decimal numbers ─────────────────────────────────────────────────────────

pub open spec fn all_digits(s: Seq<char>) -> bool {
    forall|i: int| 0 <= i < s.len() ==> is_ascii_digit(#[trigger] s[i])
}

/// Value of a string of decimal digits.
pub open spec fn decimal_value(s: Seq<char>) -> nat
    decreases s.len(),
{
    if s.len() == 0 {
        0
    } else {
        decimal_value(s.drop_last()) * 10 + ((s.last() as u32) - ('0' as u32)) as nat
    }
}

/// `str::parse::<u64>`: an optional `+`, then one or more decimal digits
/// whose value fits in 64 bits.
pub open spec fn parse_u64(s: Seq<char>) -> Option<u64> {
    let digits = if s.len() > 0 && s[0] == '+' { s.drop_first() } else { s };
    if digits.len() > 0 && all_digits(digits) && decimal_value(digits) <= u64::MAX {
        Some(decimal_value(digits) as u64)
    } else {
        None
    }
}

/// Value of a run of digits, or `None` when it exceeds `u64`.
fn digits_to_u64(d: &[char]) -> (r: Option<u64>)
    requires
        all_digits(d@),
    ensures
        match r {
            Some(v) => decimal_value(d@) <= u64::MAX && v == decimal_value(d@),
            None => decimal_value(d@) > u64::MAX,
        },
{
    let mut acc: u64 = 0;
    let mut i: usize = 0;
    while i < d.len()
        invariant
            i <= d@.len(),
            all_digits(d@),
            acc == decimal_value(d@.take(i as int)),
        decreases d@.len() - i,
    {
        let digit = (d[i] as u32 - '0' as u32) as u64;
        assert(d@.take(i + 1).drop_last() == d@.take(i as int));
        if acc > (u64::MAX - digit) / 10 {
            proof {
                lemma_decimal_prefix_mono(d@, i + 1);
            }
            return None;
        }
        acc = acc * 10 + digit;
        i = i + 1;
    }
    assert(d@.take(d@.len() as int) == d@);
    Some(acc)
}

/// A longer prefix of digits never has a smaller value.
proof fn lemma_decimal_prefix_mono(s: Seq<char>, k: int)
    requires
        0 <= k <= s.len(),
        all_digits(s),
    ensures
        decimal_value(s.take(k)) <= decimal_value(s),
    decreases s.len() - k,
{
    if k < s.len() {
        lemma_decimal_prefix_mono(s, k + 1);
        assert(s.take(k + 1).drop_last() == s.take(k));
    } else {
        assert(s.take(k) == s);
    }
}

/// Parses a `u64` the way `str::parse::<u64>` does.
pub fn parse_u64_chars(s: &[char]) -> (r: Option<u64>)
    ensures
        r == parse_u64(s@),
{
    let start: usize = if s.len() > 0 && s[0] == '+' { 1 } else { 0 };
    let d = slice_vec(s, start, s.len());
    assert(d@ == (if s@.len() > 0 && s@[0] == '+' { s@.drop_first() } else { s@ }));
    if d.len() == 0 {
        return None;
    }
    for i in 0..d.len()
        invariant
            d@ == (if s@.len() > 0 && s@[0] == '+' { s@.drop_first() } else { s@ }),
            d@.len() > 0,
            forall|j: int| 0 <= j < i ==> is_ascii_digit(#[trigger] d@[j]),
    {
        if !('0' <= d[i] && d[i] <= '9') {
            assert(!is_ascii_digit(d@[i as int]));
            return None;
        }
    }
    digits_to_u64(&d)
}

} // verus!

verus! {

// ── Lexicographic order (as `Ord` for `str`) ───────────────────────────────

/// `a < b` in the order `str` compares by: code point by code point, a
/// proper prefix first.
pub open spec fn seq_lt(a: Seq<char>, b: Seq<char>) -> bool
    decreases a.len(),
{
    if a.len() == 0 {
        b.len() > 0
    } else if b.len() == 0 {
        false
    } else if a[0] != b[0] {
        a[0] < b[0]
    } else {
        seq_lt(a.drop_first(), b.drop_first())
    }
}

pub proof fn lemma_seq_lt_irreflexive(a: Seq<char>)
    ensures
        !seq_lt(a, a),
    decreases a.len(),
{
    if a.len() > 0 {
        lemma_seq_lt_irreflexive(a.drop_first());
    }
}

pub proof fn lemma_seq_lt_total(a: Seq<char>, b: Seq<char>)
    ensures
        a != b ==> (seq_lt(a, b) || seq_lt(b, a)),
        !(seq_lt(a, b) && seq_lt(b, a)),
    decreases a.len(),
{
    if a.len() > 0 && b.len() > 0 {
        lemma_seq_lt_total(a.drop_first(), b.drop_first());
        if a[0] == b[0] && a.drop_first() == b.drop_first() {
            assert(a =~= seq![a[0]] + a.drop_first());
            assert(b =~= seq![b[0]] + b.drop_first());
        }
    } else if a.len() == 0 && b.len() == 0 {
        assert(a =~= b);
    }
}

pub proof fn lemma_seq_lt_transitive(a: Seq<char>, b: Seq<char>, c: Seq<char>)
    requires
        seq_lt(a, b),
        seq_lt(b, c),
    ensures
        seq_lt(a, c),
    decreases a.len(),
{
    if a.len() > 0 && b.len() > 0 && c.len() > 0 {
        if a[0] == b[0] && b[0] == c[0] {
            lemma_seq_lt_transitive(a.drop_first(), b.drop_first(), c.drop_first());
        }
    }
}

/// `a < b` in `str` order.
pub fn lex_lt(a: &[char], b: &[char]) -> (r: bool)
    ensures
        r == seq_lt(a@, b@),
{
    let mut i: usize = 0;
    assert(a@.skip(0) == a@);
    assert(b@.skip(0) == b@);
    while i < a.len() && i < b.len() && a[i] == b[i]
        invariant
            i <= a@.len(),
            i <= b@.len(),
            seq_lt(a@, b@) == seq_lt(a@.skip(i as int), b@.skip(i as int)),
        decreases a@.len() - i,
    {
        assert(a@.skip(i as int).drop_first() == a@.skip(i + 1));
        assert(b@.skip(i as int).drop_first() == b@.skip(i + 1));
        i = i + 1;
    }
    if i == a.len() {
        i < b.len()
    } else if i == b.len() {
        false
    } else {
        a[i] < b[i]
    }
}

// ── Keyed lists ─────────────────────────────────────────────────────────────

/// The first position of `k` in `keys`.
pub open spec fn first_at(keys: Seq<Seq<char>>, k: Seq<char>) -> int {
    choose|i: int| 0 <= i < keys.len() && keys[i] == k && forall|j: int| 0 <= j < i ==> keys[j] != k
}

pub proof fn lemma_first_at(keys: Seq<Seq<char>>, k: Seq<char>, i: int)
    requires
        0 <= i < keys.len(),
        keys[i] == k,
        forall|j: int| 0 <= j < i ==> keys[j] != k,
    ensures
        first_at(keys, k) == i,
{
    let f = first_at(keys, k);
    assert(0 <= f < keys.len() && keys[f] == k && forall|j: int| 0 <= j < f ==> keys[j] != k);
    if f < i {
        assert(keys[f] != k);
    } else if f > i {
        assert(keys[i] != k);
    }
}

pub proof fn lemma_first_at_exists(keys: Seq<Seq<char>>, k: Seq<char>)
    requires
        keys.contains(k),
    ensures
        0 <= first_at(keys, k) < keys.len(),
        keys[first_at(keys, k)] == k,
        forall|j: int| 0 <= j < first_at(keys, k) ==> keys[j] != k,
    decreases keys.len(),
{
    if keys.last() == k && !keys.drop_last().contains(k) {
        let i = keys.len() - 1;
        assert forall|j: int| 0 <= j < i implies keys[j] != k by {
            if keys[j] == k {
                assert(keys.drop_last()[j] == k);
            }
        }
        lemma_first_at(keys, k, i);
    } else {
        let u = keys.drop_last();
        if !u.contains(k) {
            let t = choose|t: int| 0 <= t < keys.len() && keys[t] == k;
            if t < keys.len() - 1 {
                assert(u[t] == k);
            }
        }
        lemma_first_at_exists(u, k);
        let i = first_at(u, k);
        assert(keys[i] == k);
        assert forall|j: int| 0 <= j < i implies keys[j] != k by {
            assert(u[j] == keys[j]);
        }
        lemma_first_at(keys, k, i);
    }
}

/// Appending an element not yet present keeps a sequence free of repeats.
pub proof fn lemma_push_fresh<A>(s: Seq<A>, x: A)
    requires
        s.no_duplicates(),
        !s.contains(x),
    ensures
        s.push(x).no_duplicates(),
{
    let t = s.push(x);
    assert forall|i: int, j: int| 0 <= i < t.len() && 0 <= j < t.len() && i != j implies t[i] != t[j] by {
        if i == s.len() {
            assert(t[j] == s[j]);
        } else if j == s.len() {
            assert(t[i] == s[i]);
        }
    }
}

// ── Words and paths ─────────────────────────────────────────────────────────

/// Splitting into words, left to right: the words done, and the one being
/// read.
pub open spec fn split_state(s: Seq<char>) -> (Seq<Seq<char>>, Seq<char>)
    decreases s.len(),
{
    if s.len() == 0 {
        (Seq::empty(), Seq::empty())
    } else {
        let (done, cur) = split_state(s.drop_last());
        let c = s.last();
        if char_whitespace(c) {
            if cur.len() > 0 { (done.push(cur), Seq::empty()) } else { (done, cur) }
        } else {
            (done, cur.push(c))
        }
    }
}

/// The words of `s`, as `str::split_whitespace` gives them.
pub open spec fn words(s: Seq<char>) -> Seq<Seq<char>> {
    let (done, cur) = split_state(s);
    if cur.len() > 0 { done.push(cur) } else { done }
}

/// `str::split_whitespace`, collected.
pub fn split_words(s: &str) -> (r: Vec<String>)
    ensures
        r.deep_view() == words(s@),
{
    let cs = chars_of(s);
    let mut done: Vec<String> = Vec::new();
    let mut cur: Vec<char> = Vec::new();
    for i in 0..cs.len()
        invariant
            cs@ == s@,
            (done.deep_view(), cur@) == split_state(cs@.take(i as int)),
    {
        proof {
            assert(cs@.take(i + 1).drop_last() == cs@.take(i as int));
        }
        let c = cs[i];
        if is_whitespace(c) {
            if cur.len() > 0 {
                let ghost before = done.deep_view();
                let w = string_of(&cur);
                done.push(w);
                assert(done.deep_view() =~= before.push(cur@));
                cur = Vec::new();
            }
        } else {
            cur.push(c);
        }
    }
    assert(cs@.take(cs.len() as int) == cs@);
    if cur.len() > 0 {
        let ghost before = done.deep_view();
        done.push(string_of(&cur));
        assert(done.deep_view() =~= before.push(cur@));
    }
    done
}

/// `Path::join` of a relative name.
pub open spec fn joined(base: Seq<char>, name: Seq<char>) -> Seq<char> {
    if base.len() == 0 {
        name
    } else if base.last() == '/' {
        base + name
    } else {
        base + seq!['/'] + name
    }
}

/// `base` joined with a relative `name`, as `Path::join` does.
pub fn join_path(base: &str, name: &str) -> (r: String)
    ensures
        r@ == joined(base@, name@),
{
    let b = chars_of(base);
    let mut out = String::from_str(base);
    if b.len() > 0 && b[b.len() - 1] != '/' {
        out.append("/");
        proof {
            reveal_strlit("/");
        }
    }
    out.append(name);
    proof {
        if b@.len() > 0 && b@.last() != '/' {
            assert("/"@ =~= seq!['/']);
        }
    }
    out
}

/// Concatenation of two strings.
pub fn concat(a: &str, b: &str) -> (r: String)
    ensures
        r@ == a@ + b@,
{
    let mut out = String::from_str(a);
    out.append(b);
    out
}

} // verus!

verus! {

// ── UTF-8 lengths ───────────────────────────────────────────────────────────

/// Bytes that `c` takes in UTF-8.
pub open spec fn byte_width(c: char) -> nat {
    let u = c as u32;
    if u < 0x80 { 1 } else if u < 0x800 { 2 } else if u < 0x10000 { 3 } else { 4 }
}

/// Bytes that `s` takes in UTF-8.
pub open spec fn byte_len(s: Seq<char>) -> nat
    decreases s.len(),
{
    if s.len() == 0 { 0 } else { byte_len(s.drop_last()) + byte_width(s.last()) }
}

pub fn utf8_width(c: char) -> (w: usize)
    ensures
        w == byte_width(c),
{
    let u = c as u32;
    if u < 0x80 {
        1
    } else if u < 0x800 {
        2
    } else if u < 0x10000 {
        3
    } else {
        4
    }
}

/// Bytes that `s` takes in UTF-8 (`str::len`).
pub fn utf8_len(s: &[char]) -> (r: usize)
    requires
        4 * s@.len() <= usize::MAX,
    ensures
        r == byte_len(s@),
{
    let mut total: usize = 0;
    for k in 0..s.len()
        invariant
            4 * s@.len() <= usize::MAX,
            total == byte_len(s@.take(k as int)),
            total <= 4 * k,
    {
        assert(s@.take(k + 1).drop_last() == s@.take(k as int));
        total = total + utf8_width(s[k]);
    }
    assert(s@.take(s@.len() as int) == s@);
    total
}

// ── Cutting at a stop character ─────────────────────────────────────────────

/// The characters of `s` before the first one that is in `stops`.
pub open spec fn prefix_before(s: Seq<char>, stops: Seq<char>) -> Seq<char>
    decreases s.len(),
{
    if s.len() == 0 || stops.contains(s[0]) {
        Seq::empty()
    } else {
        seq![s[0]] + prefix_before(s.drop_first(), stops)
    }
}

pub proof fn lemma_prefix_before(s: Seq<char>, stops: Seq<char>, k: int)
    requires
        0 <= k <= s.len(),
        forall|t: int| 0 <= t < k ==> !stops.contains(#[trigger] s[t]),
        k == s.len() || stops.contains(s[k]),
    ensures
        prefix_before(s, stops) == s.take(k),
    decreases k,
{
    if k > 0 {
        assert(!stops.contains(s[0]));
        let d = s.drop_first();
        assert forall|t: int| 0 <= t < k - 1 implies !stops.contains(#[trigger] d[t]) by {
            assert(d[t] == s[t + 1]);
        }
        lemma_prefix_before(d, stops, k - 1);
        assert(s.take(k) == seq![s[0]] + d.take(k - 1));
    } else {
        assert(s.take(0) == Seq::<char>::empty());
    }
}

/// The characters of `s` before the first one in `stops`.
pub fn take_before(s: &[char], stops: &[char]) -> (r: Vec<char>)
    ensures
        r@ == prefix_before(s@, stops@),
        r@.len() < s@.len() ==> stops@.contains(s@[r@.len() as int]),
{
    let mut k: usize = 0;
    while k < s.len() && !has_char(stops, s[k])
        invariant
            k <= s@.len(),
            forall|t: int| 0 <= t < k ==> !stops@.contains(#[trigger] s@[t]),
        decreases s@.len() - k,
    {
        k = k + 1;
    }
    proof {
        lemma_prefix_before(s@, stops@, k as int);
    }
    slice_vec(s, 0, k)
}

} // verus!

verus! {

/// Whether `s` takes at least `n` bytes in UTF-8 (`str::len() >= n`).
pub fn byte_len_at_least(s: &[char], n: usize) -> (r: bool)
    ensures
        r == (byte_len(s@) >= n),
{
    if n == 0 {
        return true;
    }
    let mut total: usize = 0;
    for k in 0..s.len()
        invariant
            total == byte_len(s@.take(k as int)),
            total < n,
    {
        assert(s@.take(k + 1).drop_last() == s@.take(k as int));
        let w = utf8_width(s[k]);
        if w >= n - total {
            proof {
                lemma_byte_len_grows(s@, k + 1);
            }
            return true;
        }
        total = total + w;
    }
    assert(s@.take(s@.len() as int) == s@);
    false
}

/// A longer prefix takes no fewer bytes.
pub proof fn lemma_byte_len_grows(s: Seq<char>, k: int)
    requires
        0 <= k <= s.len(),
    ensures
        byte_len(s.take(k)) <= byte_len(s),
    decreases s.len() - k,
{
    if k < s.len() {
        lemma_byte_len_grows(s.drop_last(), if k < s.len() { k } else { 0 });
        assert(s.drop_last().take(k) == s.take(k));
    } else {
        assert(s.take(k) == s);
    }
}

} // verus!

verus! {

// ── Decimal text ────────────────────────────────────────────────────────────

/// The digit for `d` (below ten).
pub open spec fn digit_char(d: nat) -> char {
    seq!['0', '1', '2', '3', '4', '5', '6', '7', '8', '9'][d as int]
}

/// The decimal text of `n` (`u64::to_string`).
pub open spec fn decimal_text(n: nat) -> Seq<char>
    decreases n,
{
    if n < 10 {
        seq![digit_char(n)]
    } else {
        decimal_text(n / 10).push(digit_char(n % 10))
    }
}

fn digit_of(d: u64) -> (c: char)
    requires
        d < 10,
    ensures
        c == digit_char(d as nat),
{
    if d == 0 { '0' } else if d == 1 { '1' } else if d == 2 { '2' } else if d == 3 { '3' } else if d == 4 { '4' }
    else if d == 5 { '5' } else if d == 6 { '6' } else if d == 7 { '7' } else if d == 8 { '8' } else { '9' }
}

/// The decimal digits of `n`.
pub fn decimal_chars(n: u64) -> (r: Vec<char>)
    ensures
        r@ == decimal_text(n as nat),
    decreases n,
{
    if n < 10 {
        let mut v: Vec<char> = Vec::new();
        v.push(digit_of(n));
        assert(v@ == seq![digit_char(n as nat)]);
        v
    } else {
        let mut v = decimal_chars(n / 10);
        v.push(digit_of(n % 10));
        v
    }
}

/// `n` as decimal text (`u64::to_string`).
pub fn decimal_string(n: u64) -> (r: String)
    ensures
        r@ == decimal_text(n as nat),
{
    string_of(&decimal_chars(n))
}

} // verus!

verus! {

// ── Replacing and cutting ───────────────────────────────────────────────────

/// The first occurrence found is an occurrence.
pub proof fn lemma_first_occurrence_valid(s: Seq<char>, p: Seq<char>)
    ensures
        first_occurrence(s, p) matches Some(i) ==> occurs_at(s, p, i) && forall|j: int| 0 <= j < i ==> !occurs_at(s, p, j),
{
    if occurs(s, p) {
        let i = choose|i: int| occurs_at(s, p, i);
        lemma_min_occurrence(s, p, i);
    }
}

proof fn lemma_min_occurrence(s: Seq<char>, p: Seq<char>, i: int)
    requires
        occurs_at(s, p, i),
    ensures
        exists|m: int| occurs_at(s, p, m) && forall|j: int| 0 <= j < m ==> !occurs_at(s, p, j),
    decreases i,
{
    if exists|j: int| 0 <= j < i && occurs_at(s, p, j) {
        let j = choose|j: int| 0 <= j < i && occurs_at(s, p, j);
        lemma_min_occurrence(s, p, j);
    } else {
        assert(occurs_at(s, p, i) && forall|j: int| 0 <= j < i ==> !occurs_at(s, p, j));
    }
}

/// Every non-overlapping occurrence of `pat`, left to right, replaced by
/// `rep` (`str::replace`).
pub open spec fn replace_all(s: Seq<char>, pat: Seq<char>, rep: Seq<char>) -> Seq<char>
    recommends
        pat.len() > 0,
    decreases s.len(),
{
    if s.len() == 0 || pat.len() == 0 {
        s
    } else if has_prefix(s, pat) {
        rep + replace_all(s.skip(pat.len() as int), pat, rep)
    } else {
        seq![s[0]] + replace_all(s.drop_first(), pat, rep)
    }
}

/// `str::replace`.
pub fn replace_chars(s: &[char], pat: &[char], rep: &[char]) -> (r: Vec<char>)
    requires
        pat@.len() > 0,
    ensures
        r@ == replace_all(s@, pat@, rep@),
{
    let mut out: Vec<char> = Vec::new();
    let mut i: usize = 0;
    assert(s@.skip(0) == s@);
    while i < s.len()
        invariant
            i <= s@.len(),
            pat@.len() > 0,
            out@ + replace_all(s@.skip(i as int), pat@, rep@) == replace_all(s@, pat@, rep@),
        decreases s@.len() - i,
    {
        let ghost rest = s@.skip(i as int);
        if starts_with_at(s, pat, i) {
            assert(rest.take(pat@.len() as int) == s@.subrange(i as int, i + pat@.len()));
            assert(rest.skip(pat@.len() as int) == s@.skip(i + pat@.len()));
            let ghost before = out@;
            push_all(&mut out, rep);
            i = i + pat.len();
            assert(out@ + replace_all(s@.skip(i as int), pat@, rep@) == before + (rep@ + replace_all(rest.skip(pat@.len() as int), pat@, rep@)));
        } else {
            proof {
                if has_prefix(rest, pat@) {
                    assert(rest.take(pat@.len() as int) == s@.subrange(i as int, i + pat@.len()));
                }
            }
            assert(rest.drop_first() == s@.skip(i + 1));
            let ghost before = out@;
            out.push(s[i]);
            i = i + 1;
            assert(out@ + replace_all(s@.skip(i as int), pat@, rep@) == before + (seq![rest[0]] + replace_all(rest.drop_first(), pat@, rep@)));
        }
    }
    assert(s@.skip(i as int).len() == 0);
    out
}

/// `c` removed from both ends, as often as it is there (`trim_matches`).
pub open spec fn strip_char(s: Seq<char>, c: char) -> Seq<char>
    decreases s.len(),
{
    if s.len() > 0 && s[0] == c {
        strip_char(s.drop_first(), c)
    } else if s.len() > 0 && s.last() == c {
        strip_char(s.drop_last(), c)
    } else {
        s
    }
}

pub fn strip_char_chars(s: &[char], c: char) -> (r: Vec<char>)
    ensures
        r@ == strip_char(s@, c),
{
    let mut a: usize = 0;
    let mut b: usize = s.len();
    assert(s@.subrange(0, s@.len() as int) == s@);
    while a < b && (s[a] == c || s[b - 1] == c)
        invariant
            a <= b <= s@.len(),
            strip_char(s@, c) == strip_char(s@.subrange(a as int, b as int), c),
        decreases b - a,
    {
        let ghost t = s@.subrange(a as int, b as int);
        if s[a] == c {
            assert(t.drop_first() == s@.subrange(a + 1, b as int));
            a = a + 1;
        } else {
            assert(t.drop_last() == s@.subrange(a as int, b - 1));
            b = b - 1;
        }
    }
    slice_vec(s, a, b)
}

/// Each `from` replaced by `to`.
pub open spec fn swap_char(s: Seq<char>, from: char, to: char) -> Seq<char> {
    s.map_values(|c: char| if c == from { to } else { c })
}

pub fn swap_char_chars(s: &[char], from: char, to: char) -> (r: Vec<char>)
    ensures
        r@ == swap_char(s@, from, to),
{
    let mut out: Vec<char> = Vec::new();
    for k in 0..s.len()
        invariant
            out@ == swap_char(s@.take(k as int), from, to),
    {
        out.push(if s[k] == from { to } else { s[k] });
        assert(swap_char(s@.take(k + 1), from, to) == swap_char(s@.take(k as int), from, to).push(if s@[k as int] == from { to } else { s@[k as int] }));
    }
    assert(s@.take(s@.len() as int) == s@);
    out
}

pub proof fn lemma_prefix_before_len(s: Seq<char>, stops: Seq<char>)
    ensures
        prefix_before(s, stops).len() <= s.len(),
        prefix_before(s, stops) == s.take(prefix_before(s, stops).len() as int),
        prefix_before(s, stops).len() < s.len() ==> stops.contains(s[prefix_before(s, stops).len() as int]),
    decreases s.len(),
{
    if s.len() == 0 || stops.contains(s[0]) {
        assert(s.take(0) == Seq::<char>::empty());
    } else {
        lemma_prefix_before_len(s.drop_first(), stops);
        let d = s.drop_first();
        let k = prefix_before(d, stops).len();
        assert(s.take(k as int + 1) == seq![s[0]] + d.take(k as int));
        if k < d.len() {
            assert(s[k as int + 1] == d[k as int]);
        }
    }
}

} // verus!
