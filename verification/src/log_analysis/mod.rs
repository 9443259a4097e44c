//! Player.log analysis: grouping errors and exceptions, and guessing which
//! mods are behind them.
//!
//! Attribution rests on four signals, strongest first: a path into a mod's
//! folder in the text, a stack frame namespace equal to the name of one of
//! the mod's DLLs, the mod's packageId in the text, the mod's name in the
//! text. Frames of vanilla namespaces (Verse, RimWorld, UnityEngine, ...)
//! are ignored.

pub mod attribution;
pub mod parser;

use vstd::prelude::*;
use attribution::{as_suspects, attribute, fits_scores, hint_of, scores_fit, opt_view, ranked, scores_of, suspect_view, top, ModIndex, SuspectView};
use parser::{lemma_issue_frames, log_issues, parse_log, parse_ok, MAX_ENTRY_LINES};

verus! {

#[derive(Clone, Copy, PartialEq, Eq, Debug, Structural)]
pub enum Severity {
    Error,
    Warning,
}

/// A suspected mod with its accumulated score and evidence.
#[derive(Clone, Debug)]
pub struct Suspect {
    pub package_id: String,
    pub name: String,
    pub is_active: bool,
    pub score: i32,
    pub evidence: Vec<String>,
}

/// A grouped log entry: identical errors collapse into `count`.
#[derive(Clone, Debug)]
pub struct LogIssue {
    pub severity: Severity,
    /// The first line of the entry.
    pub title: String,
    /// The full text of the first occurrence.
    pub full_text: String,
    /// How many times the entry occurs in the log.
    pub count: usize,
    /// Stack frames, without the "at " prefix.
    pub frames: Vec<String>,
    pub suspects: Vec<Suspect>,
    /// When no culprit is found but a Harmony patch shows in the trace: the
    /// patched method.
    pub harmony_hint: Option<String>,
}

} // verus!

verus! {

/// What a [`LogIssue`] says: severity, title, full text, count, frames.
pub type IssueView = (Severity, Seq<char>, Seq<char>, nat, Seq<Seq<char>>);

pub open spec fn issue_view(i: LogIssue) -> IssueView {
    (i.severity, i.title@, i.full_text@, i.count as nat, i.frames@.map_values(|f: String| f@))
}

} // verus!

verus! {

/// An issue with its attribution: the issue, its suspects, the patched
/// method of a Harmony trace.
pub type AnalyzedView = (IssueView, Seq<SuspectView>, Option<Seq<char>>);

pub open spec fn analyzed_view(i: LogIssue) -> AnalyzedView {
    (issue_view(i), i.suspects@.map_values(|s: Suspect| suspect_view(s)), opt_view(i.harmony_hint))
}

/// A grouped issue once attributed.
pub open spec fn attributed(ix: ModIndex, iv: IssueView) -> AnalyzedView {
    let sus = top(ranked(as_suspects(ix, scores_of(ix, iv.4, iv.2))));
    (iv, sus, if sus.len() == 0 { hint_of(iv.4) } else { None })
}

/// Errors come before warnings, and more frequent issues first.
pub open spec fn goes_before(a: AnalyzedView, b: AnalyzedView) -> bool {
    (a.0.0 == Severity::Error && b.0.0 == Severity::Warning) || (a.0.0 == b.0.0 && a.0.3 > b.0.3)
}

pub open spec fn insert_ordered(s: Seq<AnalyzedView>, x: AnalyzedView) -> Seq<AnalyzedView>
    decreases s.len(),
{
    if s.len() == 0 {
        seq![x]
    } else if goes_before(x, s[0]) {
        seq![x] + s
    } else {
        seq![s[0]] + insert_ordered(s.drop_first(), x)
    }
}

/// Issues in report order; ties keep their order.
pub open spec fn ordered(s: Seq<AnalyzedView>) -> Seq<AnalyzedView>
    decreases s.len(),
{
    if s.len() == 0 {
        Seq::empty()
    } else {
        insert_ordered(ordered(s.drop_last()), s.last())
    }
}

/// What the analysis of a log gives: its issues, attributed, in report
/// order.
pub open spec fn analysis(ix: ModIndex, text: Seq<char>) -> Seq<AnalyzedView> {
    ordered(log_issues(text).map_values(|iv: IssueView| attributed(ix, iv)))
}

proof fn lemma_insert_ordered(s: Seq<AnalyzedView>, x: AnalyzedView, p: int)
    requires
        0 <= p <= s.len(),
        forall|t: int| 0 <= t < p ==> !goes_before(x, #[trigger] s[t]),
        p == s.len() || goes_before(x, s[p]),
    ensures
        insert_ordered(s, x) == s.insert(p, x),
    decreases p,
{
    if p == 0 {
        if s.len() == 0 {
            assert(s.insert(0, x) == seq![x]);
        } else {
            assert(s.insert(0, x) == seq![x] + s);
        }
    } else {
        let d = s.drop_first();
        assert(!goes_before(x, s[0]));
        assert forall|t: int| 0 <= t < p - 1 implies !goes_before(x, #[trigger] d[t]) by {
            assert(d[t] == s[t + 1]);
        }
        if p < s.len() {
            assert(d[p - 1] == s[p]);
        }
        lemma_insert_ordered(d, x, p - 1);
        assert(s.insert(p, x) == seq![s[0]] + d.insert(p - 1, x));
    }
}

fn goes_before_exec(a: &LogIssue, b: &LogIssue) -> (r: bool)
    ensures
        r == goes_before(analyzed_view(*a), analyzed_view(*b)),
{
    (a.severity == Severity::Error && b.severity == Severity::Warning) || (a.severity == b.severity && a.count > b.count)
}

fn attribute_one(it: &mut LogIssue, index: &ModIndex, Ghost(iv): Ghost<IssueView>)
    requires
        issue_view(*old(it)) == iv,
        old(it).suspects@.len() == 0,
        old(it).harmony_hint is None,
        iv.4.len() < MAX_ENTRY_LINES,
        index.wf(),
        scores_fit(*index, iv.4, iv.2),
    ensures
        analyzed_view(*final(it)) == attributed(*index, iv),
{
    assert(old(it).frames@.map_values(|f: String| f@) == iv.4);
    attribute(it, index);
    assert(issue_view(*it) == iv);
}

fn insert_in_order(out: &mut Vec<LogIssue>, it: LogIssue)
    ensures
        final(out)@.map_values(|i: LogIssue| analyzed_view(i)) == insert_ordered(
            old(out)@.map_values(|i: LogIssue| analyzed_view(i)),
            analyzed_view(it),
        ),
{
    let ghost ov = out@.map_values(|i: LogIssue| analyzed_view(i));
    let mut p: usize = 0;
    while p < out.len() && !goes_before_exec(&it, &out[p])
        invariant
            p <= out@.len(),
            ov == out@.map_values(|i: LogIssue| analyzed_view(i)),
            forall|t: int| 0 <= t < p ==> !goes_before(analyzed_view(it), #[trigger] ov[t]),
        decreases out@.len() - p,
    {
        assert(ov[p as int] == analyzed_view(out@[p as int]));
        p = p + 1;
    }
    proof {
        if p < out@.len() {
            assert(ov[p as int] == analyzed_view(out@[p as int]));
        }
        lemma_insert_ordered(ov, analyzed_view(it), p as int);
    }
    let ghost x = analyzed_view(it);
    out.insert(p, it);
    assert(out@.map_values(|i: LogIssue| analyzed_view(i)) == ov.insert(p as int, x));
}

/// Every score of every entry of a log fits in the `i32` of a suspect's
/// score.
pub open spec fn log_fits(ix: ModIndex, text: Seq<char>) -> bool {
    forall|i: int| 0 <= i < log_issues(text).len() ==> #[trigger] scores_fit(ix, log_issues(text)[i].4, log_issues(text)[i].2)
}

/// Whether every score of every entry of a log fits in an `i32`.
#[verifier::spinoff_prover]
#[verifier::rlimit(40)]
fn log_scores_fit(log_text: &str, index: &ModIndex) -> (r: bool)
    requires
        parse_ok(log_text@),
        index.wf(),
    ensures
        r == log_fits(*index, log_text@),
{
    let issues = parse_log(log_text);
    let ghost src = log_issues(log_text@);
    for i in 0..issues.len()
        invariant
            index.wf(),
            issues@.map_values(|x: LogIssue| issue_view(x)) == src,
            src == log_issues(log_text@),
            forall|j: int| 0 <= j < i ==> #[trigger] scores_fit(*index, src[j].4, src[j].2),
    {
        assert(src[i as int] == issue_view(issues@[i as int]));
        if !fits_scores(&issues[i], index) {
            assert(!scores_fit(*index, src[i as int].4, src[i as int].2));
            return false;
        }
    }
    true
}

/// [`analyze`] where it can run: `None` when the log cannot be grouped (an
/// entry's title or first frame has a character across the 160-byte cut)
/// or a mod's score would not fit in an `i32`.
pub fn try_analyze(log_text: &str, index: &ModIndex) -> (r: Option<Vec<LogIssue>>)
    ensures
        r.is_some() == (parse_ok(log_text@) && index.wf() && log_fits(*index, log_text@)),
        r matches Some(v) ==> v@.map_values(|i: LogIssue| analyzed_view(i)) == analysis(*index, log_text@),
{
    if !parser::log_parses(log_text) || !index.is_wf() || !log_scores_fit(log_text, index) {
        return None;
    }
    Some(analyze(log_text, index))
}

/// The full pipeline: log text and mod index to attributed issues, errors
/// before warnings and more frequent ones first.
pub fn analyze(log_text: &str, index: &ModIndex) -> (r: Vec<LogIssue>)
    requires
        parse_ok(log_text@),
        index.wf(),
        log_fits(*index, log_text@),
    ensures
        r@.map_values(|i: LogIssue| analyzed_view(i)) == analysis(*index, log_text@),
{
    let mut issues = parse_log(log_text);
    let ghost src = log_issues(log_text@);
    let ghost all = src.map_values(|iv: IssueView| attributed(*index, iv));
    proof {
        lemma_issue_frames(log_text@);
        assert(issues@.skip(0) == issues@);
    }
    let ghost orig = issues@;
    let total = issues.len();
    let mut out: Vec<LogIssue> = Vec::new();
    let mut k: usize = 0;
    while k < total
        invariant
            total == orig.len(),
            orig.map_values(|i: LogIssue| issue_view(i)) == src,
            forall|t: int| 0 <= t < orig.len() ==> (#[trigger] orig[t]).suspects@.len() == 0 && orig[t].harmony_hint is None,
            forall|t: int| 0 <= t < src.len() ==> (#[trigger] src[t]).4.len() < MAX_ENTRY_LINES,
            all == src.map_values(|iv: IssueView| attributed(*index, iv)),
            k <= total,
            issues@ == orig.skip(k as int),
            out@.map_values(|i: LogIssue| analyzed_view(i)) == ordered(all.take(k as int)),
            index.wf(),
            log_fits(*index, log_text@),
            src == log_issues(log_text@),
        decreases total - k,
    {
        let mut it = issues.remove(0);
        assert(it == orig[k as int]);
        assert(issues@ == orig.skip(k + 1));
        assert(src[k as int] == issue_view(it));
        attribute_one(&mut it, index, Ghost(src[k as int]));
        assert(analyzed_view(it) == all[k as int]);
        insert_in_order(&mut out, it);
        assert(all.take(k + 1).drop_last() == all.take(k as int));
        assert(all.take(k + 1).last() == all[k as int]);
        k = k + 1;
    }
    assert(all.take(total as int) == all);
    out
}

} // verus!

verus! {

/// No issue goes before one that comes earlier.
pub open spec fn in_report_order(s: Seq<AnalyzedView>) -> bool {
    forall|i: int, j: int| 0 <= i < j < s.len() ==> !goes_before(#[trigger] s[j], #[trigger] s[i])
}

proof fn lemma_insert_ordered_members(s: Seq<AnalyzedView>, x: AnalyzedView, k: int)
    requires
        0 <= k < s.len() + 1,
    ensures
        insert_ordered(s, x).len() == s.len() + 1,
        insert_ordered(s, x)[k] == x || exists|t: int| 0 <= t < s.len() && s[t] == insert_ordered(s, x)[k],
    decreases s.len(),
{
    if s.len() == 0 {
    } else if goes_before(x, s[0]) {
        if k > 0 {
            assert((seq![x] + s)[k] == s[k - 1]);
        }
    } else {
        let d = s.drop_first();
        lemma_insert_ordered_members(d, x, 0);
        if k == 0 {
            assert(insert_ordered(s, x)[0] == s[0]);
        } else {
            lemma_insert_ordered_members(d, x, k - 1);
            assert(insert_ordered(s, x)[k] == insert_ordered(d, x)[k - 1]);
            if insert_ordered(d, x)[k - 1] != x {
                let t = choose|t: int| 0 <= t < d.len() && d[t] == insert_ordered(d, x)[k - 1];
                assert(s[t + 1] == d[t]);
            }
        }
    }
}

proof fn lemma_insert_ordered_keeps_order(s: Seq<AnalyzedView>, x: AnalyzedView)
    requires
        in_report_order(s),
    ensures
        in_report_order(insert_ordered(s, x)),
        insert_ordered(s, x).len() == s.len() + 1,
    decreases s.len(),
{
    if s.len() == 0 {
    } else if goes_before(x, s[0]) {
        let r = seq![x] + s;
        assert forall|i: int, j: int| 0 <= i < j < r.len() implies !goes_before(#[trigger] r[j], #[trigger] r[i]) by {
            if i == 0 {
                assert(r[j] == s[j - 1]);
                if j - 1 > 0 {
                    assert(!goes_before(s[j - 1], s[0]));
                }
            } else {
                assert(r[i] == s[i - 1] && r[j] == s[j - 1]);
            }
        }
    } else {
        let d = s.drop_first();
        assert forall|i: int, j: int| 0 <= i < j < d.len() implies !goes_before(#[trigger] d[j], #[trigger] d[i]) by {
            assert(d[i] == s[i + 1] && d[j] == s[j + 1]);
        }
        lemma_insert_ordered_keeps_order(d, x);
        let rest = insert_ordered(d, x);
        let r = seq![s[0]] + rest;
        assert forall|i: int, j: int| 0 <= i < j < r.len() implies !goes_before(#[trigger] r[j], #[trigger] r[i]) by {
            if i == 0 {
                assert(r[j] == rest[j - 1]);
                lemma_insert_ordered_members(d, x, j - 1);
                if rest[j - 1] != x {
                    let t = choose|t: int| 0 <= t < d.len() && d[t] == rest[j - 1];
                    assert(d[t] == s[t + 1]);
                }
            } else {
                assert(r[i] == rest[i - 1] && r[j] == rest[j - 1]);
            }
        }
    }
}

proof fn lemma_ordered(s: Seq<AnalyzedView>)
    ensures
        in_report_order(ordered(s)),
        ordered(s).len() == s.len(),
    decreases s.len(),
{
    if s.len() > 0 {
        lemma_ordered(s.drop_last());
        lemma_insert_ordered_keeps_order(ordered(s.drop_last()), s.last());
    }
}

/// The report lists errors before warnings, and within each severity the
/// more frequent issues first; it has one entry per grouped issue.
pub proof fn law_report_order(ix: ModIndex, text: Seq<char>)
    ensures
        in_report_order(analysis(ix, text)),
        analysis(ix, text).len() == log_issues(text).len(),
        forall|i: int, j: int|
            0 <= i < j < analysis(ix, text).len() && (#[trigger] analysis(ix, text)[i]).0.0 == Severity::Warning
                ==> (#[trigger] analysis(ix, text)[j]).0.0 == Severity::Warning,
{
    lemma_ordered(log_issues(text).map_values(|iv: IssueView| attributed(ix, iv)));
    let a = analysis(ix, text);
    assert forall|i: int, j: int| 0 <= i < j < a.len() && (#[trigger] a[i]).0.0 == Severity::Warning implies (#[trigger] a[j]).0.0 == Severity::Warning by {
        assert(!goes_before(a[j], a[i]));
    }
}

proof fn lemma_insert_ordered_multiset(s: Seq<AnalyzedView>, x: AnalyzedView)
    ensures
        insert_ordered(s, x).to_multiset() =~= s.to_multiset().insert(x),
    decreases s.len(),
{
    broadcast use vstd::seq_lib::group_to_multiset_ensures;
    if s.len() == 0 {
        assert(seq![x] =~= s.push(x));
    } else if goes_before(x, s[0]) {
        assert(seq![x] + s =~= s.insert(0, x));
        vstd::seq_lib::to_multiset_insert(s, 0, x);
    } else {
        let t = s.drop_first();
        lemma_insert_ordered_multiset(t, x);
        assert(seq![s[0]] + insert_ordered(t, x) =~= insert_ordered(t, x).insert(0, s[0]));
        vstd::seq_lib::to_multiset_insert(insert_ordered(t, x), 0, s[0]);
        assert(s =~= t.insert(0, s[0]));
        vstd::seq_lib::to_multiset_insert(t, 0, s[0]);
    }
}

/// Report order only reorders: the ordered issues are the issues given,
/// each as often.
pub proof fn law_ordering_keeps_issues(s: Seq<AnalyzedView>)
    ensures
        ordered(s).to_multiset() =~= s.to_multiset(),
    decreases s.len(),
{
    broadcast use vstd::seq_lib::group_to_multiset_ensures;
    if s.len() > 0 {
        law_ordering_keeps_issues(s.drop_last());
        lemma_insert_ordered_multiset(ordered(s.drop_last()), s.last());
        assert(s =~= s.drop_last().push(s.last()));
    } else {
        assert(ordered(s) =~= s);
    }
}

/// Issues that tie with `k` in report order: the same severity and the same
/// count.
pub open spec fn ties_in_report(k: AnalyzedView) -> spec_fn(AnalyzedView) -> bool {
    |y: AnalyzedView| y.0.0 == k.0.0 && y.0.3 == k.0.3
}

proof fn lemma_none_ties(s: Seq<AnalyzedView>, p: spec_fn(AnalyzedView) -> bool)
    requires
        forall|t: int| 0 <= t < s.len() ==> !p(#[trigger] s[t]),
    ensures
        s.filter(p) =~= Seq::<AnalyzedView>::empty(),
{
    if s.filter(p).len() > 0 {
        s.lemma_filter_pred(p, 0);
        assert(s.filter(p).contains(s.filter(p)[0]));
        s.lemma_filter_contains_rev(p, s.filter(p)[0]);
    }
}

proof fn lemma_insert_ordered_ties(s: Seq<AnalyzedView>, x: AnalyzedView, k: AnalyzedView)
    requires
        in_report_order(s),
    ensures
        insert_ordered(s, x).filter(ties_in_report(k)) == if ties_in_report(k)(x) {
            s.filter(ties_in_report(k)).push(x)
        } else {
            s.filter(ties_in_report(k))
        },
    decreases s.len(),
{
    let p = ties_in_report(k);
    if s.len() == 0 {
        assert(seq![x] =~= s.push(x));
        s.lemma_filter_push(x, p);
    } else if goes_before(x, s[0]) {
        Seq::filter_distributes_over_add(seq![x], s, p);
        assert(seq![x] =~= Seq::<AnalyzedView>::empty().push(x));
        Seq::<AnalyzedView>::empty().lemma_filter_push(x, p);
        if p(x) {
            assert forall|t: int| 0 <= t < s.len() implies !p(#[trigger] s[t]) by {
                if p(s[t]) && t > 0 {
                    assert(!goes_before(s[t], s[0]));
                }
            }
            lemma_none_ties(s, p);
        }
    } else {
        let d = s.drop_first();
        assert forall|i: int, j: int| 0 <= i < j < d.len() implies !goes_before(#[trigger] d[j], #[trigger] d[i]) by {
            assert(d[i] == s[i + 1] && d[j] == s[j + 1]);
        }
        lemma_insert_ordered_ties(d, x, k);
        assert(s =~= seq![s[0]] + d);
        Seq::filter_distributes_over_add(seq![s[0]], d, p);
        Seq::filter_distributes_over_add(seq![s[0]], insert_ordered(d, x), p);
        if p(x) {
            assert(seq![s[0]].filter(p) + d.filter(p).push(x) =~= (seq![s[0]].filter(p) + d.filter(p)).push(x));
        }
    }
}

/// Report order is stable: issues that tie (the same severity and count)
/// come out in the order they went in.
pub proof fn law_report_order_is_stable(s: Seq<AnalyzedView>, k: AnalyzedView)
    ensures
        ordered(s).filter(ties_in_report(k)) == s.filter(ties_in_report(k)),
    decreases s.len(),
{
    if s.len() > 0 {
        law_report_order_is_stable(s.drop_last(), k);
        lemma_ordered(s.drop_last());
        lemma_insert_ordered_ties(ordered(s.drop_last()), s.last(), k);
        assert(s =~= s.drop_last().push(s.last()));
        s.drop_last().lemma_filter_push(s.last(), ties_in_report(k));
    } else {
        assert(ordered(s) =~= s);
    }
}

} // verus!
