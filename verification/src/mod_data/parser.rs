//! About.xml and ModsConfig.xml: reading them through the XML reader's
//! events, writing ModsConfig.xml, and Workshop links.

use vstd::prelude::*;
use quick_xml::events::Event;
use quick_xml::events::Event::{CData, Comment, Decl, DocType, Empty, End, Eof, GeneralRef, Start, Text, PI};
use crate::log_analysis::parser::lines_view;
use crate::text::{chars_of, contains, find_from, first_occurrence, is_ascii_digit, occurs, occurs_at, parse_u64, parse_u64_chars, trim, trim_chars};
use crate::text::{lemma_first_occurrence_is, push_all, starts_with, string_of};

verus! {

/// What About.xml says of a mod.
pub struct AboutData {
    pub name: String,
    pub package_id: String,
    pub version: String,
    pub author: String,
    pub description: String,
    pub supported_versions: Vec<String>,
    pub dependencies: Vec<String>,
    /// Where to download a missing dependency from: (packageId, Workshop ID).
    ///
    /// RimWorld asks mods to give a `<steamWorkshopUrl>` with each
    /// dependency and complains in its log when one is missing.
    pub dependency_sources: Vec<(String, u64)>,
    pub load_after: Vec<String>,
    pub load_before: Vec<String>,
    pub incompatible_with: Vec<String>,
}

/// The longest prefix of ASCII digits.
pub open spec fn lead_digits(s: Seq<char>) -> Seq<char>
    decreases s.len(),
{
    if s.len() > 0 && is_ascii_digit(s[0]) {
        seq![s[0]] + lead_digits(s.drop_first())
    } else {
        Seq::empty()
    }
}

/// What follows the first occurrence of `p` in `s`.
pub open spec fn after_first(s: Seq<char>, p: Seq<char>) -> Option<Seq<char>> {
    match first_occurrence(s, p) {
        Some(i) => Some(s.skip(i + p.len())),
        None => None,
    }
}

/// The Workshop item a link points to: the number after
/// `CommunityFilePage/`, or after `id=` in a steamcommunity.com link;
/// nothing for store pages, other links, a missing or zero number.
pub open spec fn workshop_id(url: Seq<char>) -> Option<u64> {
    let u = trim(url);
    if occurs(u, "store.steampowered.com"@) {
        None
    } else {
        let tail = if occurs(u, "CommunityFilePage/"@) {
            after_first(u, "CommunityFilePage/"@)
        } else if occurs(u, "steamcommunity.com"@) {
            after_first(u, "id="@)
        } else {
            None
        };
        match tail {
            Some(t) => match parse_u64(lead_digits(t)) {
                Some(v) => if v > 0 { Some(v) } else { None },
                None => None,
            },
            None => None,
        }
    }
}

/// The ASCII digits `s` starts with.
fn leading_digits(s: &[char], from: usize) -> (r: Vec<char>)
    requires
        from <= s@.len(),
    ensures
        r@ == lead_digits(s@.skip(from as int)),
{
    let mut end = from;
    while end < s.len() && '0' <= s[end] && s[end] <= '9'
        invariant
            from <= end <= s@.len(),
            s@.len() == s.len(),
            lead_digits(s@.skip(from as int)) == s@.subrange(from as int, end as int) + lead_digits(s@.skip(end as int)),
        decreases s@.len() - end,
    {
        proof {
            assert(s@.skip(end as int)[0] == s@[end as int]);
            assert(s@.skip(end as int).drop_first() == s@.skip(end + 1));
            assert(s@.subrange(from as int, end + 1) == s@.subrange(from as int, end as int) + seq![s@[end as int]]);
        }
        end = end + 1;
    }
    proof {
        if end < s@.len() {
            assert(s@.skip(end as int)[0] == s@[end as int]);
        }
        assert(lead_digits(s@.skip(end as int)) =~= Seq::<char>::empty());
    }
    let mut out: Vec<char> = Vec::new();
    for i in from..end
        invariant
            out@ == s@.subrange(from as int, i as int),
            end <= s@.len(),
    {
        out.push(s[i]);
        assert(out@ =~= s@.subrange(from as int, i + 1));
    }
    proof {
        assert(s@.subrange(from as int, end as int) + Seq::<char>::empty() =~= s@.subrange(from as int, end as int));
    }
    out
}

/// Where the text after the first occurrence of `p` begins.
fn after_pos(s: &Vec<char>, p: &Vec<char>) -> (r: Option<usize>)
    ensures
        match r {
            Some(k) => k <= s@.len() && after_first(s@, p@) == Some(s@.skip(k as int)),
            None => after_first(s@, p@).is_none(),
        },
{
    match find_from(s, p, 0) {
        Some(i) => {
            proof {
                lemma_first_occurrence_is(s@, p@, i as int);
            }
            let n = s.len();
            assert(i + p@.len() <= n);
            Some(i + p.len())
        },
        None => {
            proof {
                if occurs(s@, p@) {
                    let k = choose|k: int| occurs_at(s@, p@, k);
                    assert(!occurs_at(s@, p@, k));
                }
            }
            None
        },
    }
}

/// The Workshop item number in a link, if it points at one.
///
/// Several forms occur in the wild, and not all of them lead to the
/// Workshop: `steam://url/CommunityFilePage/<id>`,
/// `steamcommunity.com/sharedfiles/filedetails/?id=<id>`,
/// `.../workshop/filedetails/?id=<id>`, typos with `https:/`, and
/// placeholders instead of a number. Links to `store.steampowered.com/app/<id>`
/// are DLC pages: the number there is an application, not a Workshop item,
/// and cannot be downloaded as a mod.
pub fn workshop_id_from_url(url: &str) -> (r: Option<u64>)
    ensures
        r == workshop_id(url@),
{
    let cs = chars_of(url);
    let u = trim_chars(&cs);
    let store = chars_of("store.steampowered.com");
    if contains(&u, &store) {
        return None;
    }
    let page = chars_of("CommunityFilePage/");
    let community = chars_of("steamcommunity.com");
    let id_eq = chars_of("id=");
    let tail = if contains(&u, &page) {
        after_pos(&u, &page)
    } else if contains(&u, &community) {
        after_pos(&u, &id_eq)
    } else {
        None
    };
    let start = match tail {
        Some(k) => k,
        None => {
            return None;
        },
    };
    let digits = leading_digits(&u, start);
    match parse_u64_chars(&digits) {
        Some(v) => if v > 0 { Some(v) } else { None },
        None => None,
    }
}

// ── XML events ──────────────────────────────────────────────────────────────

#[verifier::external_type_specification]
#[verifier::external_body]
pub struct ExXmlError(quick_xml::Error);

/// A document the XML reader stopped on.
#[derive(Debug)]
pub struct XmlError {
    pub cause: quick_xml::Error,
}

/// One event of an XML document, as the reader gives it.
#[derive(Clone, Debug)]
pub enum XmlEvent {
    /// An opening tag: its local name.
    Start(String),
    /// A closing tag.
    End,
    /// Text between tags, decoded with line ends normalized (`None`: it
    /// could not be decoded).
    Text(Option<String>),
    /// A `CDATA` section (`None`: it could not be decoded).
    CData(Option<String>),
    /// A reference `&…;`: the character it stands for when it is a
    /// character reference, and its name.
    Ref(Option<char>, Option<String>),
    /// An empty element `<a/>`.
    Empty,
    /// A comment.
    Comment,
    /// The XML declaration.
    Decl,
    /// A processing instruction.
    PI,
    /// A document type declaration.
    DocType,
}

/// An XML event as values.
pub enum EventView {
    Start(Seq<char>),
    End,
    Text(Option<Seq<char>>),
    CData(Option<Seq<char>>),
    Ref(Option<char>, Option<Seq<char>>),
    Empty,
    Comment,
    Decl,
    PI,
    DocType,
}

pub open spec fn opt_chars(o: Option<String>) -> Option<Seq<char>> {
    match o {
        Some(s) => Some(s@),
        None => None,
    }
}

impl View for XmlEvent {
    type V = EventView;

    open spec fn view(&self) -> EventView {
        match self {
            XmlEvent::Start(n) => EventView::Start(n@),
            XmlEvent::End => EventView::End,
            XmlEvent::Text(t) => EventView::Text(opt_chars(*t)),
            XmlEvent::CData(t) => EventView::CData(opt_chars(*t)),
            XmlEvent::Ref(c, n) => EventView::Ref(*c, opt_chars(*n)),
            XmlEvent::Empty => EventView::Empty,
            XmlEvent::Comment => EventView::Comment,
            XmlEvent::Decl => EventView::Decl,
            XmlEvent::PI => EventView::PI,
            XmlEvent::DocType => EventView::DocType,
        }
    }
}

pub open spec fn events_view(v: Seq<XmlEvent>) -> Seq<EventView> {
    v.map_values(|e: XmlEvent| e@)
}

/// What quick-xml reads from a document: its events up to the end, or
/// nothing where it stops on an error.
pub uninterp spec fn xml_read(content: Seq<char>) -> Option<Seq<EventView>>;

#[verifier::external_type_specification]
#[verifier::external_body]
pub struct ExQuickXmlEvent<'a>(Event<'a>);

/// A quick-xml event as an [`XmlEvent`], variant by variant; `None` for
/// the end of the document.
#[verifier::external_body]
fn event_from(e: Event<'_>) -> (r: Option<XmlEvent>) {
    Some(match e {
        Eof => return None,
        Start(e) => XmlEvent::Start(String::from_utf8_lossy(e.local_name().as_ref()).into_owned()),
        End(_) => XmlEvent::End,
        Text(e) => XmlEvent::Text(e.xml10_content().ok().map(String::from)),
        CData(e) => XmlEvent::CData(e.decode().ok().map(String::from)),
        GeneralRef(e) => XmlEvent::Ref(e.resolve_char_ref().ok().flatten(), e.decode().ok().map(String::from)),
        Empty(_) => XmlEvent::Empty,
        Comment(_) => XmlEvent::Comment,
        Decl(_) => XmlEvent::Decl,
        PI(_) => XmlEvent::PI,
        DocType(_) => XmlEvent::DocType,
    })
}

/// Reads all events of a document (`quick_xml::Reader::from_str`, then
/// `read_event` until `Eof`, each event converted by [`event_from`]).
///
/// Trusted: the events, one for one and in order, or the first error; the
/// result is named [`xml_read`] of the text. Tag names are their local
/// part, text is decoded with XML 1.0 line ends, a reference carries
/// `resolve_char_ref` and its decoded name.
#[verifier::external_body]
fn read_xml(content: &str) -> (r: Result<Vec<XmlEvent>, quick_xml::Error>)
    ensures
        match r {
            Ok(v) => xml_read(content@) == Some(events_view(v@)),
            Err(_) => xml_read(content@).is_none(),
        },
{
    let mut reader = quick_xml::Reader::from_str(content);
    let mut out = Vec::new();
    while let Some(ev) = event_from(reader.read_event()?) {
        out.push(ev);
    }
    Ok(out)
}

/// The text a reference stands for: the character of a character
/// reference, else one of the five predefined entities; nothing for an
/// unknown one.
pub open spec fn ref_text(c: Option<char>, name: Option<Seq<char>>) -> Seq<char> {
    match c {
        Some(ch) => seq![ch],
        None => match name {
            Some(n) => if n == "amp"@ {
                "&"@
            } else if n == "lt"@ {
                "<"@
            } else if n == "gt"@ {
                ">"@
            } else if n == "quot"@ {
                "\""@
            } else if n == "apos"@ {
                "'"@
            } else {
                Seq::empty()
            },
            None => Seq::empty(),
        },
    }
}

fn is(s: &[char], w: &str) -> (r: bool)
    ensures
        r == (s@ == w@),
{
    let l = chars_of(w);
    if s.len() != l.len() {
        return false;
    }
    let r = starts_with(s, &l);
    assert(s@.take(l@.len() as int) =~= s@);
    r
}

fn resolve_ref(c: Option<char>, name: &Option<String>) -> (r: Vec<char>)
    ensures
        r@ == ref_text(c, opt_chars(*name)),
{
    match c {
        Some(ch) => {
            let mut v: Vec<char> = Vec::new();
            v.push(ch);
            v
        },
        None => match name {
            Some(n) => {
                let cs = chars_of(n.as_str());
                if is(&cs, "amp") {
                    chars_of("&")
                } else if is(&cs, "lt") {
                    chars_of("<")
                } else if is(&cs, "gt") {
                    chars_of(">")
                } else if is(&cs, "quot") {
                    chars_of("\"")
                } else if is(&cs, "apos") {
                    chars_of("'")
                } else {
                    Vec::new()
                }
            },
            None => Vec::new(),
        },
    }
}

/// The tag `k` levels below the top of the stack (0: the top); empty when
/// the stack is not that deep.
pub open spec fn from_top(stack: Seq<Seq<char>>, k: int) -> Seq<char> {
    if 0 <= k < stack.len() { stack[stack.len() - 1 - k] } else { Seq::empty() }
}

fn tag_from_top(stack: &Vec<Vec<char>>, k: usize) -> (r: Vec<char>)
    ensures
        r@ == from_top(lines_view(stack@), k as int),
{
    if k < stack.len() {
        let t = &stack[stack.len() - 1 - k];
        let mut out: Vec<char> = Vec::new();
        push_all(&mut out, t);
        out
    } else {
        Vec::new()
    }
}

/// The text an event adds to the text of the element being read; a
/// `CDATA` section counts only where `cdata`.
pub open spec fn text_of(ev: EventView, cdata: bool) -> Seq<char> {
    match ev {
        EventView::Text(Some(t)) => t,
        EventView::CData(Some(t)) => if cdata { t } else { Seq::empty() },
        EventView::Ref(c, n) => ref_text(c, n),
        _ => Seq::empty(),
    }
}

fn event_text(ev: &XmlEvent, cdata: bool) -> (r: Vec<char>)
    ensures
        r@ == text_of(ev@, cdata),
{
    match ev {
        XmlEvent::Text(Some(t)) => chars_of(t.as_str()),
        XmlEvent::CData(Some(t)) => if cdata { chars_of(t.as_str()) } else { Vec::new() },
        XmlEvent::Ref(c, n) => resolve_ref(*c, n),
        _ => Vec::new(),
    }
}

// ── About.xml ───────────────────────────────────────────────────────────────

/// [`AboutData`] as values.
pub struct AboutView {
    pub name: Seq<char>,
    pub package_id: Seq<char>,
    pub version: Seq<char>,
    pub author: Seq<char>,
    pub description: Seq<char>,
    pub supported_versions: Seq<Seq<char>>,
    pub dependencies: Seq<Seq<char>>,
    pub dependency_sources: Seq<(Seq<char>, u64)>,
    pub load_after: Seq<Seq<char>>,
    pub load_before: Seq<Seq<char>>,
    pub incompatible_with: Seq<Seq<char>>,
}

pub open spec fn strs_view(v: Seq<String>) -> Seq<Seq<char>> {
    v.map_values(|s: String| s@)
}

pub open spec fn sources_view(v: Seq<(String, u64)>) -> Seq<(Seq<char>, u64)> {
    v.map_values(|p: (String, u64)| (p.0@, p.1))
}

impl View for AboutData {
    type V = AboutView;

    open spec fn view(&self) -> AboutView {
        AboutView {
            name: self.name@,
            package_id: self.package_id@,
            version: self.version@,
            author: self.author@,
            description: self.description@,
            supported_versions: strs_view(self.supported_versions@),
            dependencies: strs_view(self.dependencies@),
            dependency_sources: sources_view(self.dependency_sources@),
            load_after: strs_view(self.load_after@),
            load_before: strs_view(self.load_before@),
            incompatible_with: strs_view(self.incompatible_with@),
        }
    }
}

pub open spec fn empty_about() -> AboutView {
    AboutView {
        name: Seq::empty(),
        package_id: Seq::empty(),
        version: Seq::empty(),
        author: Seq::empty(),
        description: Seq::empty(),
        supported_versions: Seq::empty(),
        dependencies: Seq::empty(),
        dependency_sources: Seq::empty(),
        load_after: Seq::empty(),
        load_before: Seq::empty(),
        incompatible_with: Seq::empty(),
    }
}

/// Reading About.xml: the open tags, the text of the element being read,
/// the dependency being read (its packageId and Workshop item) and what
/// was read so far.
pub struct AboutState {
    pub stack: Seq<Seq<char>>,
    pub buf: Seq<char>,
    pub dep_id: Option<Seq<char>>,
    pub dep_ws: Option<u64>,
    pub data: AboutView,
}

/// What the non-empty text `text` of the element closing on top of `stack`
/// sets.
pub open spec fn about_apply(st: AboutState, text: Seq<char>) -> AboutState {
    let cur = from_top(st.stack, 0);
    let par = from_top(st.stack, 1);
    let gpar = from_top(st.stack, 2);
    let d = st.data;
    if cur == "name"@ && par == "ModMetaData"@ {
        AboutState { data: AboutView { name: text, ..d }, ..st }
    } else if cur == "packageId"@ && par == "ModMetaData"@ {
        AboutState { data: AboutView { package_id: text, ..d }, ..st }
    } else if cur == "version"@ && par == "ModMetaData"@ {
        AboutState { data: AboutView { version: text, ..d }, ..st }
    } else if cur == "modVersion"@ && par == "ModMetaData"@ {
        if d.version.len() == 0 { AboutState { data: AboutView { version: text, ..d }, ..st } } else { st }
    } else if cur == "author"@ && par == "ModMetaData"@ {
        AboutState { data: AboutView { author: text, ..d }, ..st }
    } else if cur == "description"@ && par == "ModMetaData"@ {
        AboutState { data: AboutView { description: text, ..d }, ..st }
    } else if cur == "li"@ && par == "supportedVersions"@ {
        AboutState { data: AboutView { supported_versions: d.supported_versions.push(text), ..d }, ..st }
    } else if cur == "li"@ && (par == "loadAfter"@ || par == "forceLoadAfter"@) {
        AboutState { data: AboutView { load_after: d.load_after.push(text), ..d }, ..st }
    } else if cur == "li"@ && (par == "loadBefore"@ || par == "forceLoadBefore"@) {
        AboutState { data: AboutView { load_before: d.load_before.push(text), ..d }, ..st }
    } else if cur == "li"@ && par == "incompatibleWith"@ {
        AboutState { data: AboutView { incompatible_with: d.incompatible_with.push(text), ..d }, ..st }
    } else if cur == "packageId"@ && par == "li"@ && gpar == "modDependencies"@ {
        AboutState { dep_id: Some(text), data: AboutView { dependencies: d.dependencies.push(text), ..d }, ..st }
    } else if cur == "steamWorkshopUrl"@ && par == "li"@ && gpar == "modDependencies"@ {
        AboutState { dep_ws: workshop_id(text), ..st }
    } else if cur == "li"@ && par == "authors"@ && gpar == "ModMetaData"@ {
        AboutState { data: AboutView { author: if d.author.len() == 0 { text } else { d.author + ", "@ + text }, ..d }, ..st }
    } else {
        st
    }
}

/// A closing tag: the element's text, trimmed, is applied when it is not
/// empty; a closing dependency `<li>` records its Workshop source when it
/// had both a packageId and a link; the tag is closed.
pub open spec fn about_end(st: AboutState) -> AboutState {
    let text = trim(st.buf);
    let st1 = AboutState { buf: Seq::empty(), ..st };
    let st2 = if text.len() > 0 { about_apply(st1, text) } else { st1 };
    let closing_dep = from_top(st.stack, 0) == "li"@ && from_top(st.stack, 1) == "modDependencies"@;
    let st3 = if closing_dep {
        AboutState {
            dep_id: None,
            dep_ws: None,
            data: match (st2.dep_id, st2.dep_ws) {
                (Some(id), Some(ws)) => AboutView { dependency_sources: st2.data.dependency_sources.push((id, ws)), ..st2.data },
                _ => st2.data,
            },
            ..st2
        }
    } else {
        st2
    };
    AboutState { stack: if st3.stack.len() > 0 { st3.stack.drop_last() } else { st3.stack }, ..st3 }
}

pub open spec fn about_step(st: AboutState, ev: EventView) -> AboutState {
    match ev {
        EventView::Start(name) => AboutState { stack: st.stack.push(name), buf: Seq::empty(), ..st },
        EventView::End => about_end(st),
        _ => AboutState { buf: st.buf + text_of(ev, true), ..st },
    }
}

/// About.xml read event by event.
pub open spec fn about_run(events: Seq<EventView>) -> AboutState
    decreases events.len(),
{
    if events.len() == 0 {
        AboutState { stack: Seq::empty(), buf: Seq::empty(), dep_id: None, dep_ws: None, data: empty_about() }
    } else {
        about_step(about_run(events.drop_last()), events.last())
    }
}

struct AboutReader {
    stack: Vec<Vec<char>>,
    buf: Vec<char>,
    dep_id: Option<Vec<char>>,
    dep_ws: Option<u64>,
    data: AboutData,
}

pub open spec fn opt_vec(o: Option<Vec<char>>) -> Option<Seq<char>> {
    match o {
        Some(v) => Some(v@),
        None => None,
    }
}

impl View for AboutReader {
    type V = AboutState;

    closed spec fn view(&self) -> AboutState {
        AboutState {
            stack: lines_view(self.stack@),
            buf: self.buf@,
            dep_id: opt_vec(self.dep_id),
            dep_ws: self.dep_ws,
            data: self.data@,
        }
    }
}

fn push_str_of(v: &mut Vec<String>, text: &[char])
    ensures
        strs_view(final(v)@) == strs_view(old(v)@).push(text@),
{
    let ghost before = strs_view(v@);
    v.push(string_of(text));
    assert(strs_view(v@) =~= before.push(text@));
}

fn copy_chars(s: &[char]) -> (r: Vec<char>)
    ensures
        r@ == s@,
{
    let mut out: Vec<char> = Vec::new();
    push_all(&mut out, s);
    out
}

impl AboutReader {
    fn new() -> (r: AboutReader)
        ensures
            r@ == about_run(Seq::empty()),
    {
        let r = AboutReader {
            stack: Vec::new(),
            buf: Vec::new(),
            dep_id: None,
            dep_ws: None,
            data: AboutData {
                name: String::new(),
                package_id: String::new(),
                version: String::new(),
                author: String::new(),
                description: String::new(),
                supported_versions: Vec::new(),
                dependencies: Vec::new(),
                dependency_sources: Vec::new(),
                load_after: Vec::new(),
                load_before: Vec::new(),
                incompatible_with: Vec::new(),
            },
        };
        assert(strs_view(r.data.supported_versions@) =~= Seq::<Seq<char>>::empty());
        assert(strs_view(r.data.dependencies@) =~= Seq::<Seq<char>>::empty());
        assert(sources_view(r.data.dependency_sources@) =~= Seq::<(Seq<char>, u64)>::empty());
        assert(strs_view(r.data.load_after@) =~= Seq::<Seq<char>>::empty());
        assert(strs_view(r.data.load_before@) =~= Seq::<Seq<char>>::empty());
        assert(strs_view(r.data.incompatible_with@) =~= Seq::<Seq<char>>::empty());
        assert(lines_view(r.stack@) =~= Seq::<Seq<char>>::empty());
        assert(r.data@ == empty_about());
        r
    }

    #[verifier::rlimit(60)]
    #[verifier::spinoff_prover]
    fn apply(&mut self, text: &[char])
        requires
            text@.len() > 0,
        ensures
            final(self)@ == about_apply(old(self)@, text@),
    {
        let cur = tag_from_top(&self.stack, 0);
        let par = tag_from_top(&self.stack, 1);
        let gpar = tag_from_top(&self.stack, 2);
        if is(&cur, "name") && is(&par, "ModMetaData") {
            self.data.name = string_of(text);
        } else if is(&cur, "packageId") && is(&par, "ModMetaData") {
            self.data.package_id = string_of(text);
        } else if is(&cur, "version") && is(&par, "ModMetaData") {
            self.data.version = string_of(text);
        } else if is(&cur, "modVersion") && is(&par, "ModMetaData") {
            if self.data.version.as_str().unicode_len() == 0 {
                self.data.version = string_of(text);
            }
        } else if is(&cur, "author") && is(&par, "ModMetaData") {
            self.data.author = string_of(text);
        } else if is(&cur, "description") && is(&par, "ModMetaData") {
            self.data.description = string_of(text);
        } else if is(&cur, "li") && is(&par, "supportedVersions") {
            push_str_of(&mut self.data.supported_versions, text);
        } else if is(&cur, "li") && (is(&par, "loadAfter") || is(&par, "forceLoadAfter")) {
            push_str_of(&mut self.data.load_after, text);
        } else if is(&cur, "li") && (is(&par, "loadBefore") || is(&par, "forceLoadBefore")) {
            push_str_of(&mut self.data.load_before, text);
        } else if is(&cur, "li") && is(&par, "incompatibleWith") {
            push_str_of(&mut self.data.incompatible_with, text);
        } else if is(&cur, "packageId") && is(&par, "li") && is(&gpar, "modDependencies") {
            self.dep_id = Some(copy_chars(text));
            push_str_of(&mut self.data.dependencies, text);
        } else if is(&cur, "steamWorkshopUrl") && is(&par, "li") && is(&gpar, "modDependencies") {
            self.dep_ws = workshop_id_from_url(string_of(text).as_str());
        } else if is(&cur, "li") && is(&par, "authors") && is(&gpar, "ModMetaData") {
            let old_author = chars_of(self.data.author.as_str());
            if old_author.len() == 0 {
                self.data.author = string_of(text);
            } else {
                let mut a = old_author;
                push_all(&mut a, &chars_of(", "));
                push_all(&mut a, text);
                self.data.author = string_of(&a);
            }
        }
    }

    #[verifier::rlimit(40)]
    fn end(&mut self)
        ensures
            final(self)@ == about_end(old(self)@),
    {
        let text = trim_chars(&self.buf);
        self.buf = Vec::new();
        if text.len() > 0 {
            self.apply(&text);
        }
        let top = tag_from_top(&self.stack, 0);
        let below = tag_from_top(&self.stack, 1);
        if is(&top, "li") && is(&below, "modDependencies") {
            match (&self.dep_id, self.dep_ws) {
                (Some(id), Some(ws)) => {
                    let ghost before = sources_view(self.data.dependency_sources@);
                    self.data.dependency_sources.push((string_of(id), ws));
                    assert(sources_view(self.data.dependency_sources@) =~= before.push((id@, ws)));
                },
                _ => {},
            }
            self.dep_id = None;
            self.dep_ws = None;
        }
        if self.stack.len() > 0 {
            let ghost before = lines_view(self.stack@);
            self.stack.pop();
            assert(lines_view(self.stack@) =~= before.drop_last());
        }
    }

    #[verifier::spinoff_prover]
    #[verifier::rlimit(40)]
    fn step(&mut self, ev: &XmlEvent)
        ensures
            final(self)@ == about_step(old(self)@, ev@),
    {
        match ev {
            XmlEvent::Start(name) => {
                let ghost before = lines_view(self.stack@);
                self.stack.push(chars_of(name.as_str()));
                assert(lines_view(self.stack@) =~= before.push(name@));
                self.buf = Vec::new();
            },
            XmlEvent::End => self.end(),
            _ => {
                let t = event_text(ev, true);
                push_all(&mut self.buf, &t);
            },
        }
    }
}

/// What About.xml says, from its events.
pub fn about_from_events(events: &[XmlEvent]) -> (r: AboutData)
    ensures
        r@ == about_run(events_view(events@)).data,
{
    let ghost ev = events_view(events@);
    let mut reader = AboutReader::new();
    for i in 0..events.len()
        invariant
            ev == events_view(events@),
            reader@ == about_run(ev.take(i as int)),
    {
        assert(ev.take(i + 1).drop_last() == ev.take(i as int));
        assert(ev[i as int] == events@[i as int]@);
        reader.step(&events[i]);
    }
    assert(ev.take(events@.len() as int) == ev);
    reader.data
}

/// Reads About.xml: what the reader's events say, or the reader's error.
pub fn parse_about_xml(content: &str) -> (r: Result<AboutData, XmlError>)
    ensures
        match r {
            Ok(d) => xml_read(content@) matches Some(evs) && d@ == about_run(evs).data,
            Err(_) => xml_read(content@).is_none(),
        },
{
    match read_xml(content) {
        Ok(events) => Ok(about_from_events(&events)),
        Err(e) => Err(XmlError { cause: e }),
    }
}

// ── ModsConfig.xml ──────────────────────────────────────────────────────────

/// Reading ModsConfig.xml: the open tags, the text of the element being
/// read, the active mods, the game version and the known expansions.
pub struct ConfigState {
    pub stack: Seq<Seq<char>>,
    pub buf: Seq<char>,
    pub active: Seq<Seq<char>>,
    pub version: Seq<char>,
    pub known: Seq<Seq<char>>,
}

pub open spec fn config_end(st: ConfigState) -> ConfigState {
    let text = trim(st.buf);
    let cur = from_top(st.stack, 0);
    let par = from_top(st.stack, 1);
    let st1 = ConfigState { buf: Seq::empty(), ..st };
    let st2 = if text.len() == 0 {
        st1
    } else if cur == "li"@ && par == "activeMods"@ {
        ConfigState { active: st1.active.push(text), ..st1 }
    } else if cur == "version"@ && par == "ModsConfigData"@ {
        ConfigState { version: text, ..st1 }
    } else if cur == "li"@ && par == "knownExpansions"@ {
        ConfigState { known: st1.known.push(text), ..st1 }
    } else {
        st1
    };
    ConfigState { stack: if st2.stack.len() > 0 { st2.stack.drop_last() } else { st2.stack }, ..st2 }
}

pub open spec fn config_step(st: ConfigState, ev: EventView) -> ConfigState {
    match ev {
        EventView::Start(name) => ConfigState { stack: st.stack.push(name), buf: Seq::empty(), ..st },
        EventView::End => config_end(st),
        _ => ConfigState { buf: st.buf + text_of(ev, false), ..st },
    }
}

/// ModsConfig.xml read event by event.
pub open spec fn config_run(events: Seq<EventView>) -> ConfigState
    decreases events.len(),
{
    if events.len() == 0 {
        ConfigState { stack: Seq::empty(), buf: Seq::empty(), active: Seq::empty(), version: Seq::empty(), known: Seq::empty() }
    } else {
        config_step(config_run(events.drop_last()), events.last())
    }
}

struct ConfigReader {
    stack: Vec<Vec<char>>,
    buf: Vec<char>,
    active: Vec<String>,
    version: Vec<char>,
    known: Vec<String>,
}

impl View for ConfigReader {
    type V = ConfigState;

    closed spec fn view(&self) -> ConfigState {
        ConfigState {
            stack: lines_view(self.stack@),
            buf: self.buf@,
            active: strs_view(self.active@),
            version: self.version@,
            known: strs_view(self.known@),
        }
    }
}

impl ConfigReader {
    fn new() -> (r: ConfigReader)
        ensures
            r@ == config_run(Seq::empty()),
    {
        let r = ConfigReader { stack: Vec::new(), buf: Vec::new(), active: Vec::new(), version: Vec::new(), known: Vec::new() };
        assert(lines_view(r.stack@) =~= Seq::<Seq<char>>::empty());
        assert(strs_view(r.active@) =~= Seq::<Seq<char>>::empty());
        assert(strs_view(r.known@) =~= Seq::<Seq<char>>::empty());
        r
    }

    fn end(&mut self)
        ensures
            final(self)@ == config_end(old(self)@),
    {
        let text = trim_chars(&self.buf);
        let cur = tag_from_top(&self.stack, 0);
        let par = tag_from_top(&self.stack, 1);
        self.buf = Vec::new();
        if text.len() == 0 {
        } else if is(&cur, "li") && is(&par, "activeMods") {
            push_str_of(&mut self.active, &text);
        } else if is(&cur, "version") && is(&par, "ModsConfigData") {
            self.version = text;
        } else if is(&cur, "li") && is(&par, "knownExpansions") {
            push_str_of(&mut self.known, &text);
        }
        if self.stack.len() > 0 {
            let ghost before = lines_view(self.stack@);
            self.stack.pop();
            assert(lines_view(self.stack@) =~= before.drop_last());
        }
    }

    #[verifier::spinoff_prover]
    #[verifier::rlimit(40)]
    fn step(&mut self, ev: &XmlEvent)
        ensures
            final(self)@ == config_step(old(self)@, ev@),
    {
        match ev {
            XmlEvent::Start(name) => {
                let ghost before = lines_view(self.stack@);
                self.stack.push(chars_of(name.as_str()));
                assert(lines_view(self.stack@) =~= before.push(name@));
                self.buf = Vec::new();
            },
            XmlEvent::End => self.end(),
            _ => {
                let t = event_text(ev, false);
                push_all(&mut self.buf, &t);
            },
        }
    }

    fn run(events: &[XmlEvent]) -> (r: ConfigReader)
        ensures
            r@ == config_run(events_view(events@)),
    {
        let ghost ev = events_view(events@);
        let mut reader = ConfigReader::new();
        for i in 0..events.len()
            invariant
                ev == events_view(events@),
                reader@ == config_run(ev.take(i as int)),
        {
            assert(ev.take(i + 1).drop_last() == ev.take(i as int));
            assert(ev[i as int] == events@[i as int]@);
            reader.step(&events[i]);
        }
        assert(ev.take(events@.len() as int) == ev);
        reader
    }
}

/// The active mods (packageIds in load order) listed by ModsConfig.xml's
/// events.
pub fn active_mods_from_events(events: &[XmlEvent]) -> (r: Vec<String>)
    ensures
        strs_view(r@) == config_run(events_view(events@)).active,
{
    ConfigReader::run(events).active
}

/// Reads the active mods (packageIds in load order) from ModsConfig.xml.
pub fn parse_mods_config(content: &str) -> (r: Result<Vec<String>, XmlError>)
    ensures
        match r {
            Ok(v) => xml_read(content@) matches Some(evs) && strs_view(v@) == config_run(evs).active,
            Err(_) => xml_read(content@).is_none(),
        },
{
    match read_xml(content) {
        Ok(events) => Ok(active_mods_from_events(&events)),
        Err(e) => Err(XmlError { cause: e }),
    }
}

/// The game version and known expansions that ModsConfig.xml records, to be
/// kept when the file is written again: `("1.0.0", [])` when the file could
/// not be read (`None`) or not parsed, `"1.0.0"` when it names no version.
pub open spec fn config_extras(content: Option<Seq<char>>) -> (Seq<char>, Seq<Seq<char>>) {
    match content {
        Some(c) => match xml_read(c) {
            Some(evs) => {
                let st = config_run(evs);
                (if st.version.len() == 0 { "1.0.0"@ } else { st.version }, st.known)
            },
            None => ("1.0.0"@, Seq::empty()),
        },
        None => ("1.0.0"@, Seq::empty()),
    }
}

pub fn read_mods_config_extras(content: Option<&str>) -> (r: (String, Vec<String>))
    ensures
        (r.0@, strs_view(r.1@)) == config_extras(match content {
            Some(c) => Some(c@),
            None => None,
        }),
{
    let c = match content {
        Some(c) => c,
        None => {
            return (String::from_str("1.0.0"), Vec::new());
        },
    };
    match read_xml(c) {
        Ok(events) => {
            let reader = ConfigReader::run(&events);
            let version = if reader.version.len() == 0 { String::from_str("1.0.0") } else { string_of(&reader.version) };
            (version, reader.known)
        },
        Err(_) => {
            let known: Vec<String> = Vec::new();
            assert(strs_view(known@) =~= Seq::<Seq<char>>::empty());
            (String::from_str("1.0.0"), known)
        },
    }
}

/// One `<li>` line per identifier.
pub open spec fn li_lines(ids: Seq<Seq<char>>) -> Seq<char>
    decreases ids.len(),
{
    if ids.len() == 0 {
        Seq::empty()
    } else {
        li_lines(ids.drop_last()) + "\t\t<li>"@ + ids.last() + "</li>\n"@
    }
}

pub open spec fn xml_header() -> Seq<char> {
    "<?xml version=\"1.0\" encoding=\"utf-8\"?>\n"@
}

/// A mod list file (the ModsConfigData format that RimWorld and RimSort
/// read): the active mods only.
pub open spec fn mod_list_xml(ids: Seq<Seq<char>>) -> Seq<char> {
    xml_header() + "<ModsConfigData>\n"@ + "\t<version>1.0</version>\n"@ + "\t<activeMods>\n"@ + li_lines(ids)
        + "\t</activeMods>\n"@ + "</ModsConfigData>\n"@
}

/// ModsConfig.xml: the version and known expansions kept, the active mods
/// replaced.
pub open spec fn mods_config_xml(version: Seq<char>, ids: Seq<Seq<char>>, known: Seq<Seq<char>>) -> Seq<char> {
    xml_header() + "<ModsConfigData>\n"@ + "\t<version>"@ + version + "</version>\n"@ + "\t<activeMods>\n"@ + li_lines(ids)
        + "\t</activeMods>\n"@ + (if known.len() > 0 {
        "\t<knownExpansions>\n"@ + li_lines(known) + "\t</knownExpansions>\n"@
    } else {
        Seq::empty()
    }) + "</ModsConfigData>\n"@
}

fn push_li_lines(out: &mut Vec<char>, ids: &[String])
    ensures
        final(out)@ == old(out)@ + li_lines(strs_view(ids@)),
{
    let ghost start = out@;
    let ghost v = strs_view(ids@);
    for i in 0..ids.len()
        invariant
            v == strs_view(ids@),
            out@ == start + li_lines(v.take(i as int)),
    {
        assert(v.take(i + 1).drop_last() == v.take(i as int));
        assert(v[i as int] == ids@[i as int]@);
        push_all(out, &chars_of("\t\t<li>"));
        push_all(out, &chars_of(ids[i].as_str()));
        push_all(out, &chars_of("</li>\n"));
    }
    assert(v.take(ids@.len() as int) == v);
}

/// The text of a mod list file.
pub fn mod_list_text(active_package_ids: &[String]) -> (r: String)
    ensures
        r@ == mod_list_xml(strs_view(active_package_ids@)),
{
    let mut out = chars_of("<?xml version=\"1.0\" encoding=\"utf-8\"?>\n");
    push_all(&mut out, &chars_of("<ModsConfigData>\n"));
    push_all(&mut out, &chars_of("\t<version>1.0</version>\n"));
    push_all(&mut out, &chars_of("\t<activeMods>\n"));
    push_li_lines(&mut out, active_package_ids);
    push_all(&mut out, &chars_of("\t</activeMods>\n"));
    push_all(&mut out, &chars_of("</ModsConfigData>\n"));
    string_of(&out)
}

/// The text of ModsConfig.xml.
pub fn mods_config_text(version: &str, active_package_ids: &[String], known_expansions: &[String]) -> (r: String)
    ensures
        r@ == mods_config_xml(version@, strs_view(active_package_ids@), strs_view(known_expansions@)),
{
    let mut out = chars_of("<?xml version=\"1.0\" encoding=\"utf-8\"?>\n");
    push_all(&mut out, &chars_of("<ModsConfigData>\n"));
    push_all(&mut out, &chars_of("\t<version>"));
    push_all(&mut out, &chars_of(version));
    push_all(&mut out, &chars_of("</version>\n"));
    push_all(&mut out, &chars_of("\t<activeMods>\n"));
    push_li_lines(&mut out, active_package_ids);
    push_all(&mut out, &chars_of("\t</activeMods>\n"));
    if known_expansions.len() > 0 {
        push_all(&mut out, &chars_of("\t<knownExpansions>\n"));
        push_li_lines(&mut out, known_expansions);
        push_all(&mut out, &chars_of("\t</knownExpansions>\n"));
    }
    push_all(&mut out, &chars_of("</ModsConfigData>\n"));
    string_of(&out)
}

} // verus!
