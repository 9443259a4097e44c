//! Browsing the Steam Workshop: the page addresses, and what the data
//! embedded in a browse page says.
//!
//! Steam renders Workshop pages with React; the results are still rendered
//! on the server and embedded in the page as JSON, in the react-query cache
//! (`window.SSR.renderContext`). This module finds that JSON, reads it
//! with serde_json and picks out the listing; it reads the answers of the
//! collection API the same way.

use vstd::prelude::*;
use vstd::utf8::encode_utf8;
use crate::mod_data::parser::after_first;
use crate::text::{chars_of, char_from_ascii, decimal_chars, decimal_text, find, first_occurrence, has_char, parse_u64, parse_u64_chars, push_all, slice_vec, string_of};
use crate::text::{lemma_first_occurrence_valid, occurs_at};
use crate::steam::json::{array_of, as_text, as_u64, at, get, is_object, element_of, json_of, key_of, parse_json, read_string_literal, str_of, string_literal_of, u64_of, Json};

verus! {

/// A mod found on the Workshop.
#[derive(Debug, Clone)]
pub struct WorkshopItem {
    pub id: u64,
    pub title: String,
    pub author: String,
    pub preview_url: String,
}

/// A collection found on the Workshop.
#[derive(Debug, Clone)]
pub struct CollectionItem {
    pub id: u64,
    pub title: String,
    pub author: String,
    pub preview_url: String,
}

/// The order of a Workshop listing.
#[derive(Debug, Clone, Copy, PartialEq, Eq, Structural)]
pub enum SortOrder {
    Trending,
    Latest,
    MostSubscribed,
    RecentlyUpdated,
}

impl SortOrder {
    pub open spec fn param_spec(self) -> Seq<char> {
        match self {
            SortOrder::Trending => "trend"@,
            SortOrder::Latest => "mostrecent"@,
            SortOrder::MostSubscribed => "totaluniquesubscriptions"@,
            SortOrder::RecentlyUpdated => "lastupdated"@,
        }
    }

    /// The value of `browsesort` in the page address.
    pub fn as_param(self) -> (r: &'static str)
        ensures
            r@ == self.param_spec(),
    {
        match self {
            SortOrder::Trending => "trend",
            SortOrder::Latest => "mostrecent",
            SortOrder::MostSubscribed => "totaluniquesubscriptions",
            SortOrder::RecentlyUpdated => "lastupdated",
        }
    }

    pub open spec fn label_spec(self) -> Seq<char> {
        match self {
            SortOrder::Trending => "Популярные"@,
            SortOrder::Latest => "Новые"@,
            SortOrder::MostSubscribed => "По подпискам"@,
            SortOrder::RecentlyUpdated => "Обновлённые"@,
        }
    }

    /// The name shown for the order.
    pub fn label(self) -> (r: &'static str)
        ensures
            r@ == self.label_spec(),
    {
        match self {
            SortOrder::Trending => "Популярные",
            SortOrder::Latest => "Новые",
            SortOrder::MostSubscribed => "По подпискам",
            SortOrder::RecentlyUpdated => "Обновлённые",
        }
    }

    /// Every order, as listed in the UI.
    pub fn all() -> (r: [SortOrder; 4])
        ensures
            r@ == seq![SortOrder::Trending, SortOrder::Latest, SortOrder::MostSubscribed, SortOrder::RecentlyUpdated],
    {
        [SortOrder::Trending, SortOrder::Latest, SortOrder::MostSubscribed, SortOrder::RecentlyUpdated]
    }
}

// ── Addresses ───────────────────────────────────────────────────────────────

/// The uppercase hexadecimal digit for `d` (below sixteen).
pub open spec fn hex_digit(d: u8) -> char {
    seq!['0', '1', '2', '3', '4', '5', '6', '7', '8', '9', 'A', 'B', 'C', 'D', 'E', 'F'][d as int]
}

/// Bytes that stand for themselves in a query.
pub open spec fn unreserved(b: u8) -> bool {
    (65 <= b <= 90) || (97 <= b <= 122) || (48 <= b <= 57) || b == 45 || b == 95 || b == 46 || b == 126
}

/// One byte in a query: a space as `+`, letters, digits and `-_.~` as
/// they are, anything else as `%XX`.
pub open spec fn encoded_byte(b: u8) -> Seq<char> {
    if b == 32 {
        seq!['+']
    } else if unreserved(b) {
        seq![b as char]
    } else {
        seq!['%', hex_digit(b / 16), hex_digit(b % 16)]
    }
}

/// The bytes encoded for a query.
pub open spec fn url_encoded(bs: Seq<u8>) -> Seq<char>
    decreases bs.len(),
{
    if bs.len() == 0 {
        Seq::empty()
    } else {
        url_encoded(bs.drop_last()) + encoded_byte(bs.last())
    }
}

fn hex_of(d: u8) -> (c: char)
    requires
        d < 16,
    ensures
        c == hex_digit(d),
{
    let digits = ['0', '1', '2', '3', '4', '5', '6', '7', '8', '9', 'A', 'B', 'C', 'D', 'E', 'F'];
    assert(digits@ == seq!['0', '1', '2', '3', '4', '5', '6', '7', '8', '9', 'A', 'B', 'C', 'D', 'E', 'F']);
    digits[d as usize]
}

/// The text encoded for a query string, byte by byte of its UTF-8.
pub fn url_encode(s: &str) -> (r: String)
    ensures
        r@ == url_encoded(encode_utf8(s@)),
{
    let bytes = s.as_bytes();
    let mut out: Vec<char> = Vec::new();
    for k in 0..bytes.len()
        invariant
            bytes@ == encode_utf8(s@),
            out@ == url_encoded(bytes@.take(k as int)),
    {
        let b = bytes[k];
        assert(bytes@.take(k + 1).drop_last() == bytes@.take(k as int));
        assert(bytes@.take(k + 1).last() == b);
        let ghost before = out@;
        if b == 32 {
            out.push('+');
        } else if (65 <= b && b <= 90) || (97 <= b && b <= 122) || (48 <= b && b <= 57) || b == 45 || b == 95 || b == 46 || b == 126 {
            let ch = char_from_ascii(b);
            assert(ch == (b as char));
            out.push(ch);
        } else {
            out.push('%');
            out.push(hex_of(b / 16));
            out.push(hex_of(b % 16));
        }
        assert(out@ == before + encoded_byte(b));
    }
    assert(bytes@.take(bytes@.len() as int) == bytes@);
    string_of(&out)
}

/// A preview address turned into that of a thumbnail resized by Steam's
/// CDN: full previews are megabyte PNGs, the thumbnail some kilobytes.
pub open spec fn thumb_spec(raw: Seq<char>) -> Seq<char> {
    if raw.len() == 0 {
        Seq::empty()
    } else {
        raw + seq![if raw.contains('?') { '&' } else { '?' }] + "imw=256&imh=256&ima=fit&impolicy=Letterbox"@
    }
}

pub fn thumb_url(raw: &str) -> (r: String)
    ensures
        r@ == thumb_spec(raw@),
{
    let c = chars_of(raw);
    if c.len() == 0 {
        return String::new();
    }
    let mut out = crate::text::slice_vec(&c, 0, c.len());
    assert(out@ == c@);
    out.push(if has_char(&c, '?') { '&' } else { '?' });
    push_all(&mut out, &chars_of("imw=256&imh=256&ima=fit&impolicy=Letterbox"));
    string_of(&out)
}

} // verus!

verus! {

/// The address of a page of Workshop mods.
pub open spec fn workshop_page_url_spec(query: Seq<char>, page: u32, sort: SortOrder) -> Seq<char> {
    "https://steamcommunity.com/workshop/browse/?appid=294100&searchtext="@ + url_encoded(encode_utf8(query))
        + "&section=readytouseitems&browsesort="@ + sort.param_spec() + "&p="@ + decimal_text(page as nat)
}

/// The address of a page of Workshop collections; an empty query searches
/// nothing.
pub open spec fn collections_page_url_spec(query: Seq<char>, page: u32, sort: SortOrder) -> Seq<char> {
    "https://steamcommunity.com/workshop/browse/?appid=294100"@ + (if query.len() == 0 {
        Seq::empty()
    } else {
        "&searchtext="@ + url_encoded(encode_utf8(query))
    }) + "&section=collections&browsesort="@ + sort.param_spec() + "&p="@ + decimal_text(page as nat)
}

pub fn workshop_page_url(query: &str, page: u32, sort: SortOrder) -> (r: String)
    ensures
        r@ == workshop_page_url_spec(query@, page, sort),
{
    let mut out = chars_of("https://steamcommunity.com/workshop/browse/?appid=294100&searchtext=");
    push_all(&mut out, &chars_of(url_encode(query).as_str()));
    push_all(&mut out, &chars_of("&section=readytouseitems&browsesort="));
    push_all(&mut out, &chars_of(sort.as_param()));
    push_all(&mut out, &chars_of("&p="));
    push_all(&mut out, &decimal_chars(page as u64));
    string_of(&out)
}

pub fn collections_page_url(query: &str, page: u32, sort: SortOrder) -> (r: String)
    ensures
        r@ == collections_page_url_spec(query@, page, sort),
{
    let mut out = chars_of("https://steamcommunity.com/workshop/browse/?appid=294100");
    let q = chars_of(query);
    if q.len() > 0 {
        push_all(&mut out, &chars_of("&searchtext="));
        push_all(&mut out, &chars_of(url_encode(query).as_str()));
    }
    push_all(&mut out, &chars_of("&section=collections&browsesort="));
    push_all(&mut out, &chars_of(sort.as_param()));
    push_all(&mut out, &chars_of("&p="));
    push_all(&mut out, &decimal_chars(page as u64));
    string_of(&out)
}

// ── What a browse page holds ────────────────────────────────────────────────

/// One result of a listing, as the page's data has it; a field that is
/// missing or not a string is `None`.
#[derive(Debug, Clone)]
pub struct BrowseResult {
    pub publishedfileid: Option<String>,
    pub title: Option<String>,
    pub creator: Option<String>,
    pub preview_url: Option<String>,
}

/// The listing data of a browse page.
#[derive(Debug, Clone)]
pub struct BrowseData {
    /// `results`, where it is an array.
    pub results: Option<Vec<BrowseResult>>,
    /// `(steamid, persona_name)` of each creator in
    /// `creator_player_link_details` that has both.
    pub authors: Vec<(String, String)>,
    /// `current_page`, where it is an unsigned number.
    pub current_page: Option<u64>,
    /// `total_pages`, where it is an unsigned number.
    pub total_pages: Option<u64>,
}

pub open spec fn text_or_empty(o: Option<String>) -> Seq<char> {
    match o {
        Some(s) => s@,
        None => Seq::empty(),
    }
}

/// The name last given for a creator.
pub open spec fn author_of(authors: Seq<(String, String)>, creator: Seq<char>) -> Seq<char>
    decreases authors.len(),
{
    if authors.len() == 0 {
        Seq::empty()
    } else if authors.last().0@ == creator {
        authors.last().1@
    } else {
        author_of(authors.drop_last(), creator)
    }
}

/// A result as an item: (id, title, author, thumbnail), or none where its
/// id is not a number.
pub open spec fn item_of(authors: Seq<(String, String)>, r: BrowseResult) -> Option<(u64, Seq<char>, Seq<char>, Seq<char>)> {
    match r.publishedfileid {
        None => None,
        Some(p) => match parse_u64(p@) {
            None => None,
            Some(id) => Some((id, text_or_empty(r.title), author_of(authors, text_or_empty(r.creator)), thumb_spec(text_or_empty(r.preview_url)))),
        },
    }
}

/// The items of a listing, in order.
pub open spec fn items_from(authors: Seq<(String, String)>, rs: Seq<BrowseResult>) -> Seq<(u64, Seq<char>, Seq<char>, Seq<char>)>
    decreases rs.len(),
{
    if rs.len() == 0 {
        Seq::empty()
    } else {
        let p = items_from(authors, rs.drop_last());
        match item_of(authors, rs.last()) {
            Some(it) => p.push(it),
            None => p,
        }
    }
}

pub open spec fn listing_items(data: BrowseData) -> Seq<(u64, Seq<char>, Seq<char>, Seq<char>)> {
    match data.results {
        Some(rs) => items_from(data.authors@, rs@),
        None => Seq::empty(),
    }
}

pub open spec fn workshop_item_view(i: WorkshopItem) -> (u64, Seq<char>, Seq<char>, Seq<char>) {
    (i.id, i.title@, i.author@, i.preview_url@)
}

pub open spec fn collection_item_view(i: CollectionItem) -> (u64, Seq<char>, Seq<char>, Seq<char>) {
    (i.id, i.title@, i.author@, i.preview_url@)
}

fn text_of(o: &Option<String>) -> (r: Vec<char>)
    ensures
        r@ == text_or_empty(*o),
{
    match o {
        Some(s) => chars_of(s.as_str()),
        None => Vec::new(),
    }
}

fn lookup_author(authors: &Vec<(String, String)>, creator: &Vec<char>) -> (r: Vec<char>)
    ensures
        r@ == author_of(authors@, creator@),
{
    let mut k = authors.len();
    assert(authors@.take(k as int) == authors@);
    while k > 0
        invariant
            k <= authors@.len(),
            author_of(authors@, creator@) == author_of(authors@.take(k as int), creator@),
        decreases k,
    {
        assert(authors@.take(k as int).drop_last() == authors@.take(k - 1));
        assert(authors@.take(k as int).last() == authors@[k - 1]);
        let key = chars_of(authors[k - 1].0.as_str());
        if crate::log_analysis::attribution::same_chars(&key, creator) {
            return chars_of(authors[k - 1].1.as_str());
        }
        k = k - 1;
    }
    Vec::new()
}

fn item_from(authors: &Vec<(String, String)>, r: &BrowseResult) -> (out: Option<WorkshopItem>)
    ensures
        match out {
            Some(i) => item_of(authors@, *r) == Some(workshop_item_view(i)),
            None => item_of(authors@, *r) is None,
        },
{
    let p = match &r.publishedfileid {
        Some(p) => p,
        None => return None,
    };
    let id = match parse_u64_chars(&chars_of(p.as_str())) {
        Some(id) => id,
        None => return None,
    };
    let title = string_of(&text_of(&r.title));
    let author = string_of(&lookup_author(authors, &text_of(&r.creator)));
    let preview = thumb_url(string_of(&text_of(&r.preview_url)).as_str());
    Some(WorkshopItem { id, title, author, preview_url: preview })
}

/// The mods of a listing: results whose id is a number, with their title,
/// author (by the creator's id) and thumbnail.
pub fn workshop_items(data: &BrowseData) -> (r: Vec<WorkshopItem>)
    ensures
        r@.map_values(|i: WorkshopItem| workshop_item_view(i)) == listing_items(*data),
{
    let mut out: Vec<WorkshopItem> = Vec::new();
    match &data.results {
        None => {},
        Some(rs) => {
            for k in 0..rs.len()
                invariant
                    out@.map_values(|i: WorkshopItem| workshop_item_view(i)) == items_from(data.authors@, rs@.take(k as int)),
            {
                assert(rs@.take(k + 1).drop_last() == rs@.take(k as int));
                assert(rs@.take(k + 1).last() == rs@[k as int]);
                if let Some(it) = item_from(&data.authors, &rs[k]) {
                    let ghost before = out@.map_values(|i: WorkshopItem| workshop_item_view(i));
                    let ghost v = workshop_item_view(it);
                    out.push(it);
                    assert(out@.map_values(|i: WorkshopItem| workshop_item_view(i)) == before.push(v));
                }
            }
            assert(rs@.take(rs@.len() as int) == rs@);
        },
    }
    out
}

/// The collections of a listing, read as [`workshop_items`] reads mods.
pub fn collection_items(data: &BrowseData) -> (r: Vec<CollectionItem>)
    ensures
        r@.map_values(|i: CollectionItem| collection_item_view(i)) == listing_items(*data),
{
    let items = workshop_items(data);
    let mut out: Vec<CollectionItem> = Vec::new();
    let ghost iv = items@.map_values(|i: WorkshopItem| workshop_item_view(i));
    for k in 0..items.len()
        invariant
            iv == items@.map_values(|i: WorkshopItem| workshop_item_view(i)),
            out@.map_values(|i: CollectionItem| collection_item_view(i)) == iv.take(k as int),
    {
        let w = &items[k];
        let c = CollectionItem {
            id: w.id,
            title: string_of(&chars_of(w.title.as_str())),
            author: string_of(&chars_of(w.author.as_str())),
            preview_url: string_of(&chars_of(w.preview_url.as_str())),
        };
        let ghost before = out@.map_values(|i: CollectionItem| collection_item_view(i));
        let ghost v = collection_item_view(c);
        out.push(c);
        assert(out@.map_values(|i: CollectionItem| collection_item_view(i)) == before.push(v));
        assert(iv.take(k + 1) == iv.take(k as int).push(iv[k as int]));
    }
    assert(iv.take(items@.len() as int) == iv);
    out
}

/// Whether the listing has another page: page numbers missing count as 1.
pub fn has_next_page(data: &BrowseData) -> (r: bool)
    ensures
        r == ((match data.current_page { Some(c) => c, None => 1 }) < (match data.total_pages { Some(t) => t, None => 1 })),
{
    let cur = match data.current_page {
        Some(c) => c,
        None => 1,
    };
    let total = match data.total_pages {
        Some(t) => t,
        None => 1,
    };
    cur < total
}

/// One entry of the details of a collection's items: its id where it is a
/// string, its title where it is one.
#[derive(Debug, Clone)]
pub struct FileDetail {
    pub publishedfileid: Option<String>,
    pub title: Option<String>,
    pub preview_url: Option<String>,
}

/// The title of a collection and its mods, from the details of the
/// collection itself and of its items: details without a numeric id are
/// skipped; the collection's own entry gives the title (`Collection` where
/// it has none) and is no item; items have no author.
pub open spec fn collection_from_spec(collection_id: u64, details: Seq<FileDetail>) -> (Seq<char>, Seq<(u64, Seq<char>, Seq<char>, Seq<char>)>)
    decreases details.len(),
{
    if details.len() == 0 {
        ("Collection"@, Seq::empty())
    } else {
        let (t, items) = collection_from_spec(collection_id, details.drop_last());
        let d = details.last();
        match d.publishedfileid {
            None => (t, items),
            Some(p) => match parse_u64(p@) {
                None => (t, items),
                Some(id) => if id == collection_id {
                    (if text_or_empty(d.title).len() > 0 { text_or_empty(d.title) } else { t }, items)
                } else {
                    (t, items.push((id, text_or_empty(d.title), Seq::empty(), thumb_spec(text_or_empty(d.preview_url)))))
                },
            },
        }
    }
}

pub fn collection_from_details(collection_id: u64, details: &Vec<FileDetail>) -> (r: (String, Vec<WorkshopItem>))
    ensures
        (r.0@, r.1@.map_values(|i: WorkshopItem| workshop_item_view(i))) == collection_from_spec(collection_id, details@),
{
    let mut title = chars_of("Collection");
    let mut out: Vec<WorkshopItem> = Vec::new();
    for k in 0..details.len()
        invariant
            (title@, out@.map_values(|i: WorkshopItem| workshop_item_view(i))) == collection_from_spec(collection_id, details@.take(k as int)),
    {
        assert(details@.take(k + 1).drop_last() == details@.take(k as int));
        assert(details@.take(k + 1).last() == details@[k as int]);
        let d = &details[k];
        if let Some(p) = &d.publishedfileid {
            if let Some(id) = parse_u64_chars(&chars_of(p.as_str())) {
                let t = text_of(&d.title);
                if id == collection_id {
                    if t.len() > 0 {
                        title = t;
                    }
                } else {
                    let it = WorkshopItem {
                        id,
                        title: string_of(&t),
                        author: String::new(),
                        preview_url: thumb_url(string_of(&text_of(&d.preview_url)).as_str()),
                    };
                    let ghost before = out@.map_values(|i: WorkshopItem| workshop_item_view(i));
                    let ghost v = workshop_item_view(it);
                    out.push(it);
                    assert(out@.map_values(|i: WorkshopItem| workshop_item_view(i)) == before.push(v));
                }
            }
        }
    }
    assert(details@.take(details@.len() as int) == details@);
    (string_of(&title), out)
}

// ── Requests ────────────────────────────────────────────────────────────────

/// Where the page embeds its data: the script text after
/// `window.SSR.renderContext=JSON.parse(`, which begins with a JSON string
/// literal holding the render context.
pub open spec fn render_context_spec(html: Seq<char>) -> Option<Seq<char>> {
    after_first(html, "window.SSR.renderContext=JSON.parse("@)
}

pub fn render_context(html: &str) -> (r: Option<String>)
    ensures
        match r {
            Some(t) => render_context_spec(html@) == Some(t@),
            None => render_context_spec(html@).is_none(),
        },
{
    let cs = chars_of(html);
    let marker = chars_of("window.SSR.renderContext=JSON.parse(");
    proof {
        lemma_first_occurrence_valid(cs@, marker@);
    }
    match find(&cs, &marker) {
        Some(i) => {
            assert(occurs_at(cs@, marker@, i as int));
            let n = cs.len();
            assert(i + marker@.len() <= n);
            let rest = slice_vec(&cs, i + marker.len(), cs.len());
            assert(rest@ == cs@.skip(i + marker@.len()));
            Some(string_of(&rest))
        },
        None => None,
    }
}

/// The ids of a collection's children: those that are strings holding a
/// number.
pub open spec fn child_ids_spec(children: Seq<Option<String>>) -> Seq<u64>
    decreases children.len(),
{
    if children.len() == 0 {
        Seq::empty()
    } else {
        child_ids_spec(children.drop_last()) + match children.last() {
            Some(s) => match parse_u64(s@) {
                Some(id) => seq![id],
                None => Seq::empty(),
            },
            None => Seq::empty(),
        }
    }
}

pub fn child_ids(children: &[Option<String>]) -> (r: Vec<u64>)
    ensures
        r@ == child_ids_spec(children@),
{
    let mut out: Vec<u64> = Vec::new();
    for k in 0..children.len()
        invariant
            out@ == child_ids_spec(children@.take(k as int)),
    {
        assert(children@.take(k + 1).drop_last() == children@.take(k as int));
        assert(children@.take(k + 1).last() == children@[k as int]);
        if let Some(s) = &children[k] {
            if let Some(id) = parse_u64_chars(&chars_of(s.as_str())) {
                out.push(id);
            }
        }
    }
    assert(children@.take(children@.len() as int) == children@);
    out
}

/// The form asking for the children of a collection.
pub open spec fn collection_request_spec(collection_id: u64) -> Seq<char> {
    "collectioncount=1&publishedfileids[0]="@ + decimal_text(collection_id as nat)
}

pub fn collection_request_body(collection_id: u64) -> (r: String)
    ensures
        r@ == collection_request_spec(collection_id),
{
    let mut out = chars_of("collectioncount=1&publishedfileids[0]=");
    push_all(&mut out, &decimal_chars(collection_id));
    string_of(&out)
}

/// `&publishedfileids[i]=id` for each id, numbered from 1.
pub open spec fn numbered_ids(ids: Seq<u64>) -> Seq<char>
    decreases ids.len(),
{
    if ids.len() == 0 {
        Seq::empty()
    } else {
        numbered_ids(ids.drop_last()) + "&publishedfileids["@ + decimal_text(ids.len()) + "]="@ + decimal_text(ids.last() as nat)
    }
}

/// The form asking for the details of a collection (first, for its title)
/// and of its items.
pub open spec fn details_request_spec(collection_id: u64, ids: Seq<u64>) -> Seq<char> {
    "itemcount="@ + decimal_text(ids.len() + 1) + "&publishedfileids[0]="@ + decimal_text(collection_id as nat) + numbered_ids(ids)
}

pub fn details_request_body(collection_id: u64, ids: &[u64]) -> (r: String)
    requires
        ids@.len() < u64::MAX,
    ensures
        r@ == details_request_spec(collection_id, ids@),
{
    let mut out = chars_of("itemcount=");
    push_all(&mut out, &decimal_chars(ids.len() as u64 + 1));
    push_all(&mut out, &chars_of("&publishedfileids[0]="));
    push_all(&mut out, &decimal_chars(collection_id));
    let ghost head = out@;
    for i in 0..ids.len()
        invariant
            ids@.len() < u64::MAX,
            out@ == head + numbered_ids(ids@.take(i as int)),
    {
        assert(ids@.take(i + 1).drop_last() == ids@.take(i as int));
        push_all(&mut out, &chars_of("&publishedfileids["));
        push_all(&mut out, &decimal_chars(i as u64 + 1));
        push_all(&mut out, &chars_of("]="));
        push_all(&mut out, &decimal_chars(ids[i]));
    }
    assert(ids@.take(ids@.len() as int) == ids@);
    string_of(&out)
}

// ── Reading the JSON ────────────────────────────────────────────────────────

/// Why the data could not be read out of what Steam sent.
#[derive(Debug, Clone, Copy, PartialEq, Eq, Structural)]
pub enum DataError {
    /// The page embeds no render context.
    NoRenderContext,
    /// The render context is no JSON string literal.
    BadRenderContext,
    /// A document that should be JSON is not.
    BadJson,
    /// The render context has no `queryData` string.
    NoQueryData,
    /// The query data has no `queries` array.
    NoQueries,
    /// No `workshop_browse` query with an object as its data.
    NotFound,
    /// The collection has no `children` array: it is empty or unavailable.
    NoChildren,
    /// The answer has no `publishedfiledetails` array.
    NoDetails,
}

/// A string field as text: where it is a string.
pub open spec fn opt_text(o: Option<String>) -> Option<Seq<char>> {
    match o {
        Some(s) => Some(s@),
        None => None,
    }
}

/// A listing result as values: id, title, creator, thumbnail.
pub open spec fn result_view(r: BrowseResult) -> (Option<Seq<char>>, Option<Seq<char>>, Option<Seq<char>>, Option<Seq<char>>) {
    (opt_text(r.publishedfileid), opt_text(r.title), opt_text(r.creator), opt_text(r.preview_url))
}

/// The listing data as values.
pub open spec fn browse_view(d: BrowseData) -> (
    Option<Seq<(Option<Seq<char>>, Option<Seq<char>>, Option<Seq<char>>, Option<Seq<char>>)>>,
    Seq<(Seq<char>, Seq<char>)>,
    Option<u64>,
    Option<u64>,
) {
    (
        match d.results {
            Some(rs) => Some(rs@.map_values(|r: BrowseResult| result_view(r))),
            None => None,
        },
        d.authors@.map_values(|a: (String, String)| (a.0@, a.1@)),
        d.current_page,
        d.total_pages,
    )
}

/// A result of the listing's JSON: its string fields.
pub open spec fn result_in(r: Json) -> (Option<Seq<char>>, Option<Seq<char>>, Option<Seq<char>>, Option<Seq<char>>) {
    (
        str_of(key_of(Some(r), "publishedfileid"@)),
        str_of(key_of(Some(r), "title"@)),
        str_of(key_of(Some(r), "creator"@)),
        str_of(key_of(Some(r), "preview_url"@)),
    )
}

/// `(steamid, persona_name)` of the `public_data` of each creator that has
/// both as strings, in order.
pub open spec fn authors_in(ps: Seq<Json>) -> Seq<(Seq<char>, Seq<char>)>
    decreases ps.len(),
{
    if ps.len() == 0 {
        Seq::empty()
    } else {
        let prev = authors_in(ps.drop_last());
        let pd = key_of(Some(ps.last()), "public_data"@);
        match (str_of(key_of(pd, "steamid"@)), str_of(key_of(pd, "persona_name"@))) {
            (Some(id), Some(name)) => prev.push((id, name)),
            _ => prev,
        }
    }
}

/// The listing data that the `data` of a `workshop_browse` query holds.
pub open spec fn browse_in(data: Json) -> (
    Option<Seq<(Option<Seq<char>>, Option<Seq<char>>, Option<Seq<char>>, Option<Seq<char>>)>>,
    Seq<(Seq<char>, Seq<char>)>,
    Option<u64>,
    Option<u64>,
) {
    (
        match array_of(key_of(Some(data), "results"@)) {
            Some(rs) => Some(rs.map_values(|r: Json| result_in(r))),
            None => None,
        },
        match array_of(key_of(Some(data), "creator_player_link_details"@)) {
            Some(ps) => authors_in(ps),
            None => Seq::empty(),
        },
        u64_of(key_of(Some(data), "current_page"@)),
        u64_of(key_of(Some(data), "total_pages"@)),
    )
}

/// The data of the first query whose `queryKey[0]` is `workshop_browse`
/// and whose `state.data` is an object.
pub open spec fn browse_query(qs: Seq<Json>) -> Option<Json>
    decreases qs.len(),
{
    if qs.len() == 0 {
        None
    } else {
        let q = Some(qs[0]);
        let data = key_of(key_of(q, "state"@), "data"@);
        if str_of(element_of(key_of(q, "queryKey"@), 0)) == Some("workshop_browse"@) && is_object(data) {
            data
        } else {
            browse_query(qs.drop_first())
        }
    }
}

/// A read of the listing data as values.
pub open spec fn browse_result(r: Result<BrowseData, DataError>) -> Result<(
    Option<Seq<(Option<Seq<char>>, Option<Seq<char>>, Option<Seq<char>>, Option<Seq<char>>)>>,
    Seq<(Seq<char>, Seq<char>)>,
    Option<u64>,
    Option<u64>,
), DataError> {
    match r {
        Ok(d) => Ok(browse_view(d)),
        Err(e) => Err(e),
    }
}

/// The listing data in the react-query data `q`.
pub open spec fn browse_from_queries(q: Json) -> Result<(
    Option<Seq<(Option<Seq<char>>, Option<Seq<char>>, Option<Seq<char>>, Option<Seq<char>>)>>,
    Seq<(Seq<char>, Seq<char>)>,
    Option<u64>,
    Option<u64>,
), DataError> {
    match array_of(key_of(Some(q), "queries"@)) {
        None => Err(DataError::NoQueries),
        Some(qs) => match browse_query(qs) {
            Some(d) => Ok(browse_in(d)),
            None => Err(DataError::NotFound),
        },
    }
}

/// The listing data in the render context `ctx`: its `queryData` is a
/// string holding the react-query data as JSON.
pub open spec fn browse_from_context(ctx: Json) -> Result<(
    Option<Seq<(Option<Seq<char>>, Option<Seq<char>>, Option<Seq<char>>, Option<Seq<char>>)>>,
    Seq<(Seq<char>, Seq<char>)>,
    Option<u64>,
    Option<u64>,
), DataError> {
    match str_of(key_of(Some(ctx), "queryData"@)) {
        None => Err(DataError::NoQueryData),
        Some(text) => match json_of(text) {
            None => Err(DataError::BadJson),
            Some(q) => browse_from_queries(q),
        },
    }
}

/// The listing data of a browse page: the render context is a JSON string
/// literal holding a JSON document.
pub open spec fn browse_spec(html: Seq<char>) -> Result<(
    Option<Seq<(Option<Seq<char>>, Option<Seq<char>>, Option<Seq<char>>, Option<Seq<char>>)>>,
    Seq<(Seq<char>, Seq<char>)>,
    Option<u64>,
    Option<u64>,
), DataError> {
    match render_context_spec(html) {
        None => Err(DataError::NoRenderContext),
        Some(rest) => match string_literal_of(rest) {
            None => Err(DataError::BadRenderContext),
            Some(inner) => match json_of(inner) {
                None => Err(DataError::BadJson),
                Some(ctx) => browse_from_context(ctx),
            },
        },
    }
}

/// A string field of a JSON object.
fn text_field(j: &Json, key: &str) -> (r: Option<String>)
    ensures
        opt_text(r) == str_of(key_of(Some(*j), key@)),
{
    as_text(get(Some(j), key))
}

/// The listing data of the `data` of a `workshop_browse` query.
pub fn browse_data(data: &Json) -> (r: BrowseData)
    ensures
        browse_view(r) == browse_in(*data),
{
    let results = match get(Some(data), "results") {
        Some(Json::Array(a)) => {
            let mut out: Vec<BrowseResult> = Vec::new();
            for k in 0..a.len()
                invariant
                    out@.map_values(|r: BrowseResult| result_view(r)) == a@.take(k as int).map_values(|r: Json| result_in(r)),
            {
                let r = &a[k];
                let br = BrowseResult {
                    publishedfileid: text_field(r, "publishedfileid"),
                    title: text_field(r, "title"),
                    creator: text_field(r, "creator"),
                    preview_url: text_field(r, "preview_url"),
                };
                let ghost before = out@.map_values(|r: BrowseResult| result_view(r));
                let ghost v = result_view(br);
                out.push(br);
                assert(out@.map_values(|r: BrowseResult| result_view(r)) == before.push(v));
                assert(a@.take(k + 1).map_values(|r: Json| result_in(r)) == a@.take(k as int).map_values(|r: Json| result_in(r)).push(result_in(a@[k as int])));
            }
            assert(a@.take(a@.len() as int) == a@);
            Some(out)
        },
        _ => None,
    };
    let mut authors: Vec<(String, String)> = Vec::new();
    match get(Some(data), "creator_player_link_details") {
        Some(Json::Array(ps)) => {
            for k in 0..ps.len()
                invariant
                    authors@.map_values(|a: (String, String)| (a.0@, a.1@)) == authors_in(ps@.take(k as int)),
            {
                assert(ps@.take(k + 1).drop_last() == ps@.take(k as int));
                assert(ps@.take(k + 1).last() == ps@[k as int]);
                let pd = get(Some(&ps[k]), "public_data");
                let id = as_text(get(pd, "steamid"));
                let name = as_text(get(pd, "persona_name"));
                match (id, name) {
                    (Some(i), Some(n)) => {
                        let ghost before = authors@.map_values(|a: (String, String)| (a.0@, a.1@));
                        let ghost v = (i@, n@);
                        authors.push((i, n));
                        assert(authors@.map_values(|a: (String, String)| (a.0@, a.1@)) == before.push(v));
                    },
                    _ => {},
                }
            }
            assert(ps@.take(ps@.len() as int) == ps@);
        },
        _ => {
            assert(authors@.map_values(|a: (String, String)| (a.0@, a.1@)) =~= Seq::<(Seq<char>, Seq<char>)>::empty());
        },
    }
    BrowseData {
        results,
        authors,
        current_page: as_u64(get(Some(data), "current_page")),
        total_pages: as_u64(get(Some(data), "total_pages")),
    }
}

/// The listing data in the react-query data `q` (the parsed `queryData` of
/// a browse page).
pub fn browse_in_queries(q: &Json) -> (r: Result<BrowseData, DataError>)
    ensures
        browse_result(r) == browse_from_queries(*q),
{
    let qs = match get(Some(q), "queries") {
        Some(Json::Array(qs)) => qs,
        _ => return Err(DataError::NoQueries),
    };
    let ghost all = qs@;
    assert(all.skip(0) == all);
    for i in 0..qs.len()
        invariant
            all == qs@,
            browse_query(all) == browse_query(all.skip(i as int)),
    {
        assert(all.skip(i as int)[0] == all[i as int]);
        assert(all.skip(i as int).drop_first() == all.skip(i + 1));
        let qi = Some(&qs[i]);
        let key = as_text(at(get(qi, "queryKey"), 0));
        let data = get(get(qi, "state"), "data");
        let wanted = match &key {
            Some(k) => crate::text::str_eq(k.as_str(), "workshop_browse"),
            None => false,
        };
        proof {
            reveal_strlit("workshop_browse");
        }
        match data {
            Some(d) => {
                if wanted && matches!(d, Json::Object(_)) {
                    return Ok(browse_data(d));
                }
            },
            None => {},
        }
    }
    assert(all.skip(qs.len() as int) =~= Seq::<Json>::empty());
    Err(DataError::NotFound)
}

/// The listing data in the render context `ctx` of a browse page.
pub fn browse_in_context(ctx: &Json) -> (r: Result<BrowseData, DataError>)
    ensures
        browse_result(r) == browse_from_context(*ctx),
{
    let text = match as_text(get(Some(ctx), "queryData")) {
        Some(t) => t,
        None => return Err(DataError::NoQueryData),
    };
    match parse_json(text.as_str()) {
        Some(q) => browse_in_queries(&q),
        None => Err(DataError::BadJson),
    }
}

/// The listing data embedded in a browse page.
pub fn browse_data_of(html: &str) -> (r: Result<BrowseData, DataError>)
    ensures
        browse_result(r) == browse_spec(html@),
{
    let rest = match render_context(html) {
        Some(r) => r,
        None => return Err(DataError::NoRenderContext),
    };
    let inner = match read_string_literal(rest.as_str()) {
        Some(i) => i,
        None => return Err(DataError::BadRenderContext),
    };
    match parse_json(inner.as_str()) {
        Some(ctx) => browse_in_context(&ctx),
        None => Err(DataError::BadJson),
    }
}

/// The children listed in an answer of `GetCollectionDetails`:
/// `response.collectiondetails[0].children`, each child's
/// `publishedfileid` where it is a string.
pub open spec fn children_in(j: Json) -> Option<Seq<Option<Seq<char>>>> {
    match array_of(key_of(element_of(key_of(key_of(Some(j), "response"@), "collectiondetails"@), 0), "children"@)) {
        Some(cs) => Some(cs.map_values(|c: Json| str_of(key_of(Some(c), "publishedfileid"@)))),
        None => None,
    }
}

/// The children listed in the answer text of `GetCollectionDetails`.
pub open spec fn children_spec(text: Seq<char>) -> Result<Seq<Option<Seq<char>>>, DataError> {
    match json_of(text) {
        None => Err(DataError::BadJson),
        Some(j) => match children_in(j) {
            Some(c) => Ok(c),
            None => Err(DataError::NoChildren),
        },
    }
}

/// The entries of an answer of `GetPublishedFileDetails`:
/// `response.publishedfiledetails`, each entry's id, title and thumbnail
/// where they are strings.
pub open spec fn details_in(j: Json) -> Option<Seq<(Option<Seq<char>>, Option<Seq<char>>, Option<Seq<char>>)>> {
    match array_of(key_of(key_of(Some(j), "response"@), "publishedfiledetails"@)) {
        Some(ds) => Some(ds.map_values(|d: Json| (
            str_of(key_of(Some(d), "publishedfileid"@)),
            str_of(key_of(Some(d), "title"@)),
            str_of(key_of(Some(d), "preview_url"@)),
        ))),
        None => None,
    }
}

/// The entries in the answer text of `GetPublishedFileDetails`.
pub open spec fn details_spec(text: Seq<char>) -> Result<Seq<(Option<Seq<char>>, Option<Seq<char>>, Option<Seq<char>>)>, DataError> {
    match json_of(text) {
        None => Err(DataError::BadJson),
        Some(j) => match details_in(j) {
            Some(d) => Ok(d),
            None => Err(DataError::NoDetails),
        },
    }
}

/// A detail entry as values.
pub open spec fn detail_view(d: FileDetail) -> (Option<Seq<char>>, Option<Seq<char>>, Option<Seq<char>>) {
    (opt_text(d.publishedfileid), opt_text(d.title), opt_text(d.preview_url))
}

/// The children of a collection in an answer of `GetCollectionDetails`.
pub fn collection_children(j: &Json) -> (r: Option<Vec<Option<String>>>)
    ensures
        match r {
            Some(v) => children_in(*j) == Some(v@.map_values(|o: Option<String>| opt_text(o))),
            None => children_in(*j) is None,
        },
{
    let cs = match get(at(get(get(Some(j), "response"), "collectiondetails"), 0), "children") {
        Some(Json::Array(cs)) => cs,
        _ => return None,
    };
    let mut out: Vec<Option<String>> = Vec::new();
    for k in 0..cs.len()
        invariant
            out@.map_values(|o: Option<String>| opt_text(o))
                == cs@.take(k as int).map_values(|c: Json| str_of(key_of(Some(c), "publishedfileid"@))),
    {
        let t = text_field(&cs[k], "publishedfileid");
        let ghost before = out@.map_values(|o: Option<String>| opt_text(o));
        let ghost v = opt_text(t);
        out.push(t);
        assert(out@.map_values(|o: Option<String>| opt_text(o)) == before.push(v));
        assert(cs@.take(k + 1).map_values(|c: Json| str_of(key_of(Some(c), "publishedfileid"@)))
            == cs@.take(k as int).map_values(|c: Json| str_of(key_of(Some(c), "publishedfileid"@))).push(v));
    }
    assert(cs@.take(cs@.len() as int) == cs@);
    Some(out)
}

/// The children of a collection in the answer text of
/// `GetCollectionDetails`.
pub fn collection_children_of(text: &str) -> (r: Result<Vec<Option<String>>, DataError>)
    ensures
        match r {
            Ok(v) => children_spec(text@) == Ok::<Seq<Option<Seq<char>>>, DataError>(v@.map_values(|o: Option<String>| opt_text(o))),
            Err(e) => children_spec(text@) == Err::<Seq<Option<Seq<char>>>, DataError>(e),
        },
{
    let j = match parse_json(text) {
        Some(j) => j,
        None => return Err(DataError::BadJson),
    };
    match collection_children(&j) {
        Some(v) => Ok(v),
        None => Err(DataError::NoChildren),
    }
}

/// The entries of an answer of `GetPublishedFileDetails`.
pub fn file_details(j: &Json) -> (r: Option<Vec<FileDetail>>)
    ensures
        match r {
            Some(v) => details_in(*j) == Some(v@.map_values(|d: FileDetail| detail_view(d))),
            None => details_in(*j) is None,
        },
{
    let ds = match get(get(Some(j), "response"), "publishedfiledetails") {
        Some(Json::Array(ds)) => ds,
        _ => return None,
    };
    let ghost f = |d: Json| (
        str_of(key_of(Some(d), "publishedfileid"@)),
        str_of(key_of(Some(d), "title"@)),
        str_of(key_of(Some(d), "preview_url"@)),
    );
    let mut out: Vec<FileDetail> = Vec::new();
    for k in 0..ds.len()
        invariant
            f == (|d: Json| (
                str_of(key_of(Some(d), "publishedfileid"@)),
                str_of(key_of(Some(d), "title"@)),
                str_of(key_of(Some(d), "preview_url"@)),
            )),
            out@.map_values(|d: FileDetail| detail_view(d)) == ds@.take(k as int).map_values(f),
    {
        let d = &ds[k];
        let fd = FileDetail {
            publishedfileid: text_field(d, "publishedfileid"),
            title: text_field(d, "title"),
            preview_url: text_field(d, "preview_url"),
        };
        let ghost before = out@.map_values(|d: FileDetail| detail_view(d));
        let ghost v = detail_view(fd);
        out.push(fd);
        assert(out@.map_values(|d: FileDetail| detail_view(d)) == before.push(v));
        assert(ds@.take(k + 1).map_values(f) == ds@.take(k as int).map_values(f).push(f(ds@[k as int])));
    }
    assert(ds@.take(ds@.len() as int) == ds@);
    Some(out)
}

/// The entries in the answer text of `GetPublishedFileDetails`.
pub fn file_details_of(text: &str) -> (r: Result<Vec<FileDetail>, DataError>)
    ensures
        match r {
            Ok(v) => details_spec(text@) == Ok::<Seq<(Option<Seq<char>>, Option<Seq<char>>, Option<Seq<char>>)>, DataError>(
                v@.map_values(|d: FileDetail| detail_view(d))),
            Err(e) => details_spec(text@) == Err::<Seq<(Option<Seq<char>>, Option<Seq<char>>, Option<Seq<char>>)>, DataError>(e),
        },
{
    let j = match parse_json(text) {
        Some(j) => j,
        None => return Err(DataError::BadJson),
    };
    match file_details(&j) {
        Some(v) => Ok(v),
        None => Err(DataError::NoDetails),
    }
}

} // verus!
