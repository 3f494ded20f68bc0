//! Minimal, tolerant RSS 2.0 / Atom adapter on quick-xml: title, link, description or content,
//! CDATA included.

use quick_xml::events::Event;
use vstd::prelude::*;
use vstd::string::*;

use super::SourceAdapter;
use crate::models::{rows, RawItem, RawModel};
use crate::text::{
    chars_of, join, joined, pieces, split_at_char, split_words, str_eq, words,
};

verus! {

/// Reads the feeds at the given addresses.
#[derive(Debug)]
pub struct RssAdapter {
    pub feed_urls: Vec<String>,
}

impl RssAdapter {
    pub fn new(feed_urls: Vec<String>) -> (r: Self)
        ensures
            r.feed_urls == feed_urls,
    {
        RssAdapter { feed_urls }
    }
}

impl SourceAdapter for RssAdapter {
    fn name(&self) -> (r: &str)
        ensures
            r@ == "rss"@,
    {
        "rss"
    }
}

// ---------------------------------------------------------------------------------------------
// XML

/// What an XML reader meets.
#[derive(Debug)]
pub enum XmlEvent {
    /// An element begins, or stands alone: its name and its attributes.
    Open(String, Vec<(String, String)>),
    /// An element ends.
    Close(String),
    /// Text, its entities decoded.
    Text(String),
    /// Text as it stands.
    Raw(String),
    /// Anything else: declarations, comments and the like.
    Other,
    /// The end of the document.
    End,
}

pub enum XmlModel {
    Open(Seq<char>, Seq<(Seq<char>, Seq<char>)>),
    Close(Seq<char>),
    Text(Seq<char>),
    Raw(Seq<char>),
    Other,
    End,
    /// The document is not well formed here.
    Fault,
}

/// What a list of attributes holds.
pub open spec fn attributes(v: Seq<(String, String)>) -> Seq<(Seq<char>, Seq<char>)> {
    Seq::new(v.len(), |i: int| (v[i].0@, v[i].1@))
}

impl View for XmlEvent {
    type V = XmlModel;

    open spec fn view(&self) -> XmlModel {
        match self {
            XmlEvent::Open(name, attrs) => XmlModel::Open(name@, attributes(attrs@)),
            XmlEvent::Close(name) => XmlModel::Close(name@),
            XmlEvent::Text(t) => XmlModel::Text(t@),
            XmlEvent::Raw(t) => XmlModel::Raw(t@),
            XmlEvent::Other => XmlModel::Other,
            XmlEvent::End => XmlModel::End,
        }
    }
}

#[verifier::external_type_specification]
#[verifier::external_body]
#[verifier::reject_recursive_types(R)]
pub struct ExReader<R>(quick_xml::Reader<R>);

#[verifier::external_type_specification]
#[verifier::external_body]
pub struct ExXmlError(quick_xml::Error);

/// The events of a document, up to its end or its first fault.
pub uninterp spec fn xml_events(xml: Seq<char>) -> Seq<XmlModel>;

/// The events that a reader has ahead of it, up to the end or the first fault.
pub uninterp spec fn xml_ahead(reader: &quick_xml::Reader<&[u8]>) -> Seq<XmlModel>;

/// `quick_xml::Reader::from_str`, set to trim text: a reader with all events of the document
/// ahead of it.
#[verifier::external_body]
fn open_xml(xml: &str) -> (r: quick_xml::Reader<&[u8]>)
    ensures
        xml_ahead(&r) == xml_events(xml@),
{
    let mut reader = quick_xml::Reader::from_str(xml);
    reader.config_mut().trim_text(true);
    reader
}

/// `quick_xml::Reader::read_event_into`, its event as plain values: the first of the events ahead,
/// which is then behind the reader. There is always one, as the end of the document is an event.
/// Text is unescaped (`BytesText::unescape`; empty where that fails), and of the attributes
/// (`BytesStart::attributes`) those count that are well formed. What comes after the end or after
/// a fault is left unsaid.
#[verifier::external_body]
fn next_xml(reader: &mut quick_xml::Reader<&[u8]>) -> (r: Result<XmlEvent, quick_xml::Error>)
    ensures
        match r {
            Ok(e) => xml_ahead(old(reader)).len() > 0 && xml_ahead(old(reader))[0] == e@,
            Err(_) => xml_ahead(old(reader)).len() > 0 && xml_ahead(old(reader))[0]
                == XmlModel::Fault,
        },
        r matches Ok(e) && !(e is End) ==> xml_ahead(final(reader)) == xml_ahead(
            old(reader),
        ).drop_first(),
{
    let text = |b: &[u8]| String::from_utf8_lossy(b).into_owned();
    Ok(match reader.read_event_into(&mut Vec::new())? {
        Event::Start(e) | Event::Empty(e) => XmlEvent::Open(
            text(e.name().as_ref()),
            e.attributes().flatten().map(|a| (text(a.key.as_ref()), text(&a.value))).collect(),
        ),
        Event::End(e) => XmlEvent::Close(text(e.name().as_ref())),
        Event::Text(t) => XmlEvent::Text(t.unescape().unwrap_or_default().into_owned()),
        Event::CData(t) => XmlEvent::Raw(text(&t)),
        Event::Eof => XmlEvent::End,
        _ => XmlEvent::Other,
    })
}

// ---------------------------------------------------------------------------------------------
// Feeds

/// The feed is not well-formed XML.
#[derive(Clone, Copy, Debug, PartialEq, Eq, Structural)]
pub struct FeedError;

impl FeedError {
    pub fn message(&self) -> (r: String)
        ensures
            r@ == "xml parse error"@,
    {
        "xml parse error".to_owned()
    }
}

/// A name without its namespace prefix.
pub open spec fn local_name(name: Seq<char>) -> Seq<char> {
    pieces(name, ':').last()
}

fn local(name: &str) -> (r: String)
    ensures
        r@ == local_name(name@),
{
    let parts = split_at_char(&chars_of(name), ':');
    parts[parts.len() - 1].clone()
}

/// The element is one item of a feed.
pub open spec fn is_item(local: Seq<char>) -> bool {
    local == "item"@ || local == "entry"@
}

fn item(local: &str) -> (r: bool)
    ensures
        r == is_item(local@),
{
    str_eq(local, "item") || str_eq(local, "entry")
}

/// The value of the last `href` among the attributes.
pub open spec fn href(attrs: Seq<(Seq<char>, Seq<char>)>) -> Option<Seq<char>>
    decreases attrs.len(),
{
    if attrs.len() == 0 {
        None
    } else if attrs.last().0 == "href"@ {
        Some(attrs.last().1)
    } else {
        href(attrs.drop_last())
    }
}

fn find_href(attrs: &Vec<(String, String)>) -> (r: Option<String>)
    ensures
        crate::text::opt_view(r) == href(attributes(attrs@)),
{
    let ghost all = attributes(attrs@);
    let mut n: usize = attrs.len();
    assert(all.take(n as int) =~= all);
    while n > 0
        invariant
            n <= attrs@.len(),
            all == attributes(attrs@),
            href(all) == href(all.take(n as int)),
        decreases n,
    {
        assert(all.take(n as int).drop_last() =~= all.take(n - 1));
        assert(all.take(n as int).last() == all[n - 1]);
        if str_eq(attrs[n - 1].0.as_str(), "href") {
            return Some(attrs[n - 1].1.clone());
        }
        n -= 1;
    }
    None
}

/// An item of a feed: title, link and text.
#[derive(Debug)]
pub struct FeedItem {
    pub title: String,
    pub link: String,
    pub text: String,
}

#[verifier::ext_equal]
pub struct FeedModel {
    pub title: Seq<char>,
    pub link: Seq<char>,
    pub text: Seq<char>,
}

impl View for FeedItem {
    type V = FeedModel;

    open spec fn view(&self) -> FeedModel {
        FeedModel { title: self.title@, link: self.link@, text: self.text@ }
    }
}

/// Where the reading of a feed stands: the items so far, whether one is open, the last element
/// that began, and what is known of the open item.
#[derive(Debug)]
pub struct FeedScan {
    pub items: Vec<FeedItem>,
    pub in_item: bool,
    pub tag: String,
    pub current: FeedItem,
}

#[verifier::ext_equal]
pub struct ScanModel {
    pub items: Seq<FeedModel>,
    pub in_item: bool,
    pub tag: Seq<char>,
    pub current: FeedModel,
}

impl View for FeedScan {
    type V = ScanModel;

    open spec fn view(&self) -> ScanModel {
        ScanModel {
            items: rows(self.items@),
            in_item: self.in_item,
            tag: self.tag@,
            current: self.current@,
        }
    }
}

pub open spec fn no_item() -> FeedModel {
    FeedModel { title: seq![], link: seq![], text: seq![] }
}

pub open spec fn scan_begin() -> ScanModel {
    ScanModel { items: seq![], in_item: false, tag: seq![], current: no_item() }
}

/// The item with text added where the open element puts it. Only text as it stands counts in an
/// `encoded` element.
pub open spec fn with_text(it: FeedModel, tag: Seq<char>, text: Seq<char>, raw: bool) -> FeedModel {
    if tag == "title"@ {
        FeedModel { title: it.title + text, ..it }
    } else if tag == "link"@ {
        FeedModel { link: it.link + text, ..it }
    } else if tag == "description"@ || tag == "summary"@ || tag == "content"@ || (raw && tag
        == "encoded"@) {
        FeedModel { text: it.text + text, ..it }
    } else {
        it
    }
}

/// The scan after one more event.
pub open spec fn feed_step(st: ScanModel, e: XmlModel) -> ScanModel {
    match e {
        XmlModel::Open(name, attrs) => {
            let local = local_name(name);
            let opened = if is_item(local) {
                ScanModel { in_item: true, current: no_item(), ..st }
            } else {
                st
            };
            let linked = match href(attrs) {
                Some(h) => if opened.in_item && local == "link"@ {
                    FeedModel { link: h, ..opened.current }
                } else {
                    opened.current
                },
                None => opened.current,
            };
            ScanModel { tag: local, current: linked, ..opened }
        },
        XmlModel::Text(t) => if st.in_item {
            ScanModel { current: with_text(st.current, st.tag, t, false), ..st }
        } else {
            st
        },
        XmlModel::Raw(t) => if st.in_item {
            ScanModel { current: with_text(st.current, st.tag, t, true), ..st }
        } else {
            st
        },
        XmlModel::Close(name) => if is_item(local_name(name)) {
            ScanModel { in_item: false, items: st.items.push(st.current), ..st }
        } else {
            st
        },
        _ => st,
    }
}

/// The items that the events of a feed give from a scan on; nothing where they run into a fault.
pub open spec fn feed_from(st: ScanModel, events: Seq<XmlModel>) -> Option<Seq<FeedModel>>
    decreases events.len(),
{
    if events.len() == 0 {
        None
    } else {
        match events[0] {
            XmlModel::End => Some(st.items),
            XmlModel::Fault => None,
            e => feed_from(feed_step(st, e), events.drop_first()),
        }
    }
}

/// The items of a feed.
pub open spec fn feed_of(xml: Seq<char>) -> Option<Seq<FeedModel>> {
    feed_from(scan_begin(), xml_events(xml))
}

impl FeedItem {
    fn blank() -> (r: FeedItem)
        ensures
            r@ == no_item(),
    {
        let r = FeedItem { title: String::new(), link: String::new(), text: String::new() };
        assert(r@ =~= no_item());
        r
    }

    fn dup(&self) -> (r: FeedItem)
        ensures
            r@ == self@,
    {
        FeedItem {
            title: self.title.clone(),
            link: self.link.clone(),
            text: self.text.clone(),
        }
    }

    fn add_text(&mut self, tag: &str, text: &str, raw: bool)
        ensures
            final(self)@ == with_text(old(self)@, tag@, text@, raw),
    {
        if str_eq(tag, "title") {
            self.title.append(text);
        } else if str_eq(tag, "link") {
            self.link.append(text);
        } else if str_eq(tag, "description") || str_eq(tag, "summary") || str_eq(tag, "content")
            || (raw && str_eq(tag, "encoded")) {
            self.text.append(text);
        }
    }
}

impl FeedScan {
    pub fn new() -> (r: FeedScan)
        ensures
            r@ == scan_begin(),
    {
        let r = FeedScan {
            items: Vec::new(),
            in_item: false,
            tag: String::new(),
            current: FeedItem::blank(),
        };
        assert(r@ =~= scan_begin());
        r
    }

    /// Takes one more event into account.
    pub fn take(&mut self, event: &XmlEvent)
        ensures
            final(self)@ == feed_step(old(self)@, event@),
    {
        match event {
            XmlEvent::Open(name, attrs) => {
                let local = local(name.as_str());
                if item(local.as_str()) {
                    self.in_item = true;
                    self.current = FeedItem::blank();
                }
                if self.in_item && str_eq(local.as_str(), "link") {
                    if let Some(h) = find_href(attrs) {
                        self.current.link = h;
                    }
                }
                self.tag = local;
            },
            XmlEvent::Text(t) => {
                if self.in_item {
                    self.current.add_text(self.tag.as_str(), t.as_str(), false);
                }
            },
            XmlEvent::Raw(t) => {
                if self.in_item {
                    self.current.add_text(self.tag.as_str(), t.as_str(), true);
                }
            },
            XmlEvent::Close(name) => {
                if item(local(name.as_str()).as_str()) {
                    self.in_item = false;
                    let done = self.current.dup();
                    let ghost before = rows(self.items@);
                    let ghost dv = done@;
                    self.items.push(done);
                    assert(rows(self.items@) =~= before.push(dv));
                }
            },
            _ => {},
        }
    }
}

/// The items of an RSS or Atom feed: its `item` or `entry` elements.
pub fn parse_feed(xml: &str) -> (r: Result<Vec<FeedItem>, FeedError>)
    ensures
        match r {
            Ok(items) => feed_of(xml@) == Some(rows(items@)),
            Err(_) => feed_of(xml@) is None,
        },
{
    let mut reader = open_xml(xml);
    let mut scan = FeedScan::new();
    loop
        invariant
            feed_from(scan@, xml_ahead(&reader)) == feed_of(xml@),
        decreases xml_ahead(&reader).len(),
    {
        match next_xml(&mut reader) {
            Ok(XmlEvent::End) => {
                return Ok(scan.items);
            },
            Ok(event) => {
                scan.take(&event);
            },
            Err(_) => {
                return Err(FeedError);
            },
        }
    }
}

// ---------------------------------------------------------------------------------------------
// Items

/// What is left of a text when everything between angle brackets is dropped, and whether a
/// bracket is open at its end.
pub open spec fn outside_tags(s: Seq<char>) -> (Seq<char>, bool)
    decreases s.len(),
{
    if s.len() == 0 {
        (seq![], false)
    } else {
        let (out, in_tag) = outside_tags(s.drop_last());
        if s.last() == '<' {
            (out, true)
        } else if s.last() == '>' {
            (out, false)
        } else if in_tag {
            (out, in_tag)
        } else {
            (out.push(s.last()), in_tag)
        }
    }
}

/// A text without inline markup, its words one space apart.
pub open spec fn tagless(s: Seq<char>) -> Seq<char> {
    joined(words(outside_tags(s).0), " "@)
}

/// Strips inline HTML markup that leaks in through CDATA-wrapped descriptions (`<p>...</p>`,
/// `<a href=...>`), which would otherwise pollute the mentions with tag fragments.
pub fn strip_tags(html: &str) -> (r: String)
    ensures
        r@ == tagless(html@),
{
    let cs = chars_of(html);
    let mut out: Vec<char> = Vec::new();
    let mut in_tag = false;
    let mut i: usize = 0;
    assert(cs@.take(0) =~= seq![]);
    assert(out@ =~= seq![]);
    while i < cs.len()
        invariant
            i <= cs@.len(),
            outside_tags(cs@.take(i as int)) == (out@, in_tag),
        decreases cs.len() - i,
    {
        assert(cs@.take(i + 1).drop_last() =~= cs@.take(i as int));
        assert(cs@.take(i + 1).last() == cs@[i as int]);
        let c = cs[i];
        if c == '<' {
            in_tag = true;
        } else if c == '>' {
            in_tag = false;
        } else if !in_tag {
            out.push(c);
        }
        i += 1;
    }
    assert(cs@.take(i as int) =~= cs@);
    join(&split_words(&out), " ")
}

/// The raw item that an item of the feed at `url` gives. The terms of publishers vary, so that
/// its license class is `unknown`.
pub open spec fn raw_of(url: Seq<char>, it: FeedModel) -> RawModel {
    RawModel {
        source_type: "rss"@,
        source_ref: if it.link.len() == 0 {
            url
        } else {
            it.link
        },
        title: if it.title.len() == 0 {
            None
        } else {
            Some(it.title)
        },
        text: tagless(it.text),
        license_class: "unknown"@,
        published_at: None,
    }
}

/// The raw items of the feed at `url`.
pub fn feed_items(url: &str, items: Vec<FeedItem>) -> (r: Vec<RawItem>)
    ensures
        rows(r@) == rows(items@).map_values(|it: FeedModel| raw_of(url@, it)),
{
    let ghost goal = rows(items@).map_values(|it: FeedModel| raw_of(url@, it));
    let mut out: Vec<RawItem> = Vec::new();
    let mut i: usize = 0;
    while i < items.len()
        invariant
            i <= items@.len(),
            goal == rows(items@).map_values(|it: FeedModel| raw_of(url@, it)),
            out@.len() == i,
            forall|j: int| 0 <= j < i ==> (#[trigger] rows(out@)[j]) == goal[j],
        decreases items.len() - i,
    {
        let it = &items[i];
        let ghost done = rows(out@);
        let raw = RawItem {
            source_type: "rss".to_owned(),
            source_ref: if it.link.as_str().is_empty() {
                url.to_owned()
            } else {
                it.link.clone()
            },
            title: if it.title.as_str().is_empty() {
                None
            } else {
                Some(it.title.clone())
            },
            text: strip_tags(it.text.as_str()),
            license_class: "unknown".to_owned(),
            published_at: None,
        };
        assert(raw@ == goal[i as int]);
        out.push(raw);
        assert forall|j: int| 0 <= j < i + 1 implies (#[trigger] rows(out@)[j]) == goal[j] by {
            if j < i {
                assert(rows(out@)[j] == done[j]);
            }
        }
        i += 1;
    }
    assert(rows(out@) =~= goal);
    out
}

} // verus!
