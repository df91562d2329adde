//! Items of RSS 2.0 feeds and entries of Atom-like feeds, read from the
//! elements of a feed document.
use vstd::prelude::*;
use crate::error::{Error, Result};
use crate::text::{push_str, range_eq, to_chars};

verus! {

// ----------------------------------------------------------------------------------
//   - Document -
// ----------------------------------------------------------------------------------

/// A child node of a document element: its tag name (empty for a node that
/// is no element), the text of its first child when that is text, and its
/// `href` attribute.
pub struct XmlChild {
    pub name: String,
    pub text: Option<String>,
    pub href: Option<String>,
}

/// A node of a document: its tag name (empty for a node that is no element)
/// and its children.
pub struct XmlNode {
    pub name: String,
    pub children: Vec<XmlChild>,
}

pub struct XmlChildView {
    pub name: Seq<char>,
    pub text: Option<Seq<char>>,
    pub href: Option<Seq<char>>,
}

pub struct XmlNodeView {
    pub name: Seq<char>,
    pub children: Seq<XmlChildView>,
}

pub open spec fn opt_view(o: Option<String>) -> Option<Seq<char>> {
    match o {
        Some(s) => Some(s@),
        None => None,
    }
}

impl View for XmlChild {
    type V = XmlChildView;

    open spec fn view(&self) -> XmlChildView {
        XmlChildView { name: self.name@, text: opt_view(self.text), href: opt_view(self.href) }
    }
}

impl View for XmlNode {
    type V = XmlNodeView;

    open spec fn view(&self) -> XmlNodeView {
        XmlNodeView { name: self.name@, children: self.children@.map_values(|c: XmlChild| c@) }
    }
}

pub open spec fn nodes_view(v: Seq<XmlNode>) -> Seq<XmlNodeView> {
    v.map_values(|n: XmlNode| n@)
}

/// What `roxmltree::Document::parse` makes of a text: every node of the
/// document in document order (the root first), or the text of the parse error.
pub uninterp spec fn xml_document(body: Seq<char>) -> std::result::Result<Seq<XmlNodeView>, Seq<char>>;

/// Parses `body` with `roxmltree::Document::parse` and lists its nodes
/// (`Document::descendants`), each with its tag name (`tag_name().name()`)
/// and children; on failure, the error's text. The contract claims only that
/// the outcome is the one `xml_document` names for `body`.
#[verifier::external_body]
fn parse_xml(body: &str) -> (r: std::result::Result<Vec<XmlNode>, String>)
    ensures
        match r {
            Ok(v) => xml_document(body@) == std::result::Result::<Seq<XmlNodeView>, Seq<char>>::Ok(nodes_view(v@)),
            Err(e) => xml_document(body@) == std::result::Result::<Seq<XmlNodeView>, Seq<char>>::Err(e@),
        },
{
    match roxmltree::Document::parse(body) {
        Ok(doc) => {
            let mut nodes = Vec::new();
            for n in doc.descendants() {
                let mut children = Vec::new();
                for c in n.children() {
                    let (name, text) = (c.tag_name().name().to_string(), c.text().map(str::to_string));
                    children.push(XmlChild { name, text, href: c.attribute("href").map(str::to_string) });
                }
                nodes.push(XmlNode { name: n.tag_name().name().to_string(), children });
            }
            Ok(nodes)
        },
        Err(e) => Err(e.to_string()),
    }
}

// ----------------------------------------------------------------------------------
//   - Dates -
// ----------------------------------------------------------------------------------

/// The UNIX time of an RFC 2822 date, as `chrono` reads it.
pub uninterp spec fn rfc2822_timestamp(text: Seq<char>) -> Option<i64>;

/// The UNIX time of an RFC 3339 date, as `chrono` reads it.
pub uninterp spec fn rfc3339_timestamp(text: Seq<char>) -> Option<i64>;

/// `chrono::DateTime::parse_from_rfc2822(text)`, taken as a UNIX time
/// (`DateTime::timestamp`); `None` where it fails. The contract claims only
/// that the outcome is the one `rfc2822_timestamp` names for `text`.
#[verifier::external_body]
fn parse_rfc2822(text: &str) -> (r: Option<i64>)
    ensures
        r == rfc2822_timestamp(text@),
{
    match chrono::DateTime::parse_from_rfc2822(text) {
        Ok(dt) => Some(dt.timestamp()),
        Err(_) => None,
    }
}

/// `chrono::DateTime::parse_from_rfc3339(text)`, taken as a UNIX time
/// (`DateTime::timestamp`); `None` where it fails. The contract claims only
/// that the outcome is the one `rfc3339_timestamp` names for `text`.
#[verifier::external_body]
fn parse_rfc3339(text: &str) -> (r: Option<i64>)
    ensures
        r == rfc3339_timestamp(text@),
{
    match chrono::DateTime::parse_from_rfc3339(text) {
        Ok(dt) => Some(dt.timestamp()),
        Err(_) => None,
    }
}

// ----------------------------------------------------------------------------------
//   - Tag -
// ----------------------------------------------------------------------------------

/// The child elements that items and entries read.
#[derive(Debug, Clone, Copy, PartialEq, Eq, Structural)]
pub enum Tag {
    Title,
    Link,
    /// `pubDate`, such as `Mon, 13 Jan 2025 15:04:31 -0000`.
    Date,
    /// `updated`, such as `2025-01-13T00:00:00+09:00`.
    Updated,
    Guid,
    /// `size`.
    Extra,
}

/// The tag that a child element's name stands for.
pub open spec fn tag_of(name: Seq<char>) -> Option<Tag> {
    if name == "title"@ {
        Some(Tag::Title)
    } else if name == "link"@ {
        Some(Tag::Link)
    } else if name == "guid"@ {
        Some(Tag::Guid)
    } else if name == "pubDate"@ {
        Some(Tag::Date)
    } else if name == "updated"@ {
        Some(Tag::Updated)
    } else if name == "size"@ {
        Some(Tag::Extra)
    } else {
        None
    }
}

impl Tag {
    /// The tag that `name` stands for, or `None` for a name that is not read.
    pub fn parse(name: &str) -> (r: Option<Tag>)
        ensures
            r == tag_of(name@),
    {
        let cs = to_chars(name);
        let n = cs.len();
        assert(cs@.subrange(0, n as int) =~= name@);
        if range_eq(&cs, 0, n, &to_chars("title")) {
            Some(Tag::Title)
        } else if range_eq(&cs, 0, n, &to_chars("link")) {
            Some(Tag::Link)
        } else if range_eq(&cs, 0, n, &to_chars("guid")) {
            Some(Tag::Guid)
        } else if range_eq(&cs, 0, n, &to_chars("pubDate")) {
            Some(Tag::Date)
        } else if range_eq(&cs, 0, n, &to_chars("updated")) {
            Some(Tag::Updated)
        } else if range_eq(&cs, 0, n, &to_chars("size")) {
            Some(Tag::Extra)
        } else {
            None
        }
    }
}

// ----------------------------------------------------------------------------------
//   - Item / Entry -
// ----------------------------------------------------------------------------------

/// An item of an RSS 2.0 feed.
#[derive(Debug)]
pub struct Item {
    title: String,
    link: String,
    extra: Option<String>,
    /// UTC timestamp
    pub_date: i64,
}

/// An entry of an Atom-like feed.
#[derive(Debug)]
pub struct Entry {
    title: String,
    link: String,
    extra: Option<String>,
    /// UTC timestamp
    pub_date: i64,
}

/// An item or entry as plain data.
pub struct ItemView {
    pub title: Seq<char>,
    pub link: Seq<char>,
    pub extra: Option<Seq<char>>,
    pub pub_date: i64,
}

impl View for Item {
    type V = ItemView;

    closed spec fn view(&self) -> ItemView {
        ItemView { title: self.title@, link: self.link@, extra: opt_view(self.extra), pub_date: self.pub_date }
    }
}

impl View for Entry {
    type V = ItemView;

    closed spec fn view(&self) -> ItemView {
        ItemView { title: self.title@, link: self.link@, extra: opt_view(self.extra), pub_date: self.pub_date }
    }
}

/// An item or entry before any child is read.
pub open spec fn empty_item() -> ItemView {
    ItemView { title: Seq::empty(), link: Seq::empty(), extra: None, pub_date: 0 }
}

/// The text of a child, or nothing.
pub open spec fn child_text(c: XmlChildView) -> Seq<char> {
    match c.text {
        Some(t) => t,
        None => Seq::empty(),
    }
}

/// What one child of an RSS item sets: `title`, `guid` (the link), `pubDate`
/// when it reads as an RFC 2822 date, and `size`, appended to the extra text
/// after ` | `.
pub open spec fn item_step(i: ItemView, c: XmlChildView) -> ItemView {
    let text = child_text(c);
    match tag_of(c.name) {
        Some(Tag::Title) => ItemView { title: text, ..i },
        Some(Tag::Guid) => ItemView { link: text, ..i },
        Some(Tag::Date) => match rfc2822_timestamp(text) {
            Some(t) => ItemView { pub_date: t, ..i },
            None => i,
        },
        Some(Tag::Extra) => ItemView {
            extra: Some(
                match i.extra {
                    Some(e) => e,
                    None => Seq::empty(),
                } + " | "@ + text,
            ),
            ..i
        },
        _ => i,
    }
}

/// What one child of an entry sets: `title`, `link` (its `href`, else its
/// text), and `updated` when it reads as an RFC 3339 date.
pub open spec fn entry_step(i: ItemView, c: XmlChildView) -> ItemView {
    let text = child_text(c);
    match tag_of(c.name) {
        Some(Tag::Title) => ItemView { title: text, ..i },
        Some(Tag::Link) => ItemView {
            link: match c.href {
                Some(h) => h,
                None => text,
            },
            ..i
        },
        Some(Tag::Updated) => match rfc3339_timestamp(text) {
            Some(t) => ItemView { pub_date: t, ..i },
            None => i,
        },
        _ => i,
    }
}

/// The item that the children give, read in order.
pub open spec fn item_of(children: Seq<XmlChildView>) -> ItemView
    decreases children.len(),
{
    if children.len() == 0 {
        empty_item()
    } else {
        item_step(item_of(children.drop_last()), children.last())
    }
}

/// The entry that the children give, read in order.
pub open spec fn entry_of(children: Seq<XmlChildView>) -> ItemView
    decreases children.len(),
{
    if children.len() == 0 {
        empty_item()
    } else {
        entry_step(entry_of(children.drop_last()), children.last())
    }
}

fn text_or_empty(t: &Option<String>) -> (s: String)
    ensures
        s@ == match opt_view(*t) {
            Some(x) => x,
            None => Seq::empty(),
        },
{
    match t {
        Some(x) => x.clone(),
        None => String::new(),
    }
}

fn clone_opt(t: &Option<String>) -> (r: Option<String>)
    ensures
        opt_view(r) == opt_view(*t),
{
    match t {
        Some(x) => Some(x.clone()),
        None => None,
    }
}

impl Item {
    /// The item that the children of an `item` element give.
    pub fn from_children(children: &Vec<XmlChild>) -> (item: Item)
        ensures
            item@ == item_of(children@.map_values(|c: XmlChild| c@)),
    {
        let ghost cv = children@.map_values(|c: XmlChild| c@);
        let mut item = Item { title: String::new(), link: String::new(), extra: None, pub_date: 0 };
        let mut i: usize = 0;
        assert(cv.take(0) =~= Seq::<XmlChildView>::empty());
        while i < children.len()
            invariant
                i <= children@.len(),
                cv == children@.map_values(|c: XmlChild| c@),
                item@ == item_of(cv.take(i as int)),
            decreases children@.len() - i,
        {
            let c = &children[i];
            assert(cv.take(i + 1).drop_last() =~= cv.take(i as int));
            assert(cv.take(i + 1).last() == c@);
            let text = text_or_empty(&c.text);
            match Tag::parse(c.name.as_str()) {
                Some(Tag::Title) => {
                    item.title = text;
                },
                Some(Tag::Guid) => {
                    item.link = text;
                },
                Some(Tag::Date) => {
                    match parse_rfc2822(text.as_str()) {
                        Some(t) => {
                            item.pub_date = t;
                        },
                        None => {},
                    }
                },
                Some(Tag::Extra) => {
                    let mut e = match &item.extra {
                        Some(x) => x.clone(),
                        None => String::new(),
                    };
                    let sep = " | ";
                    push_str(&mut e, sep);
                    push_str(&mut e, text.as_str());
                    item.extra = Some(e);
                },
                _ => {},
            }
            i = i + 1;
            assert(item@ =~= item_of(cv.take(i as int)));
        }
        assert(cv.take(children@.len() as int) =~= cv);
        item
    }
}

impl Entry {
    /// The entry that the children of an `entry` element give.
    pub fn from_children(children: &Vec<XmlChild>) -> (entry: Entry)
        ensures
            entry@ == entry_of(children@.map_values(|c: XmlChild| c@)),
    {
        let ghost cv = children@.map_values(|c: XmlChild| c@);
        let mut entry = Entry { title: String::new(), link: String::new(), extra: None, pub_date: 0 };
        let mut i: usize = 0;
        assert(cv.take(0) =~= Seq::<XmlChildView>::empty());
        while i < children.len()
            invariant
                i <= children@.len(),
                cv == children@.map_values(|c: XmlChild| c@),
                entry@ == entry_of(cv.take(i as int)),
            decreases children@.len() - i,
        {
            let c = &children[i];
            assert(cv.take(i + 1).drop_last() =~= cv.take(i as int));
            assert(cv.take(i + 1).last() == c@);
            let text = text_or_empty(&c.text);
            match Tag::parse(c.name.as_str()) {
                Some(Tag::Title) => {
                    entry.title = text;
                },
                Some(Tag::Link) => {
                    entry.link = match &c.href {
                        Some(h) => h.clone(),
                        None => text,
                    };
                },
                Some(Tag::Updated) => {
                    match parse_rfc3339(text.as_str()) {
                        Some(t) => {
                            entry.pub_date = t;
                        },
                        None => {},
                    }
                },
                _ => {},
            }
            i = i + 1;
            assert(entry@ =~= entry_of(cv.take(i as int)));
        }
        assert(cv.take(children@.len() as int) =~= cv);
        entry
    }
}

// ----------------------------------------------------------------------------------
//   - Element -
// ----------------------------------------------------------------------------------

/// An item or an entry of a feed.
#[derive(Debug)]
pub enum Element {
    Item(Item),
    Entry(Entry),
}

/// An element as plain data.
pub enum ElementView {
    Item(ItemView),
    Entry(ItemView),
}

impl View for Element {
    type V = ElementView;

    open spec fn view(&self) -> ElementView {
        match self {
            Element::Item(i) => ElementView::Item(i@),
            Element::Entry(e) => ElementView::Entry(e@),
        }
    }
}

/// The fields of an element, whichever kind it is.
pub open spec fn fields(e: ElementView) -> ItemView {
    match e {
        ElementView::Item(i) => i,
        ElementView::Entry(i) => i,
    }
}

/// Two elements are the same when they are of one kind and published at the
/// same time.
pub open spec fn same_element(a: ElementView, b: ElementView) -> bool {
    match (a, b) {
        (ElementView::Item(x), ElementView::Item(y)) => x.pub_date == y.pub_date,
        (ElementView::Entry(x), ElementView::Entry(y)) => x.pub_date == y.pub_date,
        _ => false,
    }
}

/// What can be shown as a notification.
pub trait Toastable {
    fn title(&self) -> &str;

    fn link(&self) -> &str;

    fn timestamp(&self) -> i64;

    fn extra(&self) -> Option<&str>;
}

impl Toastable for Item {
    fn title(&self) -> (r: &str)
        ensures
            r@ == self@.title,
    {
        self.title.as_str()
    }

    fn link(&self) -> (r: &str)
        ensures
            r@ == self@.link,
    {
        self.link.as_str()
    }

    fn timestamp(&self) -> (r: i64)
        ensures
            r == self@.pub_date,
    {
        self.pub_date
    }

    fn extra(&self) -> (r: Option<&str>)
        ensures
            opt_str_view(r) == self@.extra,
    {
        match &self.extra {
            Some(x) => Some(x.as_str()),
            None => None,
        }
    }
}

impl Toastable for Entry {
    fn title(&self) -> (r: &str)
        ensures
            r@ == self@.title,
    {
        self.title.as_str()
    }

    fn link(&self) -> (r: &str)
        ensures
            r@ == self@.link,
    {
        self.link.as_str()
    }

    fn timestamp(&self) -> (r: i64)
        ensures
            r == self@.pub_date,
    {
        self.pub_date
    }

    fn extra(&self) -> (r: Option<&str>)
        ensures
            opt_str_view(r) == self@.extra,
    {
        match &self.extra {
            Some(x) => Some(x.as_str()),
            None => None,
        }
    }
}

pub open spec fn opt_str_view(o: Option<&str>) -> Option<Seq<char>> {
    match o {
        Some(s) => Some(s@),
        None => None,
    }
}

impl Toastable for Element {
    fn title(&self) -> (r: &str)
        ensures
            r@ == fields(self@).title,
    {
        match self {
            Element::Item(i) => i.title.as_str(),
            Element::Entry(e) => e.title.as_str(),
        }
    }

    fn link(&self) -> (r: &str)
        ensures
            r@ == fields(self@).link,
    {
        match self {
            Element::Item(i) => i.link.as_str(),
            Element::Entry(e) => e.link.as_str(),
        }
    }

    fn timestamp(&self) -> (r: i64)
        ensures
            r == fields(self@).pub_date,
    {
        match self {
            Element::Item(i) => i.pub_date,
            Element::Entry(e) => e.pub_date,
        }
    }

    fn extra(&self) -> (r: Option<&str>)
        ensures
            match r {
                Some(x) => fields(self@).extra == Some(x@),
                None => fields(self@).extra is None,
            },
    {
        let ex = match self {
            Element::Item(i) => &i.extra,
            Element::Entry(e) => &e.extra,
        };
        match ex {
            Some(x) => Some(x.as_str()),
            None => None,
        }
    }
}

impl Element {
    /// Whether `self` and `other` are the same element: of one kind and
    /// published at the same time.
    pub fn same(&self, other: &Element) -> (b: bool)
        ensures
            b == same_element(self@, other@),
    {
        match (self, other) {
            (Element::Item(x), Element::Item(y)) => x.pub_date == y.pub_date,
            (Element::Entry(x), Element::Entry(y)) => x.pub_date == y.pub_date,
            _ => false,
        }
    }
}

impl Clone for Element {
    fn clone(&self) -> (r: Self)
        ensures
            r@ == self@,
    {
        match self {
            Element::Item(i) => Element::Item(
                Item { title: i.title.clone(), link: i.link.clone(), extra: clone_opt(&i.extra), pub_date: i.pub_date },
            ),
            Element::Entry(e) => Element::Entry(
                Entry { title: e.title.clone(), link: e.link.clone(), extra: clone_opt(&e.extra), pub_date: e.pub_date },
            ),
        }
    }
}

/// The element that a document node stands for: an `item` or an `entry`
/// read from its children; other nodes stand for none.
pub open spec fn element_of(n: XmlNodeView) -> Option<ElementView> {
    if n.name == "item"@ {
        Some(ElementView::Item(item_of(n.children)))
    } else if n.name == "entry"@ {
        Some(ElementView::Entry(entry_of(n.children)))
    } else {
        None
    }
}

/// The elements that the nodes stand for, the last node's first (the
/// reverse of document order).
pub open spec fn elements_newest_first(nodes: Seq<XmlNodeView>) -> Seq<ElementView>
    decreases nodes.len(),
{
    if nodes.len() == 0 {
        Seq::empty()
    } else {
        (match element_of(nodes.last()) {
            Some(e) => seq![e],
            None => Seq::empty(),
        }) + elements_newest_first(nodes.drop_last())
    }
}

pub open spec fn elements_view(v: Seq<Element>) -> Seq<ElementView> {
    v.map_values(|e: Element| e@)
}

/// The elements of the document nodes, in reverse document order.
pub fn elements_from_xml(nodes: &Vec<XmlNode>) -> (r: Vec<Element>)
    ensures
        elements_view(r@) == elements_newest_first(nodes_view(nodes@)),
{
    let ghost nv = nodes_view(nodes@);
    let mut r: Vec<Element> = Vec::new();
    let mut i: usize = nodes.len();
    assert(nv.take(nv.len() as int) =~= nv);
    while i > 0
        invariant
            i <= nodes@.len(),
            nv == nodes_view(nodes@),
            elements_newest_first(nv) == elements_view(r@) + elements_newest_first(nv.take(i as int)),
        decreases i,
    {
        let n = &nodes[i - 1];
        let ghost t = nv.take(i as int);
        assert(t.drop_last() =~= nv.take(i - 1));
        assert(t.last() == n@);
        let ghost before = elements_view(r@);
        let cs = to_chars(n.name.as_str());
        assert(cs@.subrange(0, cs@.len() as int) =~= cs@);
        if range_eq(&cs, 0, cs.len(), &to_chars("item")) {
            r.push(Element::Item(Item::from_children(&n.children)));
            assert(elements_view(r@) =~= before + seq![element_of(n@).unwrap()]);
        } else if range_eq(&cs, 0, cs.len(), &to_chars("entry")) {
            r.push(Element::Entry(Entry::from_children(&n.children)));
            assert(elements_view(r@) =~= before + seq![element_of(n@).unwrap()]);
        } else {
            assert(elements_view(r@) =~= before + Seq::<ElementView>::empty());
        }
        proof {
            let head = match element_of(t.last()) {
                Some(e) => seq![e],
                None => Seq::<ElementView>::empty(),
            };
            assert(elements_newest_first(t) == head + elements_newest_first(nv.take(i - 1)));
            assert(before + (head + elements_newest_first(nv.take(i - 1))) =~= (before + head) + elements_newest_first(nv.take(i - 1)));
        }
        i = i - 1;
    }
    assert(nv.take(0) =~= Seq::<XmlNodeView>::empty());
    assert(elements_view(r@) + Seq::<ElementView>::empty() =~= elements_view(r@));
    r
}

/// The error message for a feed body that is no XML document.
pub open spec fn xml_error_message(detail: Seq<char>) -> Seq<char> {
    "parsed body is not a valid XML string: "@ + detail
}

/// The items and entries of a feed body, newest first (the reverse of
/// document order), or the error for a body that is no XML document.
pub fn parse_items(body: &str) -> (r: Result<Vec<Element>>)
    ensures
        match xml_document(body@) {
            Ok(nodes) => r matches Ok(v) && elements_view(v@) == elements_newest_first(nodes),
            Err(detail) => r matches Err(Error::Generic(m)) && m@ == xml_error_message(detail),
        },
{
    match parse_xml(body) {
        Ok(nodes) => Ok(elements_from_xml(&nodes)),
        Err(detail) => {
            let mut m = String::new();
            push_str(&mut m, "parsed body is not a valid XML string: ");
            push_str(&mut m, detail.as_str());
            Err(Error::Generic(m))
        },
    }
}

} // verus!
