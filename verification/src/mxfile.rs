//! Draw.io documents: `mxfile` XML with one `diagram` element per page.

use quick_xml::events::Event;
use vstd::prelude::*;
use vstd::string::StringExecFns;
use vstd::utf8::encode_utf8;

use crate::pattern::{byte_place, lemma_char_index_monotone, CharTable};
use crate::text::{
    ascii_lower, chars_of, find_last, last_index, lemma_last_index_from, lower, opt_view, or_empty,
    part, push_part, same_text, str_view, views,
};

verus! {

// ── Digests ────────────────────────────────────────────────────────

/// The SHA-1 digest that the `sha1` crate computes.
pub uninterp spec fn sha1_digest(data: Seq<u8>) -> Seq<u8>;

/// `sha1::Sha1::digest`: the SHA-1 digest of the bytes, which is twenty bytes
/// long.
#[verifier::external_body]
fn sha1_bytes(input: &[u8]) -> (r: Vec<u8>)
    ensures
        r@ == sha1_digest(input@),
        r@.len() == 20,
{
    <sha1::Sha1 as sha1::Digest>::digest(input).to_vec()
}

/// The lower-case hexadecimal digit of a number below sixteen.
pub open spec fn low_hex_digit(n: int) -> char {
    if n < 10 {
        (48 + n) as char
    } else {
        (87 + n) as char
    }
}

/// Bytes in lower-case hexadecimal digits.
pub open spec fn hex_text(bytes: Seq<u8>) -> Seq<char>
    decreases bytes.len(),
{
    if bytes.len() == 0 {
        Seq::empty()
    } else {
        let b = bytes.last() as int;
        hex_text(bytes.drop_last()).push(low_hex_digit(b / 16)).push(low_hex_digit(b % 16))
    }
}

fn hex_char(n: u8) -> (r: char)
    requires
        n < 16,
    ensures
        r == low_hex_digit(n as int),
{
    if n < 10 {
        (48 + n) as char
    } else {
        (87 + n) as char
    }
}

/// Writes bytes in lower-case hexadecimal digits.
pub fn hex_of(bytes: &[u8]) -> (r: String)
    ensures
        r@ == hex_text(bytes@),
{
    let mut out: String = String::new();
    let mut i: usize = 0;
    while i < bytes.len()
        invariant
            i <= bytes.len(),
            out@ == hex_text(bytes@.take(i as int)),
        decreases bytes.len() - i,
    {
        assert(bytes@.take(i + 1).drop_last() =~= bytes@.take(i as int));
        out.push(hex_char(bytes[i] / 16));
        out.push(hex_char(bytes[i] % 16));
        i += 1;
    }
    assert(bytes@.take(bytes@.len() as int) =~= bytes@);
    out
}

proof fn lemma_hex_length(bytes: Seq<u8>)
    ensures
        hex_text(bytes).len() == 2 * bytes.len(),
    decreases bytes.len(),
{
    if bytes.len() > 0 {
        lemma_hex_length(bytes.drop_last());
    }
}

/// The lower-case SHA-1 hex digest of the bytes: forty digits.
pub fn sha1_hex(input: &[u8]) -> (r: String)
    ensures
        r@ == hex_text(sha1_digest(input@)),
        r@.len() == 40,
{
    let digest = sha1_bytes(input);
    proof {
        lemma_hex_length(digest@);
    }
    hex_of(&digest)
}

// ── XML events ─────────────────────────────────────────────────────

/// An attribute of an XML element: its value as written, and with its
/// entities resolved where that is possible.
#[derive(Debug)]
pub struct XmlAttribute {
    pub key: String,
    pub value: String,
    pub text: Option<String>,
}

/// What an XML document is made of. Positions are byte positions: a tag starts
/// at `start` and ends before `end`. An attribute that cannot be read is none.
#[derive(Debug)]
pub enum XmlEvent {
    Start { name: String, attributes: Vec<Option<XmlAttribute>>, start: usize },
    End { name: String, end: usize },
    Empty { name: String, attributes: Vec<Option<XmlAttribute>>, start: usize, end: usize },
    Other,
}

/// What an attribute is.
pub struct AttributeModel {
    pub key: Seq<char>,
    pub value: Seq<char>,
    pub text: Option<Seq<char>>,
}

/// What an event is.
pub enum EventModel {
    Start { name: Seq<char>, attributes: Seq<Option<AttributeModel>>, start: usize },
    End { name: Seq<char>, end: usize },
    Empty { name: Seq<char>, attributes: Seq<Option<AttributeModel>>, start: usize, end: usize },
    Other,
}

impl View for XmlAttribute {
    type V = AttributeModel;

    open spec fn view(&self) -> AttributeModel {
        AttributeModel { key: self.key@, value: self.value@, text: opt_view(self.text) }
    }
}

impl View for XmlEvent {
    type V = EventModel;

    open spec fn view(&self) -> EventModel {
        match self {
            XmlEvent::Start { name, attributes, start } => EventModel::Start {
                name: name@,
                attributes: attribute_views(attributes@),
                start: *start,
            },
            XmlEvent::End { name, end } => EventModel::End { name: name@, end: *end },
            XmlEvent::Empty { name, attributes, start, end } => EventModel::Empty {
                name: name@,
                attributes: attribute_views(attributes@),
                start: *start,
                end: *end,
            },
            XmlEvent::Other => EventModel::Other,
        }
    }
}

/// The models of a list of attributes.
pub open spec fn attribute_views(v: Seq<Option<XmlAttribute>>) -> Seq<Option<AttributeModel>> {
    Seq::new(
        v.len(),
        |i: int|
            match v[i] {
                Some(a) => Some(a@),
                None => None,
            },
    )
}

/// The models of a list of events.
pub open spec fn event_views(v: Seq<XmlEvent>) -> Seq<EventModel> {
    Seq::new(v.len(), |i: int| v[i]@)
}

/// The events that `quick_xml::Reader` reads from a text, up to its end; none
/// where it reports an error.
pub uninterp spec fn xml_events(xml: Seq<char>) -> Option<Seq<EventModel>>;

/// A start tag as `quick_xml` holds it.
#[verifier::external_type_specification]
#[verifier::external_body]
pub struct ExBytesStart<'a>(quick_xml::events::BytesStart<'a>);

/// The attributes of a tag as plain values, none for one that
/// `quick_xml::events::BytesStart::attributes` reports an error for.
#[verifier::external_body]
fn plain_attributes(e: &quick_xml::events::BytesStart<'_>) -> Vec<Option<XmlAttribute>> {
    e.attributes()
        .map(|a| a.ok())
        .map(|a| a.map(|a| XmlAttribute {
            key: String::from_utf8_lossy(a.key.as_ref()).into_owned(),
            value: String::from_utf8_lossy(&a.value).into_owned(),
            text: a.unescape_value().ok().map(|t| t.into_owned()),
        }))
        .collect()
}

/// An event as `quick_xml` holds it.
#[verifier::external_type_specification]
#[verifier::external_body]
pub struct ExEvent<'a>(quick_xml::events::Event<'a>);

/// An event that was read between two positions as a plain value; none for the
/// end of the document.
#[verifier::external_body]
fn plain_event(event: quick_xml::events::Event<'_>, start: usize, end: usize) -> Option<XmlEvent> {
    let name = |n: &[u8]| String::from_utf8_lossy(n).into_owned();
    Some(match event {
        Event::Start(e) => {
            XmlEvent::Start { name: name(e.name().as_ref()), attributes: plain_attributes(&e), start }
        }
        Event::Empty(e) => {
            let attributes = plain_attributes(&e);
            XmlEvent::Empty { name: name(e.name().as_ref()), attributes, start, end }
        }
        Event::End(e) => XmlEvent::End { name: name(e.name().as_ref()), end },
        Event::Eof => return None,
        _ => XmlEvent::Other,
    })
}

/// `quick_xml::Reader::read_event`, called until the end of the document:
/// start tags, end tags, tags of empty elements, and all other events, in
/// order, with the byte positions that `Reader::buffer_position` gives. None
/// where the reader reports an error.
#[verifier::external_body]
fn read_xml_events(xml: &str) -> (r: Option<Vec<XmlEvent>>)
    ensures
        match r {
            Some(v) => xml_events(xml@) == Some(event_views(v@)),
            None => xml_events(xml@) is None,
        },
{
    let mut reader = quick_xml::Reader::from_str(xml);
    let mut events = Vec::new();
    loop {
        let start = reader.buffer_position() as usize;
        let event = reader.read_event().ok()?;
        match plain_event(event, start, reader.buffer_position() as usize) {
            Some(e) => events.push(e),
            None => return Some(events),
        }
    }
}

// ── Documents ──────────────────────────────────────────────────────

/// One `diagram` element: its identifier and its byte positions.
#[derive(Debug)]
pub struct Diagram {
    pub id: String,
    pub start: usize,
    pub end: usize,
}

/// A draw.io document: the opening tag of its root, for a document of one
/// page, and its diagrams.
#[derive(Debug)]
pub struct ParsedMxfile {
    pub open_tag: String,
    pub diagrams: Vec<Diagram>,
}

/// What a diagram is.
pub struct DiagramModel {
    pub id: Seq<char>,
    pub start: usize,
    pub end: usize,
}

impl View for Diagram {
    type V = DiagramModel;

    open spec fn view(&self) -> DiagramModel {
        DiagramModel { id: self.id@, start: self.start, end: self.end }
    }
}

/// The models of a list of diagrams.
pub open spec fn diagram_views(v: Seq<Diagram>) -> Seq<DiagramModel> {
    Seq::new(v.len(), |i: int| v[i]@)
}

/// The first `n` attributes of the root's opening tag. The number of pages is
/// set to one, everything else stays as written. An attribute that cannot be
/// read goes.
pub open spec fn root_attributes(attributes: Seq<Option<AttributeModel>>, n: int) -> Seq<char>
    decreases n,
{
    if n <= 0 {
        Seq::empty()
    } else {
        match attributes[n - 1] {
            Some(a) => root_attributes(attributes, n - 1) + " "@ + a.key + "=\""@ + (if a.key
                == "pages"@ {
                "1"@
            } else {
                a.value
            }) + "\""@,
            None => root_attributes(attributes, n - 1),
        }
    }
}

/// The opening tag of the root for a document of one page.
pub open spec fn root_tag(attributes: Seq<Option<AttributeModel>>) -> Seq<char> {
    "<mxfile"@ + root_attributes(attributes, attributes.len() as int) + ">"@
}

fn rebuild_root_tag(attributes: &Vec<Option<XmlAttribute>>) -> (r: String)
    ensures
        r@ == root_tag(attribute_views(attributes@)),
{
    let ghost all = attribute_views(attributes@);
    let mut inner: String = String::new();
    let mut i: usize = 0;
    while i < attributes.len()
        invariant
            all == attribute_views(attributes@),
            i <= attributes.len(),
            inner@ == root_attributes(all, i as int),
        decreases attributes.len() - i,
    {
        if let Some(a) = &attributes[i] {
            assert(all[i as int] == Some(a@));
            inner.append(" ");
            inner.append(&a.key);
            inner.append("=\"");
            if same_text(&a.key, "pages") {
                inner.append("1");
            } else {
                inner.append(&a.value);
            }
            inner.append("\"");
        }
        i += 1;
    }
    let mut out: String = "<mxfile".to_owned();
    out.append(&inner);
    out.append(">");
    out
}

/// The identifier that attributes give, from attribute `i` on; empty where
/// there is none that can be read.
pub open spec fn id_from(attributes: Seq<Option<AttributeModel>>, i: int) -> Seq<char>
    decreases attributes.len() - i,
{
    if i < 0 || i >= attributes.len() {
        Seq::empty()
    } else {
        match attributes[i] {
            Some(a) => if a.key == "id"@ {
                or_empty(a.text)
            } else {
                id_from(attributes, i + 1)
            },
            None => id_from(attributes, i + 1),
        }
    }
}

fn find_id(attributes: &Vec<Option<XmlAttribute>>) -> (r: String)
    ensures
        r@ == id_from(attribute_views(attributes@), 0),
{
    let ghost all = attribute_views(attributes@);
    let mut i: usize = 0;
    while i < attributes.len()
        invariant
            all == attribute_views(attributes@),
            i <= attributes.len(),
            id_from(all, 0) == id_from(all, i as int),
        decreases attributes.len() - i,
    {
        if let Some(a) = &attributes[i] {
            assert(all[i as int] == Some(a@));
            if same_text(&a.key, "id") {
                return match &a.text {
                    Some(t) => t.clone(),
                    None => String::new(),
                };
            }
        }
        i += 1;
    }
    String::new()
}

/// The event that ends the outermost of `depth + 1` open diagrams, searched
/// from event `i` on.
pub open spec fn diagram_end(events: Seq<EventModel>, i: int, depth: int) -> Option<int>
    decreases events.len() - i,
{
    if i < 0 || i >= events.len() {
        None
    } else {
        match events[i] {
            EventModel::Start { name, attributes, start } => diagram_end(
                events,
                i + 1,
                if name == "diagram"@ {
                    depth + 1
                } else {
                    depth
                },
            ),
            EventModel::End { name, end } => if name != "diagram"@ {
                diagram_end(events, i + 1, depth)
            } else if depth == 0 {
                Some(i)
            } else {
                diagram_end(events, i + 1, depth - 1)
            },
            _ => diagram_end(events, i + 1, depth),
        }
    }
}

fn find_diagram_end(events: &Vec<XmlEvent>, from: usize) -> (r: Option<(usize, usize)>)
    requires
        from <= events.len(),
    ensures
        match r {
            Some((j, end)) => diagram_end(event_views(events@), from as int, 0) == Some(j as int)
                && from <= j < events.len() && event_views(events@)[j as int]->End_end == end,
            None => diagram_end(event_views(events@), from as int, 0) is None,
        },
{
    let ghost all = event_views(events@);
    let mut depth: usize = 0;
    let mut i: usize = from;
    while i < events.len()
        invariant
            all == event_views(events@),
            from <= i <= events.len(),
            depth <= i - from,
            diagram_end(all, from as int, 0) == diagram_end(all, i as int, depth as int),
        decreases events.len() - i,
    {
        assert(all[i as int] == events@[i as int]@);
        match &events[i] {
            XmlEvent::Start { name, attributes, start } => {
                if same_text(name, "diagram") {
                    depth += 1;
                }
            },
            XmlEvent::End { name, end } => {
                if same_text(name, "diagram") {
                    if depth == 0 {
                        return Some((i, *end));
                    }
                    depth -= 1;
                }
            },
            _ => {},
        }
        i += 1;
    }
    None
}

/// What is known of a document while its events are read: how many elements
/// are open, whether the outermost of them is an `mxfile` element, and the
/// opening tag and the diagrams so far.
pub struct DocumentModel {
    pub depth: int,
    pub in_root: bool,
    pub open: Option<Seq<char>>,
    pub diagrams: Seq<DiagramModel>,
}

impl DocumentModel {
    /// A document of which nothing has been read.
    pub open spec fn unread() -> DocumentModel {
        DocumentModel { depth: 0, in_root: false, open: None, diagrams: Seq::empty() }
    }

    /// Whether a `diagram` element that comes next stands directly in the
    /// root.
    pub open spec fn takes_diagrams(self) -> bool {
        self.depth == 1 && self.in_root
    }

    /// The document with a diagram more.
    pub open spec fn with_diagram(self, d: DiagramModel) -> DocumentModel {
        DocumentModel { diagrams: self.diagrams.push(d), ..self }
    }

    /// The document behind a start tag that is no diagram of the root.
    pub open spec fn opened(
        self,
        name: Seq<char>,
        attributes: Seq<Option<AttributeModel>>,
    ) -> DocumentModel {
        if self.depth > 0 {
            DocumentModel { depth: self.depth + 1, ..self }
        } else if name == "mxfile"@ {
            DocumentModel {
                depth: 1,
                in_root: true,
                open: Some(root_tag(attributes)),
                ..self
            }
        } else {
            DocumentModel { depth: 1, in_root: false, ..self }
        }
    }

    /// The document behind an end tag.
    pub open spec fn closed(self) -> DocumentModel {
        DocumentModel {
            depth: if self.depth > 0 {
                self.depth - 1
            } else {
                0
            },
            ..self
        }
    }
}

/// The document after its events from `i` on, given what came before. Its
/// root is an `mxfile` element that stands in no other, its diagrams are the
/// `diagram` elements directly in the root. None where one is not closed.
pub open spec fn document_from(events: Seq<EventModel>, i: int, d: DocumentModel) -> Option<
    DocumentModel,
>
    decreases events.len() - i,
{
    if i < 0 || i >= events.len() {
        Some(d)
    } else {
        match events[i] {
            EventModel::Start { name, attributes, start } => if d.takes_diagrams() && name
                == "diagram"@ {
                match diagram_end(events, i + 1, 0) {
                    Some(j) => if i < j < events.len() {
                        let id = id_from(attributes, 0);
                        let end = events[j]->End_end;
                        document_from(
                            events,
                            j + 1,
                            d.with_diagram(DiagramModel { id, start, end }),
                        )
                    } else {
                        None
                    },
                    None => None,
                }
            } else {
                document_from(events, i + 1, d.opened(name, attributes))
            },
            EventModel::End { name, end } => document_from(events, i + 1, d.closed()),
            EventModel::Empty { name, attributes, start, end } => if d.takes_diagrams() && name
                == "diagram"@ {
                let id = id_from(attributes, 0);
                document_from(events, i + 1, d.with_diagram(DiagramModel { id, start, end }))
            } else {
                document_from(events, i + 1, d.opened(name, attributes).closed())
            },
            EventModel::Other => document_from(events, i + 1, d),
        }
    }
}

/// The opening tag and the diagrams of a document; none where it has no
/// `mxfile` root or a diagram is not closed.
pub open spec fn document(events: Seq<EventModel>) -> Option<(Seq<char>, Seq<DiagramModel>)> {
    match document_from(events, 0, DocumentModel::unread()) {
        Some(d) => match d.open {
            Some(open) => Some((open, d.diagrams)),
            None => None,
        },
        None => None,
    }
}

/// A document while its events are read.
struct DocumentReader {
    depth: usize,
    in_root: bool,
    open: Option<String>,
    diagrams: Vec<Diagram>,
}

impl View for DocumentReader {
    type V = DocumentModel;

    closed spec fn view(&self) -> DocumentModel {
        DocumentModel {
            depth: self.depth as int,
            in_root: self.in_root,
            open: opt_view(self.open),
            diagrams: diagram_views(self.diagrams@),
        }
    }
}

impl DocumentReader {
    fn add_diagram(&mut self, diagram: Diagram)
        ensures
            final(self)@ == old(self)@.with_diagram(diagram@),
            final(self).depth == old(self).depth,
    {
        let ghost before = diagram_views(self.diagrams@);
        self.diagrams.push(diagram);
        assert(diagram_views(self.diagrams@) =~= before.push(diagram@));
    }

    fn open_element(&mut self, name: &str, attributes: &Vec<Option<XmlAttribute>>)
        requires
            old(self).depth < usize::MAX,
        ensures
            final(self)@ == old(self)@.opened(name@, attribute_views(attributes@)),
            final(self).depth == old(self).depth + 1,
    {
        if self.depth == 0 {
            self.in_root = same_text(name, "mxfile");
            if self.in_root {
                self.open = Some(rebuild_root_tag(attributes));
            }
        }
        self.depth = self.depth + 1;
    }

    fn close_element(&mut self)
        ensures
            final(self)@ == old(self)@.closed(),
            final(self).depth <= old(self).depth,
    {
        if self.depth > 0 {
            self.depth = self.depth - 1;
        }
    }
}

/// Reads a document from its events.
pub fn read_document(events: &Vec<XmlEvent>) -> (r: Option<ParsedMxfile>)
    ensures
        match r {
            Some(p) => document(event_views(events@)) == Some(
                (p.open_tag@, diagram_views(p.diagrams@)),
            ),
            None => document(event_views(events@)) is None,
        },
{
    let ghost all = event_views(events@);
    let mut d = DocumentReader { depth: 0, in_root: false, open: None, diagrams: Vec::new() };
    let mut i: usize = 0;
    assert(diagram_views(d.diagrams@) =~= Seq::empty());
    while i < events.len()
        invariant
            all == event_views(events@),
            i <= events.len(),
            d.depth <= i,
            document_from(all, 0, DocumentModel::unread()) == document_from(all, i as int, d@),
        decreases events.len() - i,
    {
        assert(all[i as int] == events@[i as int]@);
        let in_root = d.depth == 1 && d.in_root;
        match &events[i] {
            XmlEvent::Start { name, attributes, start } => {
                if in_root && same_text(name, "diagram") {
                    match find_diagram_end(events, i + 1) {
                        Some((j, end)) => {
                            d.add_diagram(
                                Diagram { id: find_id(attributes), start: *start, end },
                            );
                            i = j;
                        },
                        None => {
                            return None;
                        },
                    }
                } else {
                    d.open_element(name, attributes);
                }
            },
            XmlEvent::End { name, end } => d.close_element(),
            XmlEvent::Empty { name, attributes, start, end } => {
                if in_root && same_text(name, "diagram") {
                    d.add_diagram(Diagram { id: find_id(attributes), start: *start, end: *end });
                } else {
                    d.open_element(name, attributes);
                    d.close_element();
                }
            },
            XmlEvent::Other => {},
        }
        i += 1;
    }
    match d.open {
        Some(open_tag) => Some(ParsedMxfile { open_tag, diagrams: d.diagrams }),
        None => None,
    }
}

/// The opening tag and the diagrams of an XML text.
pub open spec fn parsed_document(xml: Seq<char>) -> Option<(Seq<char>, Seq<DiagramModel>)> {
    match xml_events(xml) {
        Some(events) => document(events),
        None => None,
    }
}

/// Reads a draw.io document: the opening tag of its `<mxfile>` root, with
/// `pages` set to one, and the byte positions of each `<diagram>` element
/// directly in it. None where the document cannot be read or has no `<mxfile>`
/// root.
pub fn parse_mxfile(xml: &str) -> (r: Option<ParsedMxfile>)
    ensures
        match r {
            Some(p) => parsed_document(xml@) == Some((p.open_tag@, diagram_views(p.diagrams@))),
            None => parsed_document(xml@) is None,
        },
{
    match read_xml_events(xml) {
        Some(events) => read_document(&events),
        None => None,
    }
}

// ── Selecting a diagram ────────────────────────────────────────────

/// The first place, from `i` on, at which a digest is listed.
pub open spec fn digest_place(digests: Seq<Seq<char>>, digest: Seq<char>, i: int) -> Option<int>
    decreases digests.len() - i,
{
    if i < 0 || i >= digests.len() {
        None
    } else if digests[i] == digest {
        Some(i)
    } else {
        digest_place(digests, digest, i + 1)
    }
}

/// The number of the diagram that is asked for, given the digests of their
/// identifiers: the first, or the one with the given digest, which counts in
/// any letter case.
pub open spec fn wanted_place(digests: Seq<Seq<char>>, aspect_hash: Option<Seq<char>>) -> Option<
    int,
> {
    match aspect_hash {
        None => if digests.len() > 0 {
            Some(0)
        } else {
            None
        },
        Some(hash) => digest_place(digests, lower(hash), 0),
    }
}

/// The number of the diagram that is asked for, given the digests of their
/// identifiers.
pub fn choose_diagram(digests: &Vec<String>, aspect_hash: Option<&str>) -> (r: Option<usize>)
    ensures
        match r {
            Some(k) => wanted_place(views(digests@), str_view(aspect_hash)) == Some(k as int) && k
                < digests@.len(),
            None => wanted_place(views(digests@), str_view(aspect_hash)) is None,
        },
{
    let ghost all = views(digests@);
    match aspect_hash {
        None => {
            assert(all.len() == digests@.len());
            if digests.len() > 0 {
                Some(0)
            } else {
                None
            }
        },
        Some(hash) => {
            let digest = ascii_lower(hash);
            let mut i: usize = 0;
            while i < digests.len()
                invariant
                    all == views(digests@),
                    aspect_hash == Some(hash),
                    digest@ == lower(hash@),
                    i <= digests.len(),
                    digest_place(all, digest@, 0) == digest_place(all, digest@, i as int),
                decreases digests.len() - i,
            {
                assert(all[i as int] == digests@[i as int]@);
                if same_text(&digests[i], &digest) {
                    return Some(i);
                }
                i += 1;
            }
            None
        },
    }
}

/// The digests of the identifiers of diagrams.
pub open spec fn id_digests(diagrams: Seq<DiagramModel>) -> Seq<Seq<char>> {
    Seq::new(diagrams.len(), |i: int| hex_text(sha1_digest(encode_utf8(diagrams[i].id))))
}

/// The diagram that is asked for: the first, or the one whose identifier has
/// the given digest.
pub open spec fn selected(diagrams: Seq<DiagramModel>, aspect_hash: Option<Seq<char>>) -> Option<
    DiagramModel,
> {
    match wanted_place(id_digests(diagrams), aspect_hash) {
        Some(k) => Some(diagrams[k]),
        None => None,
    }
}

/// The number of the diagram that is asked for.
pub fn select_diagram(diagrams: &Vec<Diagram>, aspect_hash: Option<&str>) -> (r: Option<usize>)
    ensures
        match r {
            Some(k) => k < diagrams@.len() && selected(
                diagram_views(diagrams@),
                str_view(aspect_hash),
            ) == Some(diagrams@[k as int]@),
            None => selected(diagram_views(diagrams@), str_view(aspect_hash)) is None,
        },
{
    let ghost all = diagram_views(diagrams@);
    let mut digests: Vec<String> = Vec::new();
    let mut i: usize = 0;
    while i < diagrams.len()
        invariant
            all == diagram_views(diagrams@),
            i <= diagrams.len(),
            digests.len() == i,
            forall|k: int| 0 <= k < i ==> (#[trigger] digests[k])@ == id_digests(all)[k],
        decreases diagrams.len() - i,
    {
        assert(all[i as int] == diagrams@[i as int]@);
        digests.push(sha1_hex(diagrams[i].id.as_str().as_bytes()));
        i += 1;
    }
    assert(views(digests@) =~= id_digests(all));
    choose_diagram(&digests, aspect_hash)
}

/// The part of a text between two byte positions; none where they are not in
/// order, or one of them is not at the start of a character or the end of the
/// text.
pub open spec fn byte_part(t: Seq<char>, start: usize, end: usize) -> Option<Seq<char>> {
    match (byte_place(t, start as int), byte_place(t, end as int)) {
        (Some(a), Some(b)) => if start <= end {
            Some(t.subrange(a, b))
        } else {
            None
        },
        _ => None,
    }
}

/// What a document ends with: its last closing root tag and all behind it.
pub open spec fn document_tail(xml: Seq<char>) -> Seq<char> {
    match last_index(xml, "</mxfile>"@) {
        Some(i) => xml.skip(i),
        None => "</mxfile>"@,
    }
}

/// A document of one diagram.
pub open spec fn single_document(xml: Seq<char>, open_tag: Seq<char>, d: DiagramModel) -> Option<
    Seq<char>,
> {
    match byte_part(xml, d.start, d.end) {
        Some(element) => Some(open_tag + element + document_tail(xml)),
        None => None,
    }
}

/// Cuts a document down to one of its diagrams.
pub fn keep_diagram(xml: &str, open_tag: &str, diagram: &Diagram) -> (r: Option<String>)
    ensures
        opt_view(r) == single_document(xml@, open_tag@, diagram@),
{
    let t = chars_of(xml);
    let table = CharTable::new(xml);
    let (a, b) = match (table.at(diagram.start), table.at(diagram.end)) {
        (Some(a), Some(b)) => (a, b),
        _ => {
            return None;
        },
    };
    if diagram.start > diagram.end {
        return None;
    }
    proof {
        lemma_char_index_monotone(t@, diagram.start as int, diagram.end as int);
    }
    let mut out: String = open_tag.to_owned();
    push_part(&mut out, &t, a, b);
    proof {
        lemma_last_index_from(t@, "</mxfile>"@, t@.len() - "</mxfile>"@.len());
    }
    match find_last(&t, "</mxfile>") {
        Some(i) => {
            let tail = part(&t, i, t.len());
            assert(tail@ =~= t@.skip(i as int));
            out.append(&tail);
        },
        None => out.append("</mxfile>"),
    }
    Some(out)
}

/// A document cut down to the diagram that is asked for; none where it cannot
/// be read or has no such diagram.
pub open spec fn filtered(xml: Seq<char>, aspect_hash: Option<Seq<char>>) -> Option<Seq<char>> {
    match parsed_document(xml) {
        Some((open_tag, diagrams)) => match selected(diagrams, aspect_hash) {
            Some(d) => single_document(xml, open_tag, d),
            None => None,
        },
        None => None,
    }
}

/// Cuts a draw.io document down to the `<diagram>` element selected by
/// `aspect_hash`:
///
/// * `None`: the first `<diagram>` element
/// * `Some(hash)`: the `<diagram>` whose `id` SHA-1 hashes to `hash`
///
/// None where there is no such diagram.
pub fn filter_mxfile_to_aspect_hash(xml: &str, aspect_hash: Option<&str>) -> (r: Option<String>)
    ensures
        opt_view(r) == filtered(xml@, str_view(aspect_hash)),
{
    match parse_mxfile(xml) {
        Some(p) => match select_diagram(&p.diagrams, aspect_hash) {
            Some(k) => keep_diagram(xml, &p.open_tag, &p.diagrams[k]),
            None => None,
        },
        None => None,
    }
}

/// The digest may be written in any letter case.
pub proof fn law_aspect_hash_in_any_case(xml: Seq<char>, hash: Seq<char>)
    ensures
        filtered(xml, Some(hash)) == filtered(xml, Some(lower(hash))),
{
    assert(lower(lower(hash)) =~= lower(hash));
}

} // verus!
