//! A small XML tree builder on top of a streaming reader, and a streaming
//! rewriter of attribute values.
//!
//! The tree is an arena: nodes live in one vector in the order in which their
//! start tags were read, and refer to their parent and children by index.
use vstd::prelude::*;
use vstd::slice::slice_subrange;
use vstd::slice::slice_to_vec;
use vstd::string::StrSliceExecFns;
use vstd::utf8::encode_utf8;
use xml::reader::XmlEvent as ReaderEvent;
use xml::writer::EventWriter;
use xml::writer::XmlEvent as WriterEvent;

verus! {

/// The model of a qualified name: local part and bound namespace URI.
pub ghost struct NameModel {
    pub local: Seq<char>,
    pub ns: Option<Seq<char>>,
}

/// The model of an attribute.
pub ghost struct AttrModel {
    pub name: NameModel,
    pub value: Seq<char>,
}

/// The model of one event of the XML reader.
pub ghost enum EventModel {
    Start(NameModel, Seq<AttrModel>),
    End(NameModel),
    Text(Seq<char>),
    CData(Seq<char>),
    Other,
}

/// The model of a tree node.
pub ghost struct NodeModel {
    pub name: NameModel,
    pub attrs: Seq<AttrModel>,
    pub text: Option<Seq<char>>,
    pub cdata: Option<Seq<char>>,
    pub parent: Option<usize>,
    pub children: Seq<usize>,
}

pub open spec fn opt_view(o: Option<String>) -> Option<Seq<char>> {
    match o {
        Some(s) => Some(s@),
        None => None,
    }
}

/// A qualified XML name.
pub struct QualName {
    pub local_name: String,
    pub namespace: Option<String>,
}

impl View for QualName {
    type V = NameModel;

    open spec fn view(&self) -> NameModel {
        NameModel { local: self.local_name@, ns: opt_view(self.namespace) }
    }
}

/// An attribute of an element, with its qualified name.
pub struct XmlAttr {
    pub name: QualName,
    pub value: String,
}

impl View for XmlAttr {
    type V = AttrModel;

    open spec fn view(&self) -> AttrModel {
        AttrModel { name: self.name@, value: self.value@ }
    }
}

pub open spec fn attrs_view(a: Seq<XmlAttr>) -> Seq<AttrModel> {
    a.map_values(|x: XmlAttr| x@)
}

/// What the tree builder and the rewriter read of one reader event.
pub enum ReadEvent {
    StartElement { name: QualName, attributes: Vec<XmlAttr> },
    EndElement { name: QualName },
    Characters(String),
    CData(String),
    Other,
}

impl View for ReadEvent {
    type V = EventModel;

    open spec fn view(&self) -> EventModel {
        match self {
            ReadEvent::StartElement { name, attributes } => EventModel::Start(
                name@,
                attrs_view(attributes@),
            ),
            ReadEvent::EndElement { name } => EventModel::End(name@),
            ReadEvent::Characters(s) => EventModel::Text(s@),
            ReadEvent::CData(s) => EventModel::CData(s@),
            ReadEvent::Other => EventModel::Other,
        }
    }
}

pub open spec fn events_view(e: Seq<ReadEvent>) -> Seq<EventModel> {
    e.map_values(|x: ReadEvent| x@)
}

/// A node of a parsed XML tree.
pub struct XMLNode {
    pub name: QualName,
    pub attrs: Vec<XmlAttr>,
    pub text: Option<String>,
    pub cdata: Option<String>,
    pub parent: Option<usize>,
    pub children: Vec<usize>,
}

impl View for XMLNode {
    type V = NodeModel;

    open spec fn view(&self) -> NodeModel {
        NodeModel {
            name: self.name@,
            attrs: attrs_view(self.attrs@),
            text: opt_view(self.text),
            cdata: opt_view(self.cdata),
            parent: self.parent,
            children: self.children@,
        }
    }
}

/// The XML reader of this crate: three named entities besides XML's own.
pub struct XMLReader {}

/// A parsed XML document: an arena of nodes whose first node is the root.
pub struct XMLTree {
    pub nodes: Vec<XMLNode>,
}

impl View for XMLTree {
    type V = Seq<NodeModel>;

    open spec fn view(&self) -> Seq<NodeModel> {
        self.nodes@.map_values(|n: XMLNode| n@)
    }
}

/// The state of the tree builder: the nodes made so far and the stack of
/// elements that are still open.
pub ghost struct BuildState {
    pub nodes: Seq<NodeModel>,
    pub open: Seq<usize>,
}

/// One event applied to the builder's state. A start tag makes a node, the
/// last child of the innermost open element, and opens it; an end tag closes
/// the innermost open element (if any); text and CDATA replace the innermost
/// open element's text or CDATA content; other events change nothing.
pub open spec fn build_step(s: BuildState, e: EventModel) -> BuildState {
    match e {
        EventModel::Start(name, attrs) => {
            let k = s.nodes.len() as usize;
            let parent = if s.open.len() > 0 {
                Some(s.open.last())
            } else {
                None
            };
            let node = NodeModel {
                name,
                attrs,
                text: None,
                cdata: None,
                parent,
                children: seq![],
            };
            let nodes = match parent {
                Some(p) => s.nodes.update(
                    p as int,
                    NodeModel { children: s.nodes[p as int].children.push(k), ..s.nodes[p as int] },
                ),
                None => s.nodes,
            };
            BuildState { nodes: nodes.push(node), open: s.open.push(k) }
        },
        EventModel::End(_) => {
            if s.open.len() > 0 {
                BuildState { open: s.open.drop_last(), ..s }
            } else {
                s
            }
        },
        EventModel::Text(t) => {
            if s.open.len() > 0 {
                let p = s.open.last() as int;
                BuildState {
                    nodes: s.nodes.update(p, NodeModel { text: Some(t), ..s.nodes[p] }),
                    ..s
                }
            } else {
                s
            }
        },
        EventModel::CData(t) => {
            if s.open.len() > 0 {
                let p = s.open.last() as int;
                BuildState {
                    nodes: s.nodes.update(p, NodeModel { cdata: Some(t), ..s.nodes[p] }),
                    ..s
                }
            } else {
                s
            }
        },
        EventModel::Other => s,
    }
}

/// The builder's state after a sequence of events.
pub open spec fn build_run(events: Seq<EventModel>) -> BuildState
    decreases events.len(),
{
    if events.len() == 0 {
        BuildState { nodes: seq![], open: seq![] }
    } else {
        build_step(build_run(events.drop_last()), events.last())
    }
}

/// Well-formedness of a node arena: every child index is in range and greater
/// than its parent's index, and every parent index is in range and smaller.
pub open spec fn arena_wf(nodes: Seq<NodeModel>) -> bool {
    &&& forall|i: int, j: int|
        0 <= i < nodes.len() && 0 <= j < nodes[i].children.len() ==> i < #[trigger] nodes[i].children[j] < nodes.len()
    &&& forall|i: int|
        0 <= i < nodes.len() && nodes[i].parent is Some ==> nodes[i].parent->0 < i
}

/// The open stack holds increasing indices of existing nodes.
pub open spec fn open_wf(s: BuildState) -> bool {
    &&& forall|i: int| 0 <= i < s.open.len() ==> s.open[i] < s.nodes.len()
    &&& forall|i: int, j: int| 0 <= i < j < s.open.len() ==> #[trigger] s.open[i] < #[trigger] s.open[j]
}

proof fn lemma_build_run_wf(events: Seq<EventModel>)
    requires
        events.len() <= usize::MAX,
    ensures
        arena_wf(build_run(events).nodes),
        open_wf(build_run(events)),
        build_run(events).nodes.len() <= events.len(),
    decreases events.len(),
{
    if events.len() > 0 {
        lemma_build_run_wf(events.drop_last());
        let s = build_run(events.drop_last());
        let t = build_run(events);
        assert(t == build_step(s, events.last()));
        match events.last() {
            EventModel::Start(name, attrs) => {
                let k = s.nodes.len() as usize;
                assert forall|i: int, j: int|
                    0 <= i < t.nodes.len() && 0 <= j < t.nodes[i].children.len() implies i
                    < #[trigger] t.nodes[i].children[j] < t.nodes.len() by {
                    if s.open.len() > 0 && i == s.open.last() as int {
                        if j < s.nodes[i].children.len() {
                        } else {
                            assert(t.nodes[i].children[j] == k);
                        }
                    }
                }
                assert forall|i: int, j: int| 0 <= i < j < t.open.len() implies #[trigger] t.open[i]
                    < #[trigger] t.open[j] by {
                    if j == t.open.len() - 1 {
                        assert(t.open[j] == k);
                    }
                }
            },
            _ => {},
        }
    }
}

#[verifier::external_type_specification]
#[verifier::external_body]
pub struct ExReaderError(xml::reader::Error);

#[verifier::external_type_specification]
#[verifier::external_body]
pub struct ExEmitterError(xml::writer::Error);

/// Errors of parsing and rewriting XML.
pub enum XMLError {
    /// The XML reader could not tokenize the input.
    Reader(xml::reader::Error),
    /// The XML writer failed while rewriting.
    Emitter(xml::writer::Error),
    /// An attribute or element that the caller requires is missing.
    AttrNotFound(String),
    /// The builder's stack was left in a state it cannot recover from.
    InvalidState,
    /// The input holds no element.
    NoElements,
    /// The input is shorter than four bytes.
    NoContent,
}

impl XMLNode {
    fn placeholder() -> (r: XMLNode) {
        XMLNode {
            name: QualName { local_name: String::new(), namespace: None },
            attrs: Vec::new(),
            text: None,
            cdata: None,
            parent: None,
            children: Vec::new(),
        }
    }
}

/// Whether a sequence of events holds a start tag.
pub open spec fn has_start(events: Seq<EventModel>) -> bool {
    exists|i: int| 0 <= i < events.len() && events[i] is Start
}

proof fn lemma_nodes_iff_start(events: Seq<EventModel>)
    requires
        events.len() <= usize::MAX,
    ensures
        build_run(events).nodes.len() > 0 <==> has_start(events),
    decreases events.len(),
{
    if events.len() > 0 {
        let d = events.drop_last();
        lemma_nodes_iff_start(d);
        lemma_build_run_wf(d);
        let s = build_run(d);
        assert(build_run(events) == build_step(s, events.last()));
        if events.last() is Start {
            assert(events[events.len() - 1] is Start);
        } else {
            assert(build_run(events).nodes.len() == s.nodes.len());
            if has_start(d) {
                let i = choose|i: int| 0 <= i < d.len() && d[i] is Start;
                assert(events[i] is Start);
            }
            if has_start(events) {
                let i = choose|i: int| 0 <= i < events.len() && events[i] is Start;
                assert(d[i] is Start);
            }
        }
    }
}

impl XMLReader {
    /// Builds the tree of a document from its reader events: the first start
    /// tag is the root, each later start tag becomes the last child of the
    /// innermost open element, end tags close it, and the last text (or
    /// CDATA) event seen while an element is innermost is its text (or CDATA).
    pub fn parse_xml(events: Vec<ReadEvent>) -> (r: Result<XMLTree, XMLError>)
        ensures
            match r {
                Ok(t) => has_start(events_view(events@)) && t@ == build_run(events_view(events@)).nodes,
                Err(e) => !has_start(events_view(events@)) && e is NoElements,
            },
    {
        let mut events = events;
        let ghost evm = events_view(events@);
        let ghost orig = events@;
        let n = events.len();
        let mut tree = XMLTree { nodes: Vec::new() };
        let mut open: Vec<usize> = Vec::new();
        let mut i: usize = 0;
        proof {
            assert(evm.take(0) =~= seq![]);
            assert(tree@ =~= seq![]);
        }
        while i < n
            invariant
                n == events@.len(),
                n == orig.len(),
                evm == events_view(orig),
                i <= n,
                forall|j: int| i <= j < n ==> events@[j] == orig[j],
                tree@ == build_run(evm.take(i as int)).nodes,
                open@ == build_run(evm.take(i as int)).open,
                tree@.len() == tree.nodes@.len(),
            decreases n - i,
        {
            let ghost s = build_run(evm.take(i as int));
            proof {
                assert(evm.take(i as int + 1).drop_last() =~= evm.take(i as int));
                lemma_build_run_wf(evm.take(i as int));
            }
            let mut ev = ReadEvent::Other;
            events.set_and_swap(i, &mut ev);
            assert(ev@ == evm[i as int]);
            match ev {
                ReadEvent::StartElement { name, attributes } => {
                    let k = tree.nodes.len();
                    let parent = if open.len() > 0 {
                        Some(open[open.len() - 1])
                    } else {
                        None
                    };
                    if let Some(p) = parent {
                        let mut pn = XMLNode::placeholder();
                        tree.nodes.set_and_swap(p, &mut pn);
                        pn.children.push(k);
                        tree.nodes.set_and_swap(p, &mut pn);
                    }
                    let node = XMLNode {
                        name,
                        attrs: attributes,
                        text: None,
                        cdata: None,
                        parent,
                        children: Vec::new(),
                    };
                    tree.nodes.push(node);
                    open.push(k);
                    proof {
                        let t = build_step(s, evm[i as int]);
                        assert(tree@ =~= t.nodes);
                    }
                },
                ReadEvent::EndElement { name } => {
                    if open.len() > 0 {
                        open.pop();
                    }
                },
                ReadEvent::Characters(text) => {
                    if open.len() > 0 {
                        let p = open[open.len() - 1];
                        let mut pn = XMLNode::placeholder();
                        tree.nodes.set_and_swap(p, &mut pn);
                        pn.text = Some(text);
                        tree.nodes.set_and_swap(p, &mut pn);
                        proof {
                            let t = build_step(s, evm[i as int]);
                            assert(tree@ =~= t.nodes);
                        }
                    }
                },
                ReadEvent::CData(text) => {
                    if open.len() > 0 {
                        let p = open[open.len() - 1];
                        let mut pn = XMLNode::placeholder();
                        tree.nodes.set_and_swap(p, &mut pn);
                        pn.cdata = Some(text);
                        tree.nodes.set_and_swap(p, &mut pn);
                        proof {
                            let t = build_step(s, evm[i as int]);
                            assert(tree@ =~= t.nodes);
                        }
                    }
                },
                ReadEvent::Other => {},
            }
            i = i + 1;
        }
        proof {
            assert(evm.take(n as int) =~= evm);
            lemma_nodes_iff_start(evm);
        }
        if tree.nodes.len() == 0 {
            Err(XMLError::NoElements)
        } else {
            Ok(tree)
        }
    }
}

#[verifier::external_type_specification]
#[verifier::external_body]
pub struct ExReaderEvent(xml::reader::XmlEvent);

/// The events that xml-rs reads of `input` with the given extra entities, up
/// to the end of the document or to the first error, and whether it stopped
/// on an error.
pub uninterp spec fn xml_read(input: Seq<u8>, entities: Seq<(Seq<char>, Seq<char>)>) -> (
    Seq<xml::reader::XmlEvent>,
    bool,
);

/// What the tree builder and the rewriter read of one xml-rs reader event.
pub uninterp spec fn event_model(ev: xml::reader::XmlEvent) -> EventModel;

pub open spec fn entities_view(t: Seq<(String, String)>) -> Seq<(Seq<char>, Seq<char>)> {
    t.map_values(|e: (String, String)| (e.0@, e.1@))
}

/// The events of `input` as the library reads them.
pub open spec fn xml_events(input: Seq<u8>, entities: Seq<(Seq<char>, Seq<char>)>) -> Seq<EventModel> {
    xml_read(input, entities).0.map_values(|e: xml::reader::XmlEvent| event_model(e))
}

/// Relies on xml-rs's `ParserConfig::add_entity` and `create_reader`: the
/// events of `input`, read with the given extra entities, up to the end of the
/// document or up to the first error, which comes back beside them. Reading
/// bytes in memory depends on them and the entities alone.
#[verifier::external_body]
fn read_raw_events(input: &[u8], entities: &Vec<(String, String)>) -> (r: (
    Vec<ReaderEvent>,
    Option<xml::reader::Error>,
))
    ensures
        r.0@ == xml_read(input@, entities_view(entities@)).0,
        (r.1 is Some) == xml_read(input@, entities_view(entities@)).1,
{
    let mut config = xml::reader::ParserConfig::new();
    for (name, value) in entities.iter() {
        config = config.add_entity(name.clone(), value.clone());
    }
    let mut events = Vec::new();
    for e in config.create_reader(input) {
        match e {
            Ok(ev) => events.push(ev),
            Err(err) => return (events, Some(err)),
        }
    }
    (events, None)
}

/// Relies on the variants of xml-rs's reader `XmlEvent`: keeps the names,
/// attributes and text that the tree builder and the rewriter read.
#[verifier::external_body]
fn event_view(ev: &ReaderEvent) -> (r: ReadEvent)
    ensures
        r@ == event_model(*ev),
{
    let q = |n: &xml::name::OwnedName|
        QualName { local_name: n.local_name.clone(), namespace: n.namespace.clone() };
    match ev {
        ReaderEvent::StartElement { name, attributes, .. } => ReadEvent::StartElement {
            name: q(name),
            attributes: attributes.iter().map(|a| XmlAttr { name: q(&a.name), value: a.value.clone() }).collect(),
        },
        ReaderEvent::EndElement { name } => ReadEvent::EndElement { name: q(name) },
        ReaderEvent::Characters(s) => ReadEvent::Characters(s.clone()),
        ReaderEvent::CData(s) => ReadEvent::CData(s.clone()),
        _ => ReadEvent::Other,
    }
}

/// UTF-16 decoding: a unit outside the surrogate range is its own
/// character, a leading surrogate followed by a trailing one makes one
/// character, and any other surrogate becomes U+FFFD.
pub open spec fn utf16_lossy(units: Seq<u16>) -> Seq<char>
    decreases units.len(),
{
    if units.len() == 0 {
        seq![]
    } else {
        let u = units[0] as u32;
        if u < 0xd800 || u > 0xdfff {
            seq![u as char] + utf16_lossy(units.drop_first())
        } else if u <= 0xdbff && units.len() >= 2 && 0xdc00 <= units[1] <= 0xdfff {
            let c = 0x10000 + (u - 0xd800) * 0x400 + (units[1] as u32 - 0xdc00);
            seq![(c as u32) as char] + utf16_lossy(units.subrange(2, units.len() as int))
        } else {
            seq!['\u{fffd}'] + utf16_lossy(units.drop_first())
        }
    }
}

/// Relies on `String::from_utf16_lossy`: decodes UTF-16, replacing invalid
/// code units by U+FFFD.
#[verifier::external_body]
fn from_utf16_lossy(units: &[u16]) -> (r: String)
    ensures
        r@ == utf16_lossy(units@),
{
    String::from_utf16_lossy(units)
}

/// The code units of UTF-16 text, two bytes each, in the given byte order; a
/// last odd byte is dropped.
pub open spec fn utf16_units(b: Seq<u8>, big_endian: bool) -> Seq<u16> {
    Seq::new(
        (b.len() / 2) as nat,
        |i: int|
            if big_endian {
                (b[2 * i] as int * 256 + b[2 * i + 1] as int) as u16
            } else {
                (b[2 * i + 1] as int * 256 + b[2 * i] as int) as u16
            },
    )
}

pub open spec fn has_utf8_bom(b: Seq<u8>) -> bool {
    b.len() >= 3 && b[0] == 0xefu8 && b[1] == 0xbbu8 && b[2] == 0xbfu8
}

pub open spec fn has_utf16_bom(b: Seq<u8>) -> bool {
    b.len() >= 2 && ((b[0] == 0xfeu8 && b[1] == 0xffu8) || (b[0] == 0xffu8 && b[1] == 0xfeu8))
}

/// The bytes handed to the XML reader: without a UTF-8 byte order mark, or
/// re-encoded as UTF-8 after a UTF-16 one (whose first byte gives the byte
/// order), or else as they are.
pub open spec fn content_payload(b: Seq<u8>) -> Seq<u8> {
    if has_utf8_bom(b) {
        b.subrange(3, b.len() as int)
    } else if has_utf16_bom(b) {
        encode_utf8(utf16_lossy(utf16_units(b.subrange(2, b.len() as int), b[0] == 0xfeu8)))
    } else {
        b
    }
}

/// The bytes that the XML reader reads of a document: `NoContent` for fewer
/// than four bytes, else the payload after byte order detection.
pub fn decode_content(content: &[u8]) -> (r: Result<Vec<u8>, XMLError>)
    ensures
        content@.len() < 4 ==> r matches Err(XMLError::NoContent),
        content@.len() >= 4 ==> (r matches Ok(v) && v@ == content_payload(content@)),
{
    if content.len() < 4 {
        return Err(XMLError::NoContent);
    }
    if content[0] == 0xef && content[1] == 0xbb && content[2] == 0xbf {
        Ok(slice_to_vec(slice_subrange(content, 3, content.len())))
    } else if (content[0] == 0xfe && content[1] == 0xff) || (content[0] == 0xff && content[1] == 0xfe) {
        let big_endian = content[0] == 0xfe;
        let body = slice_subrange(content, 2, content.len());
        let n = body.len() / 2;
        let mut units: Vec<u16> = Vec::new();
        let blen = body.len();
        let mut i: usize = 0;
        while i < n
            invariant
                blen == body@.len(),
                n == body@.len() / 2,
                i <= n,
                units@ =~= utf16_units(body@, big_endian).take(i as int),
            decreases n - i,
        {
            assert(i + i + 1 < body@.len());
            let a: usize = i + i;
            let (hi, lo) = if big_endian {
                (body[a], body[a + 1])
            } else {
                (body[a + 1], body[a])
            };
            units.push((hi as u16) * 256 + (lo as u16));
            i = i + 1;
        }
        assert(units@ =~= utf16_units(body@, big_endian));
        let text = from_utf16_lossy(units.as_slice());
        Ok(text.as_str().as_bytes_vec())
    } else {
        Ok(slice_to_vec(content))
    }
}

/// The three entities that documents may use besides XML's own.
pub open spec fn parser_entities() -> Seq<(Seq<char>, Seq<char>)> {
    seq![("nbsp"@, " "@), ("copy"@, "\u{a9}"@), ("reg"@, "\u{ae}"@)]
}

/// The three entities that documents may use besides XML's own.
fn entity_table() -> (r: Vec<(String, String)>)
    ensures
        entities_view(r@) == parser_entities(),
{
    let mut t = Vec::new();
    t.push(("nbsp".to_owned(), " ".to_owned()));
    t.push(("copy".to_owned(), "\u{a9}".to_owned()));
    t.push(("reg".to_owned(), "\u{ae}".to_owned()));
    assert(entities_view(t@) =~= parser_entities());
    t
}

/// The view of each reader event.
fn view_events(raw: &Vec<ReaderEvent>) -> (r: Vec<ReadEvent>)
    ensures
        events_view(r@) == raw@.map_values(|e: xml::reader::XmlEvent| event_model(e)),
{
    let mut out: Vec<ReadEvent> = Vec::new();
    let mut i: usize = 0;
    while i < raw.len()
        invariant
            i <= raw@.len(),
            events_view(out@) == raw@.take(i as int).map_values(|e: xml::reader::XmlEvent| event_model(e)),
        decreases raw@.len() - i,
    {
        let ghost before = out@;
        out.push(event_view(&raw[i]));
        proof {
            assert(events_view(out@) =~= events_view(before).push(event_model(raw@[i as int])));
            assert(raw@.take(i as int + 1).map_values(|e: xml::reader::XmlEvent| event_model(e))
                =~= raw@.take(i as int).map_values(|e: xml::reader::XmlEvent| event_model(e)).push(
                event_model(raw@[i as int]),
            ));
        }
        i = i + 1;
    }
    assert(raw@.take(raw@.len() as int) =~= raw@);
    out
}

/// The tree of a document: none for fewer than four bytes, where the reader
/// finds no start tag, or where it stops on an error.
pub open spec fn parsed(content: Seq<u8>) -> Option<Seq<NodeModel>> {
    if content.len() < 4 {
        None
    } else {
        let p = content_payload(content);
        let ev = xml_events(p, parser_entities());
        if !has_start(ev) || xml_read(p, parser_entities()).1 {
            None
        } else {
            Some(build_run(ev).nodes)
        }
    }
}

impl XMLReader {
    /// Parses a document into a tree: `NoContent` for fewer than four bytes,
    /// `NoElements` where the reader finds no start tag (empty or non-XML
    /// input), `Reader` where it meets a malformed token after one (an unknown
    /// entity, say).
    pub fn parse(content: &[u8]) -> (r: Result<XMLTree, XMLError>)
        ensures
            content@.len() < 4 ==> r matches Err(XMLError::NoContent),
            content@.len() >= 4 ==> ({
                let p = content_payload(content@);
                if !has_start(xml_events(p, parser_entities())) {
                    r matches Err(XMLError::NoElements)
                } else if xml_read(p, parser_entities()).1 {
                    r matches Err(XMLError::Reader(_))
                } else {
                    r is Ok
                }
            }),
            match parsed(content@) {
                Some(t) => r matches Ok(x) && x@ == t,
                None => r is Err,
            },
            r matches Ok(t) ==> t@.len() > 0 && arena_wf(t@) && t@[0].parent is None,
    {
        let payload = match decode_content(content) {
            Ok(p) => p,
            Err(e) => return Err(e),
        };
        let entities = entity_table();
        let (raw, error) = read_raw_events(payload.as_slice(), &entities);
        let events = view_events(&raw);
        let ghost evm = events_view(events@);
        let count = events.len();
        proof {
            assert(evm.len() == count);
            assert(evm == xml_events(payload@, parser_entities()));
            lemma_build_run_wf(evm);
            lemma_first_node_is_root(evm);
            lemma_nodes_iff_start(evm);
        }
        let tree = XMLReader::parse_xml(events);
        match (tree, error) {
            (Err(e), _) => Err(e),
            (Ok(_), Some(e)) => Err(XMLError::Reader(e)),
            (Ok(t), None) => Ok(t),
        }
    }
}

proof fn lemma_first_node_is_root(events: Seq<EventModel>)
    requires
        events.len() <= usize::MAX,
    ensures
        build_run(events).nodes.len() > 0 ==> build_run(events).nodes[0].parent is None,
    decreases events.len(),
{
    if events.len() > 0 {
        let d = events.drop_last();
        lemma_first_node_is_root(d);
        lemma_build_run_wf(d);
        let s = build_run(d);
        assert(build_run(events) == build_step(s, events.last()));
        if s.nodes.len() > 0 {
            assert(build_run(events).nodes[0].parent == s.nodes[0].parent);
        }
    }
}

/// The first attribute whose local name is `name`, whatever its namespace.
pub open spec fn attr_lookup(attrs: Seq<AttrModel>, name: Seq<char>) -> Option<Seq<char>>
    decreases attrs.len(),
{
    if attrs.len() == 0 {
        None
    } else if attrs[0].name.local == name {
        Some(attrs[0].value)
    } else {
        attr_lookup(attrs.drop_first(), name)
    }
}

/// Whether two string slices hold the same characters.
pub fn str_eq(a: &str, b: &str) -> (r: bool)
    ensures
        r == (a@ == b@),
{
    a.to_owned() == b.to_owned()
}

/// The indices of the subtrees under `kids`, each in depth-first pre-order
/// (a node before its descendants), subtree after subtree. Only kids in
/// `lo..nodes.len()` count, which keeps the walk finite on any arena.
pub open spec fn preorder_below(nodes: Seq<NodeModel>, kids: Seq<usize>, lo: int) -> Seq<usize>
    decreases nodes.len() - lo, 0int, kids.len() as int,
{
    if kids.len() == 0 || lo < 0 {
        seq![]
    } else {
        let rest = preorder_below(nodes, kids.drop_first(), lo);
        if lo <= kids[0] < nodes.len() {
            subtree_preorder(nodes, kids[0] as int) + rest
        } else {
            rest
        }
    }
}

/// A node followed by its descendants, in depth-first pre-order.
pub open spec fn subtree_preorder(nodes: Seq<NodeModel>, c: int) -> Seq<usize>
    decreases nodes.len() - c - 1, 1int, 0int,
{
    if 0 <= c < nodes.len() {
        seq![c as usize] + preorder_below(nodes, nodes[c].children, c + 1)
    } else {
        seq![]
    }
}

/// The first index in `order` whose node has the local name `tag`.
pub open spec fn first_named(nodes: Seq<NodeModel>, order: Seq<usize>, tag: Seq<char>) -> Option<usize>
    decreases order.len(),
{
    if order.len() == 0 {
        None
    } else if 0 <= order[0] < nodes.len() && nodes[order[0] as int].name.local == tag {
        Some(order[0])
    } else {
        first_named(nodes, order.drop_first(), tag)
    }
}

proof fn lemma_first_named_append(nodes: Seq<NodeModel>, a: Seq<usize>, b: Seq<usize>, tag: Seq<char>)
    ensures
        first_named(nodes, a + b, tag) == (match first_named(nodes, a, tag) {
            Some(x) => Some(x),
            None => first_named(nodes, b, tag),
        }),
    decreases a.len(),
{
    if a.len() > 0 {
        assert((a + b).drop_first() =~= a.drop_first() + b);
        lemma_first_named_append(nodes, a.drop_first(), b, tag);
    } else {
        assert(a + b =~= b);
    }
}

impl XMLTree {
    /// Depth-first pre-order search, from the subtrees under `kids`.
    fn find_below(&self, kids: &Vec<usize>, lo: usize, tag: &str) -> (r: Option<usize>)
        requires
            lo <= self@.len(),
        ensures
            r == first_named(self@, preorder_below(self@, kids@, lo as int), tag@),
        decreases self@.len() - lo,
    {
        let ghost nodes = self@;
        let mut j: usize = 0;
        assert(kids@.skip(0) =~= kids@);
        while j < kids.len()
            invariant
                nodes == self@,
                lo <= nodes.len(),
                j <= kids@.len(),
                first_named(nodes, preorder_below(nodes, kids@, lo as int), tag@) == first_named(
                    nodes,
                    preorder_below(nodes, kids@.skip(j as int), lo as int),
                    tag@,
                ),
            decreases kids@.len() - j,
        {
            let c = kids[j];
            let ghost ks = kids@.skip(j as int);
            proof {
                assert(ks.drop_first() =~= kids@.skip(j as int + 1));
                assert(ks[0] == c);
            }
            if lo <= c && c < self.nodes.len() {
                let ghost sub = subtree_preorder(nodes, c as int);
                let ghost rest = preorder_below(nodes, kids@.skip(j as int + 1), lo as int);
                proof {
                    lemma_first_named_append(nodes, sub, rest, tag@);
                    let below = preorder_below(nodes, nodes[c as int].children, c + 1);
                    assert(sub == seq![c] + below);
                    assert((seq![c] + below)[0] == c);
                    assert((seq![c] + below).drop_first() =~= below);
                }
                if str_eq(self.nodes[c].name.local_name.as_str(), tag) {
                    return Some(c);
                }
                let found = self.find_below(&self.nodes[c].children, c + 1, tag);
                if found.is_some() {
                    return found;
                }
            }
            j = j + 1;
        }
        proof {
            assert(kids@.skip(j as int).len() == 0);
        }
        None
    }

    /// The root node.
    pub fn root(&self) -> (r: &XMLNode)
        requires
            self@.len() > 0,
        ensures
            r@ == self@[0],
    {
        &self.nodes[0]
    }
}

impl XMLNode {
    /// The value of the first attribute whose local name is `name`, ignoring
    /// its namespace.
    pub fn get_attr(&self, name: &str) -> (r: Option<String>)
        ensures
            opt_view(r) == attr_lookup(self@.attrs, name@),
    {
        let mut i: usize = 0;
        assert(self@.attrs.skip(0) =~= self@.attrs);
        while i < self.attrs.len()
            invariant
                i <= self.attrs@.len(),
                attr_lookup(self@.attrs, name@) == attr_lookup(self@.attrs.skip(i as int), name@),
            decreases self.attrs@.len() - i,
        {
            proof {
                assert(self@.attrs.skip(i as int).drop_first() =~= self@.attrs.skip(i as int + 1));
            }
            if str_eq(self.attrs[i].name.local_name.as_str(), name) {
                return Some(self.attrs[i].value.clone());
            }
            i = i + 1;
        }
        None
    }

    /// The first descendant (in document order, this node excluded) whose
    /// local name is `tag`; `tree` is the tree that holds this node.
    pub fn find(&self, tree: &XMLTree, tag: &str) -> (r: Option<usize>)
        ensures
            r == first_named(tree@, preorder_below(tree@, self@.children, 0), tag@),
    {
        tree.find_below(&self.children, 0, tag)
    }
}

/// ASCII lower case of a character; other characters stay as they are.
pub open spec fn ascii_lower(c: char) -> char {
    if 'A' <= c <= 'Z' {
        (((c as u8) + 32) as u8) as char
    } else {
        c
    }
}

/// Equality of two texts up to ASCII case.
pub open spec fn eq_ascii_case(a: Seq<char>, b: Seq<char>) -> bool {
    a.len() == b.len() && forall|i: int| 0 <= i < a.len() ==> ascii_lower(#[trigger] a[i]) == ascii_lower(b[i])
}

/// Whether `a` and `b` are equal up to ASCII case.
pub fn eq_ignore_ascii_case(a: &str, b: &str) -> (r: bool)
    ensures
        r == eq_ascii_case(a@, b@),
{
    let n = a.unicode_len();
    if n != b.unicode_len() {
        return false;
    }
    let mut i: usize = 0;
    while i < n
        invariant
            n == a@.len(),
            n == b@.len(),
            i <= n,
            forall|j: int| 0 <= j < i ==> ascii_lower(#[trigger] a@[j]) == ascii_lower(b@[j]),
        decreases n - i,
    {
        let x = a.get_char(i);
        let y = b.get_char(i);
        let lx = if 'A' <= x && x <= 'Z' { ((x as u8) + 32) as char } else { x };
        let ly = if 'A' <= y && y <= 'Z' { ((y as u8) + 32) as char } else { y };
        if lx != ly {
            return false;
        }
        i = i + 1;
    }
    true
}

#[verifier::external_type_specification]
#[verifier::external_body]
#[verifier::reject_recursive_types(W)]
pub struct ExEventWriter<W>(xml::writer::EventWriter<W>);

/// One write handed to the XML writer.
pub ghost enum WriteModel {
    /// A reader event, as it was read.
    AsRead(xml::reader::XmlEvent),
    /// A start tag that was read, with these attribute values.
    StartWith(xml::reader::XmlEvent, Seq<Seq<char>>),
    /// A start tag without attributes.
    StartTag(Seq<char>),
    /// Character data.
    Characters(Seq<char>),
    /// A CDATA section.
    CData(Seq<char>),
    /// The end of the innermost open element.
    EndTag,
}

/// The writes that an xml-rs writer has taken, in order.
pub uninterp spec fn xml_written(w: xml::writer::EventWriter<Vec<u8>>) -> Seq<WriteModel>;

/// Whether an xml-rs writer indents its output.
pub uninterp spec fn writer_indents(w: xml::writer::EventWriter<Vec<u8>>) -> bool;

/// The bytes that an xml-rs writer into a byte vector makes of a sequence of
/// writes; they depend on the writes and the indentation alone.
pub uninterp spec fn xml_emitted(writes: Seq<WriteModel>, indent: bool) -> Seq<u8>;

/// Relies on xml-rs's `EmitterConfig::perform_indent` and `create_writer`: a
/// writer into a new byte vector.
#[verifier::external_body]
fn new_writer(indent: bool) -> (r: EventWriter<Vec<u8>>)
    ensures
        xml_written(r) == Seq::<WriteModel>::empty(),
        writer_indents(r) == indent,
{
    xml::writer::EmitterConfig::default().perform_indent(indent).create_writer(Vec::new())
}

/// Relies on xml-rs's `XmlEvent::as_writer_event` and `EventWriter::write`:
/// writes a reader event as it was read (the end of the document writes
/// nothing).
#[verifier::external_body]
fn write_as_read(w: &mut EventWriter<Vec<u8>>, ev: &ReaderEvent) -> (r: Result<(), xml::writer::Error>)
    ensures
        r is Ok ==> xml_written(*final(w)) == xml_written(*old(w)).push(WriteModel::AsRead(*ev)),
        writer_indents(*final(w)) == writer_indents(*old(w)),
{
    match ev.as_writer_event() {
        Some(e) => w.write(e),
        None => Ok(()),
    }
}

/// Relies on xml-rs's `XmlEvent::as_writer_event` and `EventWriter::write`:
/// writes a start tag that was read, with `values` as the values of its
/// attributes, in order.
#[verifier::external_body]
fn write_start_with_values(w: &mut EventWriter<Vec<u8>>, ev: &ReaderEvent, values: &Vec<String>) -> (r: Result<
    (),
    xml::writer::Error,
>)
    ensures
        r is Ok ==> xml_written(*final(w)) == xml_written(*old(w)).push(
            WriteModel::StartWith(*ev, texts_view(values@)),
        ),
        writer_indents(*final(w)) == writer_indents(*old(w)),
{
    match ev.as_writer_event() {
        Some(WriterEvent::StartElement { name, attributes, namespace }) => {
            let attrs: Vec<xml::attribute::Attribute> = attributes.iter().zip(values.iter()).map(
                |(a, v)| xml::attribute::Attribute { name: a.name, value: v.as_str() },
            ).collect();
            w.write(WriterEvent::StartElement { name, attributes: std::borrow::Cow::Owned(attrs), namespace })
        },
        _ => Ok(()),
    }
}

/// Relies on xml-rs's `XmlEvent::start_element` and `EventWriter::write`:
/// writes a start tag without attributes.
#[verifier::external_body]
fn write_start_tag(w: &mut EventWriter<Vec<u8>>, name: &str) -> (r: Result<(), xml::writer::Error>)
    ensures
        r is Ok ==> xml_written(*final(w)) == xml_written(*old(w)).push(WriteModel::StartTag(name@)),
        writer_indents(*final(w)) == writer_indents(*old(w)),
{
    w.write(WriterEvent::start_element(name))
}

/// Relies on xml-rs's `XmlEvent::characters` and `EventWriter::write`: writes
/// character data.
#[verifier::external_body]
fn write_characters(w: &mut EventWriter<Vec<u8>>, text: &str) -> (r: Result<(), xml::writer::Error>)
    ensures
        r is Ok ==> xml_written(*final(w)) == xml_written(*old(w)).push(WriteModel::Characters(text@)),
        writer_indents(*final(w)) == writer_indents(*old(w)),
{
    w.write(WriterEvent::characters(text))
}

/// Relies on xml-rs's `XmlEvent::cdata` and `EventWriter::write`: writes a
/// CDATA section.
#[verifier::external_body]
fn write_cdata(w: &mut EventWriter<Vec<u8>>, text: &str) -> (r: Result<(), xml::writer::Error>)
    ensures
        r is Ok ==> xml_written(*final(w)) == xml_written(*old(w)).push(WriteModel::CData(text@)),
        writer_indents(*final(w)) == writer_indents(*old(w)),
{
    w.write(WriterEvent::cdata(text))
}

/// Relies on xml-rs's `XmlEvent::end_element` and `EventWriter::write`:
/// closes the innermost open element.
#[verifier::external_body]
fn write_end_tag(w: &mut EventWriter<Vec<u8>>) -> (r: Result<(), xml::writer::Error>)
    ensures
        r is Ok ==> xml_written(*final(w)) == xml_written(*old(w)).push(WriteModel::EndTag),
        writer_indents(*final(w)) == writer_indents(*old(w)),
{
    w.write(WriterEvent::end_element())
}

/// Relies on xml-rs's `EventWriter::into_inner`: the bytes written.
#[verifier::external_body]
fn written_bytes(w: EventWriter<Vec<u8>>) -> (r: Vec<u8>)
    ensures
        r@ == xml_emitted(xml_written(w), writer_indents(w)),
{
    w.into_inner()
}

/// The model of one step of the rewritten output.
pub ghost enum OpModel {
    Copy(int),
    Start(int, Seq<Seq<char>>),
    Style(Seq<char>),
}

/// One step of the rewritten output.
pub enum WriteOp {
    /// The event at this index, as it was read.
    Copy(usize),
    /// The start tag at this index, with these values for its attributes.
    Start(usize, Vec<String>),
    /// A `<style>` element with this text in a CDATA section framed by CSS
    /// comment markers.
    Style(String),
}

pub open spec fn texts_view(v: Seq<String>) -> Seq<Seq<char>> {
    v.map_values(|s: String| s@)
}

impl View for WriteOp {
    type V = OpModel;

    open spec fn view(&self) -> OpModel {
        match self {
            WriteOp::Copy(i) => OpModel::Copy(*i as int),
            WriteOp::Start(i, v) => OpModel::Start(*i as int, texts_view(v@)),
            WriteOp::Style(s) => OpModel::Style(s@),
        }
    }
}

pub open spec fn ops_view(v: Seq<WriteOp>) -> Seq<OpModel> {
    v.map_values(|o: WriteOp| o@)
}

/// The concatenation of a sequence of texts.
pub open spec fn concat_texts(v: Seq<Seq<char>>) -> Seq<char>
    decreases v.len(),
{
    if v.len() == 0 {
        seq![]
    } else {
        concat_texts(v.drop_last()) + v.last()
    }
}

/// The text of the injected style element: all the extra CSS, framed so that
/// it closes and reopens the CSS comment that surrounds the CDATA section.
pub open spec fn style_text(css: Seq<Seq<char>>) -> Seq<char> {
    "*/ "@ + concat_texts(css) + " /*"@
}

/// Whether an element's local name is `head`, in any ASCII case.
pub open spec fn is_head(local: Seq<char>) -> bool {
    eq_ascii_case(local, "head"@)
}

/// The output steps for the event at index `i`: a start tag is written with
/// the new values of its attributes; the end of `head` is preceded by the
/// style element when there is extra CSS; everything else is written as read.
pub open spec fn ops_for_event(
    ev: EventModel,
    i: int,
    values: Seq<Seq<char>>,
    css: Seq<Seq<char>>,
) -> Seq<OpModel> {
    match ev {
        EventModel::Start(_, _) => seq![OpModel::Start(i, values)],
        EventModel::End(name) => if is_head(name.local) && css.len() > 0 {
            seq![OpModel::Style(style_text(css)), OpModel::Copy(i)]
        } else {
            seq![OpModel::Copy(i)]
        },
        _ => seq![OpModel::Copy(i)],
    }
}

/// The output steps for a sequence of events, event after event.
pub open spec fn rewrite_ops(
    events: Seq<EventModel>,
    values: Seq<Seq<Seq<char>>>,
    css: Seq<Seq<char>>,
) -> Seq<OpModel>
    decreases events.len(),
{
    if events.len() == 0 {
        seq![]
    } else {
        let k = events.len() - 1;
        rewrite_ops(events.drop_last(), values, css) + ops_for_event(events[k], k, values[k], css)
    }
}

/// The concatenation of the extra CSS, framed for the style element.
pub fn style_block(extra_css: &[String]) -> (r: String)
    ensures
        r@ == style_text(texts_view(extra_css@)),
{
    let mut text = "*/ ".to_owned();
    let mut i: usize = 0;
    while i < extra_css.len()
        invariant
            i <= extra_css@.len(),
            text@ == "*/ "@ + concat_texts(texts_view(extra_css@).take(i as int)),
        decreases extra_css@.len() - i,
    {
        proof {
            assert(texts_view(extra_css@).take(i as int + 1).drop_last() =~= texts_view(extra_css@).take(i as int));
        }
        text.append(extra_css[i].as_str());
        proof {
            assert(text@ =~= "*/ "@ + concat_texts(texts_view(extra_css@).take(i as int + 1)));
        }
        i = i + 1;
    }
    text.append(" /*");
    assert(texts_view(extra_css@).take(extra_css@.len() as int) =~= texts_view(extra_css@));
    text
}

/// Whether an element's local name is `head`, in any ASCII case.
fn is_head_name(local: &str) -> (r: bool)
    ensures
        r == is_head(local@),
{
    eq_ignore_ascii_case(local, "head")
}

/// The output steps of a rewrite: `values[i]` holds the new attribute values
/// of the start tag at index `i`.
pub fn rewrite_plan(events: &Vec<ReadEvent>, values: Vec<Vec<String>>, extra_css: &[String]) -> (r: Vec<WriteOp>)
    requires
        values@.len() == events@.len(),
    ensures
        ops_view(r@) == rewrite_ops(
            events_view(events@),
            values@.map_values(|v: Vec<String>| texts_view(v@)),
            texts_view(extra_css@),
        ),
{
    let ghost vals = values@.map_values(|v: Vec<String>| texts_view(v@));
    let ghost css = texts_view(extra_css@);
    let ghost evm = events_view(events@);
    let mut values = values;
    let block = style_block(extra_css);
    let mut ops: Vec<WriteOp> = Vec::new();
    let mut i: usize = 0;
    while i < events.len()
        invariant
            i <= events@.len(),
            values@.len() == events@.len(),
            evm == events_view(events@),
            css == texts_view(extra_css@),
            block@ == style_text(css),
            forall|k: int| i <= k < values@.len() ==> texts_view((#[trigger] values@[k])@) == vals[k],
            ops_view(ops@) == rewrite_ops(evm.take(i as int), vals, css),
        decreases events@.len() - i,
    {
        let ghost before = ops_view(ops@);
        proof {
            assert(evm.take(i as int + 1).drop_last() =~= evm.take(i as int));
            assert(evm.take(i as int + 1)[i as int] == evm[i as int]);
        }
        match &events[i] {
            ReadEvent::StartElement { .. } => {
                let mut v: Vec<String> = Vec::new();
                values.set_and_swap(i, &mut v);
                ops.push(WriteOp::Start(i, v));
            },
            ReadEvent::EndElement { name } => {
                if is_head_name(name.local_name.as_str()) && extra_css.len() > 0 {
                    ops.push(WriteOp::Style(block.clone()));
                }
                ops.push(WriteOp::Copy(i));
            },
            _ => {
                ops.push(WriteOp::Copy(i));
            },
        }
        proof {
            assert(ops_view(ops@) =~= before + ops_for_event(evm[i as int], i as int, vals[i as int], css));
        }
        i = i + 1;
    }
    assert(evm.take(events@.len() as int) =~= evm);
    ops
}

/// Whether `out` is a result that `substitute` may give for a tag, an
/// attribute and a value with these characters.
pub open spec fn substitute_gives<F: Fn(&str, &str, &str) -> String>(
    substitute: F,
    tag: Seq<char>,
    attr: Seq<char>,
    value: Seq<char>,
    out: String,
) -> bool {
    exists|t: &str, a: &str, v: &str|
        t@ == tag && a@ == attr && v@ == value && #[trigger] substitute.ensures((t, a, v), out)
}

/// Whether `values` holds, for each start tag among `events`, one value per
/// attribute that `substitute` may return for (tag, attribute, value), all by
/// local name.
pub open spec fn substituted<F: Fn(&str, &str, &str) -> String>(
    events: Seq<ReadEvent>,
    values: Seq<Vec<String>>,
    substitute: F,
) -> bool {
    &&& values.len() == events.len()
    &&& forall|i: int| 0 <= i < events.len() ==> substituted_at(#[trigger] events[i], values[i]@, substitute)
}

pub open spec fn substituted_at<F: Fn(&str, &str, &str) -> String>(
    ev: ReadEvent,
    values: Seq<String>,
    substitute: F,
) -> bool {
    match ev {
        ReadEvent::StartElement { name, attributes } => {
            &&& values.len() == attributes@.len()
            &&& forall|j: int|
                0 <= j < attributes@.len() ==> substitute_gives(
                    substitute,
                    name.local_name@,
                    attributes@[j].name.local_name@,
                    attributes@[j].value@,
                    #[trigger] values[j],
                )
        },
        _ => values.len() == 0,
    }
}

/// The new attribute values of each start tag, as `substitute` gives them.
pub fn substitute_values<F: Fn(&str, &str, &str) -> String>(events: &Vec<ReadEvent>, substitute: &F) -> (r: Vec<Vec<String>>)
    requires
        forall|t: &str, a: &str, v: &str| substitute.requires((t, a, v)),
    ensures
        substituted(events@, r@, *substitute),
{
    let mut out: Vec<Vec<String>> = Vec::new();
    let mut i: usize = 0;
    while i < events.len()
        invariant
            i <= events@.len(),
            out@.len() == i,
            forall|t: &str, a: &str, v: &str| substitute.requires((t, a, v)),
            forall|k: int| 0 <= k < i ==> substituted_at(#[trigger] events@[k], out@[k]@, *substitute),
        decreases events@.len() - i,
    {
        let mut vals: Vec<String> = Vec::new();
        match &events[i] {
            ReadEvent::StartElement { name, attributes } => {
                let mut j: usize = 0;
                while j < attributes.len()
                    invariant
                        j <= attributes@.len(),
                        vals@.len() == j,
                        forall|t: &str, a: &str, v: &str| substitute.requires((t, a, v)),
                        forall|m: int|
                            0 <= m < j ==> substitute_gives(
                                *substitute,
                                name.local_name@,
                                attributes@[m].name.local_name@,
                                attributes@[m].value@,
                                #[trigger] vals@[m],
                            ),
                    decreases attributes@.len() - j,
                {
                    let t = name.local_name.as_str();
                    let a = attributes[j].name.local_name.as_str();
                    let v = attributes[j].value.as_str();
                    let x = substitute(t, a, v);
                    assert(substitute_gives(*substitute, name.local_name@, attributes@[j as int].name.local_name@, attributes@[j as int].value@, x));
                    vals.push(x);
                    j = j + 1;
                }
            },
            _ => {},
        }
        out.push(vals);
        i = i + 1;
    }
    out
}

proof fn lemma_op_indices(events: Seq<EventModel>, values: Seq<Seq<Seq<char>>>, css: Seq<Seq<char>>)
    ensures
        forall|k: int|
            0 <= k < rewrite_ops(events, values, css).len() ==> match #[trigger] rewrite_ops(events, values, css)[k] {
                OpModel::Copy(i) => 0 <= i < events.len(),
                OpModel::Start(i, _) => 0 <= i < events.len(),
                OpModel::Style(_) => true,
            },
    decreases events.len(),
{
    if events.len() > 0 {
        lemma_op_indices(events.drop_last(), values, css);
    }
}

/// The writes of one output step; `raw` are the events as read.
pub open spec fn op_writes(raw: Seq<xml::reader::XmlEvent>, op: OpModel) -> Seq<WriteModel> {
    match op {
        OpModel::Copy(i) => seq![WriteModel::AsRead(raw[i])],
        OpModel::Start(i, v) => seq![WriteModel::StartWith(raw[i], v)],
        OpModel::Style(t) => seq![
            WriteModel::StartTag("style"@),
            WriteModel::Characters("/*"@),
            WriteModel::CData(t),
            WriteModel::Characters("*/"@),
            WriteModel::EndTag,
        ],
    }
}

/// The writes of a sequence of output steps.
pub open spec fn plan_writes(raw: Seq<xml::reader::XmlEvent>, ops: Seq<OpModel>) -> Seq<WriteModel>
    decreases ops.len(),
{
    if ops.len() == 0 {
        seq![]
    } else {
        plan_writes(raw, ops.drop_last()) + op_writes(raw, ops.last())
    }
}

/// Writes one output step.
fn write_op(w: &mut EventWriter<Vec<u8>>, raw: &Vec<ReaderEvent>, op: &WriteOp) -> (r: Result<(), xml::writer::Error>)
    requires
        match op@ {
            OpModel::Copy(i) => 0 <= i < raw@.len(),
            OpModel::Start(i, _) => 0 <= i < raw@.len(),
            OpModel::Style(_) => true,
        },
    ensures
        r is Ok ==> xml_written(*final(w)) == xml_written(*old(w)) + op_writes(raw@, op@),
        writer_indents(*final(w)) == writer_indents(*old(w)),
{
    match op {
        WriteOp::Style(text) => {
            if let Err(e) = write_start_tag(w, "style") {
                return Err(e);
            }
            if let Err(e) = write_characters(w, "/*") {
                return Err(e);
            }
            if let Err(e) = write_cdata(w, text.as_str()) {
                return Err(e);
            }
            if let Err(e) = write_characters(w, "*/") {
                return Err(e);
            }
            let r = write_end_tag(w);
            proof {
                if r is Ok {
                    assert(xml_written(*w) =~= xml_written(*old(w)) + op_writes(raw@, op@));
                }
            }
            r
        },
        WriteOp::Copy(i) => {
            let r = write_as_read(w, &raw[*i]);
            proof {
                if r is Ok {
                    assert(xml_written(*w) =~= xml_written(*old(w)) + op_writes(raw@, op@));
                }
            }
            r
        },
        WriteOp::Start(i, values) => {
            let r = write_start_with_values(w, &raw[*i], values);
            proof {
                if r is Ok {
                    assert(xml_written(*w) =~= xml_written(*old(w)) + op_writes(raw@, op@));
                }
            }
            r
        },
    }
}

/// Whether `values` holds, for each start tag among `events`, one value per
/// attribute that `substitute` may return for (tag, attribute, value), all by
/// local name; other events have none.
pub open spec fn substituted_model<F: Fn(&str, &str, &str) -> String>(
    events: Seq<EventModel>,
    values: Seq<Seq<Seq<char>>>,
    substitute: F,
) -> bool {
    &&& values.len() == events.len()
    &&& forall|i: int|
        0 <= i < events.len() ==> match #[trigger] events[i] {
            EventModel::Start(name, attrs) => {
                &&& values[i].len() == attrs.len()
                &&& forall|j: int|
                    0 <= j < attrs.len() ==> exists|o: String|
                        o@ == #[trigger] values[i][j] && substitute_gives(
                            substitute,
                            name.local,
                            attrs[j].name.local,
                            attrs[j].value,
                            o,
                        )
            },
            _ => values[i].len() == 0,
        }
}

proof fn lemma_substituted_model<F: Fn(&str, &str, &str) -> String>(
    events: Seq<ReadEvent>,
    values: Seq<Vec<String>>,
    substitute: F,
)
    requires
        substituted(events, values, substitute),
    ensures
        substituted_model(events_view(events), values.map_values(|v: Vec<String>| texts_view(v@)), substitute),
{
    let evm = events_view(events);
    let vals = values.map_values(|v: Vec<String>| texts_view(v@));
    assert forall|i: int| 0 <= i < evm.len() implies match #[trigger] evm[i] {
        EventModel::Start(name, attrs) => {
            &&& vals[i].len() == attrs.len()
            &&& forall|j: int|
                0 <= j < attrs.len() ==> exists|o: String|
                    o@ == #[trigger] vals[i][j] && substitute_gives(substitute, name.local, attrs[j].name.local, attrs[j].value, o)
        },
        _ => vals[i].len() == 0,
    } by {
        assert(substituted_at(events[i], values[i]@, substitute));
        match events[i] {
            ReadEvent::StartElement { name, attributes } => {
                assert forall|j: int| 0 <= j < attributes@.len() implies exists|o: String|
                    o@ == #[trigger] vals[i][j] && substitute_gives(
                        substitute,
                        name.local_name@,
                        attrs_view(attributes@)[j].name.local,
                        attrs_view(attributes@)[j].value,
                        o,
                    ) by {
                    let o = values[i]@[j];
                    assert(vals[i] == texts_view(values[i]@));
                    assert(o@ == vals[i][j]);
                    assert(attrs_view(attributes@)[j] == attributes@[j]@);
                    assert(substitute_gives(substitute, name.local_name@, attributes@[j].name.local_name@, attributes@[j].value@, o));
                    assert(o@ == vals[i][j] && substitute_gives(
                        substitute,
                        name.local_name@,
                        attrs_view(attributes@)[j].name.local,
                        attrs_view(attributes@)[j].value,
                        o,
                    ));
                }
            },
            _ => {},
        }
    }
}

/// Rewrites a document: every event is written again, indented, with the
/// value of each attribute replaced by what `substitute` returns for (tag,
/// attribute, value), and with a style element holding all of `extra_css`
/// before the end of `head` (see `rewrite_plan`). A malformed document gives
/// `Reader`, before anything is written; a writer error gives `Emitter`.
pub fn replace_attrs<F: Fn(&str, &str, &str) -> String>(xmldoc: &[u8], substitute: F, extra_css: &[String]) -> (r: Result<Vec<u8>, XMLError>)
    requires
        forall|t: &str, a: &str, v: &str| substitute.requires((t, a, v)),
    ensures
        xml_read(xmldoc@, parser_entities()).1 <==> r matches Err(XMLError::Reader(_)),
        r matches Err(e) ==> (e is Reader || e is Emitter),
        r matches Ok(b) ==> exists|values: Seq<Seq<Seq<char>>>|
            #[trigger] substituted_model(xml_events(xmldoc@, parser_entities()), values, substitute) && b@
                == xml_emitted(
                plan_writes(
                    xml_read(xmldoc@, parser_entities()).0,
                    rewrite_ops(xml_events(xmldoc@, parser_entities()), values, texts_view(extra_css@)),
                ),
                true,
            ),
{
    let entities = entity_table();
    let (raw, error) = read_raw_events(xmldoc, &entities);
    if let Some(e) = error {
        return Err(XMLError::Reader(e));
    }
    let events = view_events(&raw);
    let values = substitute_values(&events, &substitute);
    let ghost evm = events_view(events@);
    let ghost vals = values@.map_values(|v: Vec<String>| texts_view(v@));
    let ghost css = texts_view(extra_css@);
    proof {
        assert(evm == xml_events(xmldoc@, parser_entities()));
        lemma_substituted_model(events@, values@, substitute);
        lemma_op_indices(evm, vals, css);
    }
    let ops = rewrite_plan(&events, values, extra_css);
    let ghost opsv = rewrite_ops(evm, vals, css);
    let ghost evlen = evm.len();
    proof {
        assert forall|m: int| 0 <= m < ops@.len() implies match (#[trigger] ops@[m])@ {
            OpModel::Copy(i) => 0 <= i < evlen,
            OpModel::Start(i, _) => 0 <= i < evlen,
            OpModel::Style(_) => true,
        } by {
            assert(ops_view(ops@)[m] == ops@[m]@);
            assert(opsv[m] == ops@[m]@);
        }
    }
    let mut w = new_writer(true);
    let mut k: usize = 0;
    assert(opsv.take(0) =~= Seq::<OpModel>::empty());
    while k < ops.len()
        invariant
            k <= ops@.len(),
            evlen == raw@.len(),
            opsv == ops_view(ops@),
            forall|m: int|
                0 <= m < ops@.len() ==> match (#[trigger] ops@[m])@ {
                    OpModel::Copy(i) => 0 <= i < evlen,
                    OpModel::Start(i, _) => 0 <= i < evlen,
                    OpModel::Style(_) => true,
                },
            xml_written(w) == plan_writes(raw@, opsv.take(k as int)),
            writer_indents(w),
            !xml_read(xmldoc@, parser_entities()).1,
            raw@ == xml_read(xmldoc@, parser_entities()).0,
            evm == xml_events(xmldoc@, parser_entities()),
            substituted_model(evm, vals, substitute),
            opsv == rewrite_ops(evm, vals, css),
            css == texts_view(extra_css@),
        decreases ops@.len() - k,
    {
        if let Err(e) = write_op(&mut w, &raw, &ops[k]) {
            return Err(XMLError::Emitter(e));
        }
        proof {
            assert(opsv.take(k as int + 1).drop_last() =~= opsv.take(k as int));
            assert(opsv[k as int] == ops@[k as int]@);
        }
        k = k + 1;
    }
    assert(opsv.take(ops@.len() as int) =~= opsv);
    Ok(written_bytes(w))
}

/// UTF-16 code units as bytes, two per unit, in the given byte order.
pub open spec fn utf16_bytes(units: Seq<u16>, big_endian: bool) -> Seq<u8> {
    Seq::new(
        2 * units.len(),
        |k: int|
            {
                let u = units[k / 2] as int;
                let high = k % 2 == if big_endian {
                    0int
                } else {
                    1int
                };
                if high {
                    (u / 256) as u8
                } else {
                    (u % 256) as u8
                }
            },
    )
}

/// A document that starts with a UTF-16 byte order mark (either order) is
/// read as the same bytes as its UTF-8 equivalent with a UTF-8 byte order
/// mark: both come to the reader as the UTF-8 encoding of the decoded text,
/// so both parse to the same tree (or fail alike).
pub proof fn lemma_utf16_reads_as_utf8(units: Seq<u16>, big_endian: bool)
    requires
        units.len() >= 1,
        encode_utf8(utf16_lossy(units)).len() >= 1,
    ensures
        ({
            let bom: Seq<u8> = if big_endian {
                seq![0xfeu8, 0xffu8]
            } else {
                seq![0xffu8, 0xfeu8]
            };
            let text = utf16_lossy(units);
            content_payload(bom + utf16_bytes(units, big_endian)) == content_payload(
                seq![0xefu8, 0xbbu8, 0xbfu8] + encode_utf8(text),
            ) && content_payload(bom + utf16_bytes(units, big_endian)) == encode_utf8(text) && parsed(
                bom + utf16_bytes(units, big_endian),
            ) == parsed(seq![0xefu8, 0xbbu8, 0xbfu8] + encode_utf8(text))
        }),
{
    let bom: Seq<u8> = if big_endian {
        seq![0xfeu8, 0xffu8]
    } else {
        seq![0xffu8, 0xfeu8]
    };
    let b = bom + utf16_bytes(units, big_endian);
    let body = utf16_bytes(units, big_endian);
    assert(b.subrange(2, b.len() as int) =~= body);
    assert(!has_utf8_bom(b));
    assert(has_utf16_bom(b));
    assert(utf16_units(body, big_endian) =~= units) by {
        assert forall|i: int| 0 <= i < units.len() implies #[trigger] utf16_units(body, big_endian)[i] == units[i] by {
            let u = units[i] as int;
            assert((2 * i) / 2 == i) by (nonlinear_arith);
            assert((2 * i + 1) / 2 == i) by (nonlinear_arith);
            assert((2 * i) % 2 == 0) by (nonlinear_arith);
            assert((2 * i + 1) % 2 == 1) by (nonlinear_arith);
            assert(0 <= u < 65536);
            assert((u / 256) * 256 + u % 256 == u) by (nonlinear_arith);
            assert(0 <= u / 256 < 256) by (nonlinear_arith)
                requires 0 <= u < 65536;
            assert(0 <= u % 256 < 256) by (nonlinear_arith)
                requires 0 <= u;
        }
    }
    let u8b = seq![0xefu8, 0xbbu8, 0xbfu8] + encode_utf8(utf16_lossy(units));
    assert(has_utf8_bom(u8b));
    assert(u8b.subrange(3, u8b.len() as int) =~= encode_utf8(utf16_lossy(units)));
}

/// The attribute values of a start tag, as read.
pub open spec fn read_values(e: EventModel) -> Seq<Seq<char>> {
    match e {
        EventModel::Start(_, attrs) => attrs.map_values(|a: AttrModel| a.value),
        _ => seq![],
    }
}

/// With a substitution that gives back the value it is handed, the values of
/// a rewrite are the values as read, so the rewrite (see `replace_attrs`)
/// writes every event as it was read, with its own attribute values.
pub proof fn lemma_identity_substitution<F: Fn(&str, &str, &str) -> String>(
    events: Seq<EventModel>,
    values: Seq<Seq<Seq<char>>>,
    substitute: F,
    css: Seq<Seq<char>>,
)
    requires
        substituted_model(events, values, substitute),
        forall|t: &str, a: &str, v: &str, out: String| substitute.ensures((t, a, v), out) ==> out@ == v@,
    ensures
        values == events.map_values(|e: EventModel| read_values(e)),
        rewrite_ops(events, values, css) == rewrite_ops(
            events,
            events.map_values(|e: EventModel| read_values(e)),
            css,
        ),
{
    let rv = events.map_values(|e: EventModel| read_values(e));
    assert forall|i: int| 0 <= i < events.len() implies values[i] == rv[i] by {
        match events[i] {
            EventModel::Start(name, attrs) => {
                assert forall|j: int| 0 <= j < attrs.len() implies values[i][j] == rv[i][j] by {
                    let o = choose|o: String|
                        o@ == #[trigger] values[i][j] && substitute_gives(
                            substitute,
                            name.local,
                            attrs[j].name.local,
                            attrs[j].value,
                            o,
                        );
                    let (t, a, v) = choose|t: &str, a: &str, v: &str|
                        t@ == name.local && a@ == attrs[j].name.local && v@ == attrs[j].value
                            && #[trigger] substitute.ensures((t, a, v), o);
                }
                assert(values[i] =~= rv[i]);
            },
            _ => {
                assert(values[i] =~= rv[i]);
            },
        }
    }
    assert(values =~= rv);
}

/// The number of end tags of `head` among events.
pub open spec fn head_ends(events: Seq<EventModel>) -> nat
    decreases events.len(),
{
    if events.len() == 0 {
        0
    } else {
        head_ends(events.drop_last()) + match events.last() {
            EventModel::End(name) => if is_head(name.local) {
                1nat
            } else {
                0nat
            },
            _ => 0nat,
        }
    }
}

/// The number of style elements among output steps.
pub open spec fn style_count(ops: Seq<OpModel>) -> nat
    decreases ops.len(),
{
    if ops.len() == 0 {
        0
    } else {
        style_count(ops.drop_last()) + if ops.last() is Style {
            1nat
        } else {
            0nat
        }
    }
}

proof fn lemma_style_count_append(a: Seq<OpModel>, b: Seq<OpModel>)
    ensures
        style_count(a + b) == style_count(a) + style_count(b),
    decreases b.len(),
{
    if b.len() == 0 {
        assert(a + b =~= a);
    } else {
        assert((a + b).drop_last() =~= a + b.drop_last());
        lemma_style_count_append(a, b.drop_last());
    }
}

/// With extra CSS, a rewrite adds one style element per end of `head`, each
/// holding all of the CSS, in the order it was added; without, none.
pub proof fn lemma_extra_css_injection(events: Seq<EventModel>, values: Seq<Seq<Seq<char>>>, css: Seq<Seq<char>>)
    ensures
        style_count(rewrite_ops(events, values, css)) == if css.len() > 0 {
            head_ends(events)
        } else {
            0
        },
        forall|k: int|
            0 <= k < rewrite_ops(events, values, css).len() && (#[trigger] rewrite_ops(events, values, css)[k]) is Style
                ==> rewrite_ops(events, values, css)[k] == OpModel::Style(style_text(css)),
        css.len() > 0 ==> style_text(css) == "*/ "@ + concat_texts(css.drop_last()) + css.last() + " /*"@,
    decreases events.len(),
{
    if events.len() > 0 {
        let d = events.drop_last();
        let k = events.len() - 1;
        lemma_extra_css_injection(d, values, css);
        let a = rewrite_ops(d, values, css);
        let b = ops_for_event(events[k], k, values[k], css);
        lemma_style_count_append(a, b);
        assert(style_count(b) == match events.last() {
            EventModel::End(name) => if is_head(name.local) && css.len() > 0 {
                1nat
            } else {
                0nat
            },
            _ => 0nat,
        }) by {
            reveal_with_fuel(style_count, 3);
            match events[k] {
                EventModel::End(name) => {
                    if is_head(name.local) && css.len() > 0 {
                        assert(b.drop_last() =~= seq![OpModel::Style(style_text(css))]);
                        assert(b.drop_last().drop_last() =~= Seq::<OpModel>::empty());
                    } else {
                        assert(b.drop_last() =~= Seq::<OpModel>::empty());
                    }
                },
                _ => {
                    assert(b.drop_last() =~= Seq::<OpModel>::empty());
                },
            }
        }
        assert forall|j: int|
            0 <= j < rewrite_ops(events, values, css).len() && (#[trigger] rewrite_ops(events, values, css)[j]) is Style
                implies rewrite_ops(events, values, css)[j] == OpModel::Style(style_text(css)) by {
            if j < a.len() {
                assert(rewrite_ops(events, values, css)[j] == a[j]);
            } else {
                assert(rewrite_ops(events, values, css)[j] == b[j - a.len()]);
            }
        }
    }
}

} // verus!
