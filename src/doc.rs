//! The EPUB package model: manifest, spine, metadata and table of contents,
//! read from the package document, and a reading cursor over the spine.
use vstd::prelude::*;
use vstd::string::StrSliceExecFns;
use crate::archive::{entry_for, zip_archive_of, ArchiveError, EpubArchive};
use crate::xmlutils::{
    arena_wf, attr_lookup, attrs_view, first_named, parsed, preorder_below, eq_ascii_case, eq_ignore_ascii_case, opt_view, str_eq,
    replace_attrs, rewrite_ops, plan_writes, substitute_gives, substituted_model, texts_view, xml_emitted, xml_events, xml_read, parser_entities, AttrModel, EventModel, NodeModel, XMLError, XMLNode, XMLReader, XMLTree, XmlAttr,
};

verus! {

/// The Dublin Core namespace.
pub const DC_NS: &'static str = "http://purl.org/dc/elements/1.1/";

/// The OPF namespace.
pub const OPF_NS: &'static str = "http://www.idpf.org/2007/opf";

/// Errors of opening and reading a publication.
pub enum DocError {
    ArchiveError(crate::archive::ArchiveError),
    XmlError(XMLError),
    InvalidEpub,
}

/// The version that the package document declares.
#[derive(Clone, Debug, PartialEq, PartialOrd)]
pub enum EpubVersion {
    Version2_0,
    Version3_0,
    Unknown(String),
}

/// The model of a metadata refinement.
pub ghost struct RefinementModel {
    pub property: Seq<char>,
    pub value: Seq<char>,
    pub lang: Option<Seq<char>>,
    pub scheme: Option<Seq<char>>,
}

/// The model of a metadata item.
pub ghost struct MetadataModel {
    pub id: Option<Seq<char>>,
    pub property: Seq<char>,
    pub value: Seq<char>,
    pub lang: Option<Seq<char>>,
    pub refined: Seq<RefinementModel>,
}

/// An EPUB3 metadata subexpression, attached to the item it refines; with
/// EPUB2 it is drawn from OPF attributes of a Dublin Core element.
pub struct MetadataRefinement {
    pub property: String,
    pub value: String,
    pub lang: Option<String>,
    pub scheme: Option<String>,
}

impl View for MetadataRefinement {
    type V = RefinementModel;

    open spec fn view(&self) -> RefinementModel {
        RefinementModel {
            property: self.property@,
            value: self.value@,
            lang: opt_view(self.lang),
            scheme: opt_view(self.scheme),
        }
    }
}

pub open spec fn refinements_view(r: Seq<MetadataRefinement>) -> Seq<RefinementModel> {
    r.map_values(|x: MetadataRefinement| x@)
}

/// A metadata item: a Dublin Core element, a primary `<meta>`, or a legacy
/// `name`/`content` `<meta>`.
pub struct MetadataItem {
    pub id: Option<String>,
    pub property: String,
    pub value: String,
    pub lang: Option<String>,
    pub refined: Vec<MetadataRefinement>,
}

impl View for MetadataItem {
    type V = MetadataModel;

    open spec fn view(&self) -> MetadataModel {
        MetadataModel {
            id: opt_view(self.id),
            property: self.property@,
            value: self.value@,
            lang: opt_view(self.lang),
            refined: refinements_view(self.refined@),
        }
    }
}

pub open spec fn metadata_view(m: Seq<MetadataItem>) -> Seq<MetadataModel> {
    m.map_values(|x: MetadataItem| x@)
}

/// The index of the first refinement whose property is `property`.
pub open spec fn first_refinement(r: Seq<RefinementModel>, property: Seq<char>) -> Option<int>
    decreases r.len(),
{
    if r.len() == 0 {
        None
    } else if r[0].property == property {
        Some(0)
    } else {
        match first_refinement(r.drop_first(), property) {
            Some(i) => Some(i + 1),
            None => None,
        }
    }
}

impl MetadataItem {
    /// The first refinement of this item with the given property.
    pub fn refinement(&self, property: &str) -> (r: Option<&MetadataRefinement>)
        ensures
            match first_refinement(self@.refined, property@) {
                Some(i) => r matches Some(x) && x@ == self@.refined[i],
                None => r is None,
            },
    {
        let mut i: usize = 0;
        while i < self.refined.len()
            invariant
                i <= self.refined@.len(),
                forall|j: int| 0 <= j < i ==> self@.refined[j].property != property@,
            decreases self.refined@.len() - i,
        {
            if str_eq(self.refined[i].property.as_str(), property) {
                proof {
                    lemma_first_refinement_at(self@.refined, property@, i as int);
                }
                return Some(&self.refined[i]);
            }
            i = i + 1;
        }
        proof {
            lemma_first_refinement_none(self@.refined, property@);
        }
        None
    }

    /// The id of this item, if it has one.
    pub fn id(&self) -> (r: Option<String>)
        ensures
            opt_view(r) == self@.id,
    {
        match &self.id {
            Some(s) => Some(s.clone()),
            None => None,
        }
    }
}

proof fn lemma_first_refinement_at(r: Seq<RefinementModel>, property: Seq<char>, i: int)
    requires
        0 <= i < r.len(),
        r[i].property == property,
        forall|j: int| 0 <= j < i ==> r[j].property != property,
    ensures
        first_refinement(r, property) == Some(i),
    decreases i,
{
    if i > 0 {
        lemma_first_refinement_at(r.drop_first(), property, i - 1);
    }
}

proof fn lemma_first_refinement_none(r: Seq<RefinementModel>, property: Seq<char>)
    requires
        forall|j: int| 0 <= j < r.len() ==> r[j].property != property,
    ensures
        first_refinement(r, property) is None,
    decreases r.len(),
{
    if r.len() > 0 {
        lemma_first_refinement_none(r.drop_first(), property);
    }
}

/// The text of a node, or the empty text.
pub open spec fn text_or_empty(n: NodeModel) -> Seq<char> {
    match n.text {
        Some(t) => t,
        None => seq![],
    }
}

pub open spec fn ns_is(n: NodeModel, ns: Seq<char>) -> bool {
    n.name.ns == Some(ns)
}

/// The OPF-namespaced attributes of an element, as refinements.
pub open spec fn opf_attr_refinements(attrs: Seq<AttrModel>) -> Seq<RefinementModel>
    decreases attrs.len(),
{
    if attrs.len() == 0 {
        seq![]
    } else {
        let rest = opf_attr_refinements(attrs.drop_last());
        let a = attrs.last();
        if a.name.ns == Some(OPF_NS@) {
            rest.push(RefinementModel { property: a.name.local, value: a.value, lang: None, scheme: None })
        } else {
            rest
        }
    }
}

/// What one child of `<metadata>` contributes.
pub ghost enum MetaEntry {
    /// A metadata item.
    Item(MetadataModel),
    /// A refinement of the item whose id is the first field.
    Refinement(Seq<char>, RefinementModel),
    /// A legacy `<meta name=".." content="..">`: an item, and a cover id where
    /// the name is `cover`.
    Legacy(MetadataModel),
    /// Nothing.
    Skip,
}

/// The classification of one child of `<metadata>`, by namespace: a Dublin
/// Core element is an item (with its OPF attributes as refinements unless the
/// package is EPUB3); an OPF `<meta>` with `property` is a refinement where
/// `refines` is `#id`, ignored where `refines` has no `#`, and else a primary
/// item; one with `name` and `content` instead is a legacy item.
pub open spec fn meta_entry(n: NodeModel, v3: bool) -> MetaEntry {
    if ns_is(n, DC_NS@) {
        MetaEntry::Item(
            MetadataModel {
                id: attr_lookup(n.attrs, "id"@),
                property: n.name.local,
                value: text_or_empty(n),
                lang: attr_lookup(n.attrs, "lang"@),
                refined: if v3 {
                    seq![]
                } else {
                    opf_attr_refinements(n.attrs)
                },
            },
        )
    } else if ns_is(n, OPF_NS@) && eq_ascii_case(n.name.local, "meta"@) {
        match attr_lookup(n.attrs, "property"@) {
            Some(property) => match attr_lookup(n.attrs, "refines"@) {
                Some(target) => if target.len() > 0 && target[0] == '#' {
                    MetaEntry::Refinement(
                        target.drop_first(),
                        RefinementModel {
                            property,
                            value: text_or_empty(n),
                            lang: attr_lookup(n.attrs, "lang"@),
                            scheme: attr_lookup(n.attrs, "scheme"@),
                        },
                    )
                } else {
                    MetaEntry::Skip
                },
                None => MetaEntry::Item(
                    MetadataModel {
                        id: attr_lookup(n.attrs, "id"@),
                        property,
                        value: text_or_empty(n),
                        lang: attr_lookup(n.attrs, "lang"@),
                        refined: seq![],
                    },
                ),
            },
            None => match (attr_lookup(n.attrs, "name"@), attr_lookup(n.attrs, "content"@)) {
                (Some(name), Some(content)) => MetaEntry::Legacy(
                    MetadataModel { id: None, property: name, value: content, lang: None, refined: seq![] },
                ),
                _ => MetaEntry::Skip,
            },
        }
    } else {
        MetaEntry::Skip
    }
}

/// The entries of the children `kids`, in order.
pub open spec fn meta_entries(nodes: Seq<NodeModel>, kids: Seq<usize>, v3: bool) -> Seq<MetaEntry> {
    Seq::new(kids.len(), |i: int| meta_entry(nodes[kids[i] as int], v3))
}

/// The items of a sequence of entries, in order, before refinements attach.
pub open spec fn entry_items(e: Seq<MetaEntry>) -> Seq<MetadataModel>
    decreases e.len(),
{
    if e.len() == 0 {
        seq![]
    } else {
        let rest = entry_items(e.drop_last());
        match e.last() {
            MetaEntry::Item(m) => rest.push(m),
            MetaEntry::Legacy(m) => rest.push(m),
            _ => rest,
        }
    }
}

/// The refinements of a sequence of entries that target `id`, in order.
pub open spec fn entry_refinements(e: Seq<MetaEntry>, id: Seq<char>) -> Seq<RefinementModel>
    decreases e.len(),
{
    if e.len() == 0 {
        seq![]
    } else {
        let rest = entry_refinements(e.drop_last(), id);
        match e.last() {
            MetaEntry::Refinement(target, r) => if target == id {
                rest.push(r)
            } else {
                rest
            },
            _ => rest,
        }
    }
}

/// The cover id given by the last legacy `<meta name="cover">`, else `prev`.
pub open spec fn entry_cover(e: Seq<MetaEntry>, prev: Option<Seq<char>>) -> Option<Seq<char>>
    decreases e.len(),
{
    if e.len() == 0 {
        prev
    } else {
        match e.last() {
            MetaEntry::Legacy(m) if m.property == "cover"@ => Some(m.value),
            _ => entry_cover(e.drop_last(), prev),
        }
    }
}

/// Whether an item before index `i` has the id `id`.
pub open spec fn id_taken(items: Seq<MetadataModel>, i: int, id: Seq<char>) -> bool {
    exists|j: int| 0 <= j < i && items[j].id == Some(id)
}

/// The items with their refinements attached: each pending refinement goes to
/// the first item whose id it names; refinements that name no item are
/// dropped.
pub open spec fn attach_refinements(items: Seq<MetadataModel>, e: Seq<MetaEntry>) -> Seq<MetadataModel> {
    Seq::new(
        items.len(),
        |i: int|
            match items[i].id {
                Some(id) => if id_taken(items, i, id) {
                    items[i]
                } else {
                    MetadataModel { refined: items[i].refined + entry_refinements(e, id), ..items[i] }
                },
                None => items[i],
            },
    )
}

/// The metadata of the children of a `<metadata>` element.
pub open spec fn metadata_spec(nodes: Seq<NodeModel>, kids: Seq<usize>, v3: bool) -> Seq<MetadataModel> {
    let e = meta_entries(nodes, kids, v3);
    attach_refinements(entry_items(e), e)
}

/// A copy of an optional text.
pub fn copy_opt(o: &Option<String>) -> (r: Option<String>)
    ensures
        opt_view(r) == opt_view(*o),
{
    match o {
        Some(s) => Some(s.clone()),
        None => None,
    }
}

impl MetadataRefinement {
    /// A copy of this refinement.
    pub fn copy(&self) -> (r: MetadataRefinement)
        ensures
            r@ == self@,
    {
        MetadataRefinement {
            property: self.property.clone(),
            value: self.value.clone(),
            lang: copy_opt(&self.lang),
            scheme: copy_opt(&self.scheme),
        }
    }
}

/// What one child of `<metadata>` contributes, as values.
enum MetaPart {
    Item(MetadataItem),
    Refinement(String, MetadataRefinement),
    Legacy(MetadataItem),
    Skip,
}

impl View for MetaPart {
    type V = MetaEntry;

    closed spec fn view(&self) -> MetaEntry {
        match self {
            MetaPart::Item(m) => MetaEntry::Item(m@),
            MetaPart::Refinement(t, r) => MetaEntry::Refinement(t@, r@),
            MetaPart::Legacy(m) => MetaEntry::Legacy(m@),
            MetaPart::Skip => MetaEntry::Skip,
        }
    }
}

/// Whether a node's name is bound to the namespace `ns`.
fn node_ns_is(node: &XMLNode, ns: &str) -> (r: bool)
    ensures
        r == ns_is(node@, ns@),
{
    match &node.name.namespace {
        Some(n) => str_eq(n.as_str(), ns),
        None => false,
    }
}

/// The text of a node, or the empty text.
fn node_text(node: &XMLNode) -> (r: String)
    ensures
        r@ == text_or_empty(node@),
{
    match &node.text {
        Some(t) => t.clone(),
        None => String::new(),
    }
}

/// The OPF-namespaced attributes, as refinements.
fn opf_refinements(attrs: &Vec<XmlAttr>) -> (r: Vec<MetadataRefinement>)
    ensures
        refinements_view(r@) == opf_attr_refinements(attrs_view(attrs@)),
{
    let mut out: Vec<MetadataRefinement> = Vec::new();
    let mut i: usize = 0;
    while i < attrs.len()
        invariant
            i <= attrs@.len(),
            refinements_view(out@) == opf_attr_refinements(attrs_view(attrs@).take(i as int)),
        decreases attrs@.len() - i,
    {
        let ghost before = out@;
        proof {
            assert(attrs_view(attrs@).take(i as int + 1).drop_last() =~= attrs_view(attrs@).take(i as int));
        }
        let a = &attrs[i];
        let is_opf = match &a.name.namespace {
            Some(n) => str_eq(n.as_str(), OPF_NS),
            None => false,
        };
        if is_opf {
            out.push(
                MetadataRefinement {
                    property: a.name.local_name.clone(),
                    value: a.value.clone(),
                    lang: None,
                    scheme: None,
                },
            );
            assert(refinements_view(out@) =~= refinements_view(before).push(out@.last()@));
        }
        i = i + 1;
    }
    assert(attrs_view(attrs@).take(attrs@.len() as int) =~= attrs_view(attrs@));
    out
}

/// The contribution of one child of `<metadata>`.
fn meta_part(node: &XMLNode, v3: bool) -> (r: MetaPart)
    ensures
        r@ == meta_entry(node@, v3),
{
    if node_ns_is(node, DC_NS) {
        let refined = if v3 {
            Vec::new()
        } else {
            opf_refinements(&node.attrs)
        };
        proof {
            if v3 {
                assert(refinements_view(refined@) =~= seq![]);
            }
        }
        MetaPart::Item(
            MetadataItem {
                id: node.get_attr("id"),
                property: node.name.local_name.clone(),
                value: node_text(node),
                lang: node.get_attr("lang"),
                refined,
            },
        )
    } else if node_ns_is(node, OPF_NS) && eq_ignore_ascii_case(node.name.local_name.as_str(), "meta") {
        match node.get_attr("property") {
            Some(property) => match node.get_attr("refines") {
                Some(target) => {
                    let t = target.as_str();
                    let n = t.unicode_len();
                    if n > 0 && t.get_char(0) == '#' {
                        let id = t.substring_char(1, n).to_owned();
                        proof {
                            assert(id@ =~= target@.drop_first());
                        }
                        MetaPart::Refinement(
                            id,
                            MetadataRefinement {
                                property,
                                value: node_text(node),
                                lang: node.get_attr("lang"),
                                scheme: node.get_attr("scheme"),
                            },
                        )
                    } else {
                        MetaPart::Skip
                    }
                },
                None => {
                    let empty: Vec<MetadataRefinement> = Vec::new();
                    assert(refinements_view(empty@) =~= seq![]);
                    MetaPart::Item(
                        MetadataItem {
                            id: node.get_attr("id"),
                            property,
                            value: node_text(node),
                            lang: node.get_attr("lang"),
                            refined: empty,
                        },
                    )
                },
            },
            None => match (node.get_attr("name"), node.get_attr("content")) {
                (Some(name), Some(content)) => {
                    let empty: Vec<MetadataRefinement> = Vec::new();
                    assert(refinements_view(empty@) =~= seq![]);
                    MetaPart::Legacy(
                        MetadataItem { id: None, property: name, value: content, lang: None, refined: empty },
                    )
                },
                _ => MetaPart::Skip,
            },
        }
    } else {
        MetaPart::Skip
    }
}

/// The pending refinements of a sequence of entries, with their targets.
pub open spec fn entry_pending(e: Seq<MetaEntry>) -> Seq<(Seq<char>, RefinementModel)>
    decreases e.len(),
{
    if e.len() == 0 {
        seq![]
    } else {
        let rest = entry_pending(e.drop_last());
        match e.last() {
            MetaEntry::Refinement(t, r) => rest.push((t, r)),
            _ => rest,
        }
    }
}

/// The refinements of `p` whose target is `id`, in order.
pub open spec fn pending_for(p: Seq<(Seq<char>, RefinementModel)>, id: Seq<char>) -> Seq<RefinementModel>
    decreases p.len(),
{
    if p.len() == 0 {
        seq![]
    } else {
        let rest = pending_for(p.drop_last(), id);
        if p.last().0 == id {
            rest.push(p.last().1)
        } else {
            rest
        }
    }
}

proof fn lemma_pending_for(e: Seq<MetaEntry>, id: Seq<char>)
    ensures
        pending_for(entry_pending(e), id) == entry_refinements(e, id),
    decreases e.len(),
{
    if e.len() > 0 {
        lemma_pending_for(e.drop_last(), id);
        match e.last() {
            MetaEntry::Refinement(t, r) => {
                assert(entry_pending(e).drop_last() =~= entry_pending(e.drop_last()));
            },
            _ => {},
        }
    }
}

fn placeholder_item() -> (r: MetadataItem) {
    MetadataItem { id: None, property: String::new(), value: String::new(), lang: None, refined: Vec::new() }
}

/// The refinements of `pending` that target `id`, copied, in order.
fn refinements_for(pending: &Vec<(String, MetadataRefinement)>, id: &String) -> (r: Vec<MetadataRefinement>)
    ensures
        refinements_view(r@) == pending_for(pending_view(pending@), id@),
{
    let mut out: Vec<MetadataRefinement> = Vec::new();
    let mut k: usize = 0;
    while k < pending.len()
        invariant
            k <= pending@.len(),
            refinements_view(out@) == pending_for(pending_view(pending@).take(k as int), id@),
        decreases pending@.len() - k,
    {
        let ghost before = out@;
        proof {
            assert(pending_view(pending@).take(k as int + 1).drop_last() =~= pending_view(pending@).take(k as int));
        }
        if pending[k].0 == *id {
            out.push(pending[k].1.copy());
            assert(refinements_view(out@) =~= refinements_view(before).push(out@.last()@));
        }
        k = k + 1;
    }
    assert(pending_view(pending@).take(pending@.len() as int) =~= pending_view(pending@));
    out
}

pub open spec fn pending_view(p: Seq<(String, MetadataRefinement)>) -> Seq<(Seq<char>, RefinementModel)> {
    p.map_values(|x: (String, MetadataRefinement)| (x.0@, x.1@))
}

/// The metadata of the children of `<metadata>` (node `elem`), and the cover
/// id that the last legacy `<meta name="cover">` gives, if any.
pub fn metadata_of(tree: &XMLTree, elem: usize, v3: bool) -> (r: (Vec<MetadataItem>, Option<String>))
    requires
        arena_wf(tree@),
        elem < tree@.len(),
    ensures
        metadata_view(r.0@) == metadata_spec(tree@, tree@[elem as int].children, v3),
        opt_view(r.1) == entry_cover(meta_entries(tree@, tree@[elem as int].children, v3), None),
{
    let kids = &tree.nodes[elem].children;
    let ghost e = meta_entries(tree@, kids@, v3);
    let mut items: Vec<MetadataItem> = Vec::new();
    let mut pending: Vec<(String, MetadataRefinement)> = Vec::new();
    let mut cover: Option<String> = None;
    let mut j: usize = 0;
    while j < kids.len()
        invariant
            arena_wf(tree@),
            elem < tree@.len(),
            kids@ == tree@[elem as int].children,
            e == meta_entries(tree@, kids@, v3),
            j <= kids@.len(),
            metadata_view(items@) == entry_items(e.take(j as int)),
            pending_view(pending@) == entry_pending(e.take(j as int)),
            opt_view(cover) == entry_cover(e.take(j as int), None),
        decreases kids@.len() - j,
    {
        let ghost (bi, bp) = (items@, pending@);
        proof {
            assert(e.take(j as int + 1).drop_last() =~= e.take(j as int));
            assert(e.take(j as int + 1).last() == e[j as int]);
            assert(tree@[elem as int].children[j as int] < tree@.len());
        }
        let part = meta_part(&tree.nodes[kids[j]], v3);
        match part {
            MetaPart::Item(m) => {
                items.push(m);
                assert(metadata_view(items@) =~= metadata_view(bi).push(items@.last()@));
            },
            MetaPart::Legacy(m) => {
                if str_eq(m.property.as_str(), "cover") {
                    cover = Some(m.value.clone());
                }
                items.push(m);
                assert(metadata_view(items@) =~= metadata_view(bi).push(items@.last()@));
            },
            MetaPart::Refinement(t, r) => {
                pending.push((t, r));
                assert(pending_view(pending@) =~= pending_view(bp).push((pending@.last().0@, pending@.last().1@)));
            },
            MetaPart::Skip => {},
        }
        j = j + 1;
    }
    proof {
        assert(e.take(kids@.len() as int) =~= e);
    }
    let ghost plain = metadata_view(items@);
    let n = items.len();
    let mut i: usize = 0;
    while i < n
        invariant
            n == items@.len(),
            n == plain.len(),
            i <= n,
            pending_view(pending@) == entry_pending(e),
            forall|k: int| 0 <= k < i ==> (#[trigger] items@[k])@ == attach_refinements(plain, e)[k],
            forall|k: int| i <= k < n ==> (#[trigger] items@[k])@ == plain[k],
        decreases n - i,
    {
        let id = items[i].id();
        if let Some(x) = id {
            let mut taken = false;
            let mut k: usize = 0;
            while k < i
                invariant
                    i < n,
                    n == items@.len(),
                    n == plain.len(),
                    k <= i,
                    opt_view(Some(x)) == plain[i as int].id,
                    forall|m: int| 0 <= m < i ==> (#[trigger] items@[m])@.id == plain[m].id,
                    taken == (exists|m: int| 0 <= m < k && plain[m].id == Some(x@)),
                decreases i - k,
            {
                let same = match &items[k].id {
                    Some(y) => *y == x,
                    None => false,
                };
                assert(items@[k as int]@.id == plain[k as int].id);
                if same {
                    taken = true;
                }
                k = k + 1;
            }
            if !taken {
                let extra = refinements_for(&pending, &x);
                proof {
                    lemma_pending_for(e, x@);
                }
                let mut item = placeholder_item();
                items.set_and_swap(i, &mut item);
                let ghost old_refined = item.refined@;
                let mut extra = extra;
                item.refined.append(&mut extra);
                assert(refinements_view(item.refined@) =~= refinements_view(old_refined) + entry_refinements(e, x@));
                items.set_and_swap(i, &mut item);
            }
        }
        i = i + 1;
    }
    proof {
        assert(metadata_view(items@) =~= attach_refinements(plain, e));
    }
    (items, cover)
}

/// Strip a last empty-or-`.` segment; keep every other one.
pub open spec fn push_segment(segs: Seq<Seq<char>>, cur: Seq<char>) -> Seq<Seq<char>> {
    if cur.len() == 0 || cur == "."@ {
        segs
    } else {
        segs.push(cur)
    }
}

/// The segments finished so far and the segment being read, after the
/// characters `s`.
pub open spec fn split_state(s: Seq<char>) -> (Seq<Seq<char>>, Seq<char>)
    decreases s.len(),
{
    if s.len() == 0 {
        (seq![], seq![])
    } else {
        let (segs, cur) = split_state(s.drop_last());
        if s.last() == '/' || s.last() == '\\' {
            (push_segment(segs, cur), seq![])
        } else {
            (segs, cur.push(s.last()))
        }
    }
}

/// The components of a path: its segments between separators (`/`, or `\`
/// written the other way), without empty and `.` segments.
pub open spec fn path_segments(s: Seq<char>) -> Seq<Seq<char>> {
    push_segment(split_state(s).0, split_state(s).1)
}

/// `rel` walked from `base`: `..` goes up one segment (none above the top),
/// any other segment goes down.
pub open spec fn resolve_segments(base: Seq<Seq<char>>, rel: Seq<Seq<char>>) -> Seq<Seq<char>>
    decreases rel.len(),
{
    if rel.len() == 0 {
        base
    } else {
        let b = resolve_segments(base, rel.drop_last());
        if rel.last() == ".."@ {
            if b.len() > 0 {
                b.drop_last()
            } else {
                b
            }
        } else {
            b.push(rel.last())
        }
    }
}

/// Segments joined by `/`.
pub open spec fn join_segments(segs: Seq<Seq<char>>) -> Seq<char>
    decreases segs.len(),
{
    if segs.len() == 0 {
        seq![]
    } else if segs.len() == 1 {
        segs[0]
    } else {
        join_segments(segs.drop_last()) + "/"@ + segs.last()
    }
}

pub open spec fn starts_with(s: Seq<char>, prefix: Seq<char>) -> bool {
    s.len() >= prefix.len() && s.subrange(0, prefix.len() as int) == prefix
}

/// The directory of a document, as segments: its path without the last
/// component.
pub open spec fn dir_segments(path: Seq<char>) -> Seq<Seq<char>> {
    let segs = path_segments(path);
    if segs.len() > 0 {
        segs.drop_last()
    } else {
        segs
    }
}

/// The address of a link `append` found in the document at `path`: an
/// `http` link as it is, else `epub://` and the link resolved against the
/// document's directory.
pub open spec fn epub_uri(path: Seq<char>, append: Seq<char>) -> Seq<char> {
    if starts_with(append, "http"@) {
        append
    } else {
        "epub://"@ + join_segments(resolve_segments(dir_segments(path), path_segments(append)))
    }
}


/// The components of a path.
fn segments(s: &str) -> (r: Vec<String>)
    ensures
        texts_view(r@) == path_segments(s@),
{
    let n = s.unicode_len();
    let mut segs: Vec<String> = Vec::new();
    let mut start: usize = 0;
    let mut i: usize = 0;
    while i < n
        invariant
            n == s@.len(),
            start <= i <= n,
            split_state(s@.take(i as int)) == (texts_view(segs@), s@.subrange(start as int, i as int)),
        decreases n - i,
    {
        let ghost t = s@.take(i as int + 1);
        proof {
            assert(t.drop_last() =~= s@.take(i as int));
            assert(t.last() == s@[i as int]);
        }
        let c = s.get_char(i);
        if c == '/' || c == '\\' {
            let cur = s.substring_char(start, i);
            if cur.unicode_len() != 0 && !str_eq(cur, ".") {
                let ghost before = segs@;
                segs.push(cur.to_owned());
                assert(texts_view(segs@) =~= texts_view(before).push(cur@));
            }
            start = i + 1;
        } else {
            assert(s@.subrange(start as int, i as int + 1) =~= s@.subrange(start as int, i as int).push(c));
        }
        i = i + 1;
    }
    proof {
        assert(s@.take(n as int) =~= s@);
    }
    let cur = s.substring_char(start, n);
    if cur.unicode_len() != 0 && !str_eq(cur, ".") {
        let ghost before = segs@;
        segs.push(cur.to_owned());
        assert(texts_view(segs@) =~= texts_view(before).push(cur@));
    }
    segs
}

/// Segments joined by `/`.
fn join_with_slash(segs: &Vec<String>) -> (r: String)
    ensures
        r@ == join_segments(texts_view(segs@)),
{
    let mut out = String::new();
    let mut i: usize = 0;
    while i < segs.len()
        invariant
            i <= segs@.len(),
            out@ == join_segments(texts_view(segs@).take(i as int)),
        decreases segs@.len() - i,
    {
        proof {
            assert(texts_view(segs@).take(i as int + 1).drop_last() =~= texts_view(segs@).take(i as int));
        }
        if i > 0 {
            out.append("/");
        }
        out.append(segs[i].as_str());
        proof {
            if i == 0 {
                assert(out@ =~= texts_view(segs@).take(1)[0]);
            } else {
                assert(out@ =~= join_segments(texts_view(segs@).take(i as int)) + "/"@ + texts_view(segs@)[i as int]);
            }
        }
        i = i + 1;
    }
    assert(texts_view(segs@).take(segs@.len() as int) =~= texts_view(segs@));
    out
}

/// Whether `s` starts with `prefix`.
fn has_prefix(s: &str, prefix: &str) -> (r: bool)
    ensures
        r == starts_with(s@, prefix@),
{
    let n = prefix.unicode_len();
    if s.unicode_len() < n {
        return false;
    }
    str_eq(s.substring_char(0, n), prefix)
}

/// The address of a link found in the document at `path`: `http` links stay
/// as they are; other links are resolved against the document's directory
/// (`..` up, other segments down) and prefixed with `epub://`.
pub fn build_epub_uri(path: &str, append: &str) -> (r: String)
    ensures
        r@ == epub_uri(path@, append@),
{
    if has_prefix(append, "http") {
        return append.to_owned();
    }
    let mut cpath = segments(path);
    if cpath.len() > 0 {
        cpath.pop();
    }
    assert(texts_view(cpath@) =~= dir_segments(path@));
    let rel = segments(append);
    let mut i: usize = 0;
    while i < rel.len()
        invariant
            i <= rel@.len(),
            texts_view(cpath@) == resolve_segments(dir_segments(path@), texts_view(rel@).take(i as int)),
        decreases rel@.len() - i,
    {
        let ghost before = cpath@;
        proof {
            assert(texts_view(rel@).take(i as int + 1).drop_last() =~= texts_view(rel@).take(i as int));
        }
        if str_eq(rel[i].as_str(), "..") {
            if cpath.len() > 0 {
                cpath.pop();
                assert(texts_view(cpath@) =~= texts_view(before).drop_last());
            }
        } else {
            cpath.push(rel[i].clone());
            assert(texts_view(cpath@) =~= texts_view(before).push(rel@[i as int]@));
        }
        i = i + 1;
    }
    assert(texts_view(rel@).take(rel@.len() as int) =~= texts_view(rel@));
    let mut uri = "epub://".to_owned();
    uri.append(join_with_slash(&cpath).as_str());
    uri
}

/// `rel` appended to the directory `base`, as a path join does: an absolute
/// `rel` or an empty `base` gives `rel`; otherwise one `/` between them.
pub open spec fn join_path(base: Seq<char>, rel: Seq<char>) -> Seq<char> {
    if starts_with(rel, "/"@) || base.len() == 0 {
        rel
    } else if base.last() == '/' {
        base + rel
    } else {
        base + "/"@ + rel
    }
}

/// A path with every backslash turned into a forward slash.
pub open spec fn forward_slashes(s: Seq<char>) -> Seq<char> {
    s.map_values(|c: char| if c == '\\' { '/' } else { c })
}

/// The archive path of an `href` of the package document.
pub open spec fn resolve_href(base: Seq<char>, href: Seq<char>) -> Seq<char> {
    forward_slashes(join_path(base, href))
}

/// The index of the last `/`.
pub open spec fn last_slash(s: Seq<char>) -> Option<int>
    decreases s.len(),
{
    if s.len() == 0 {
        None
    } else if s.last() == '/' {
        Some(s.len() - 1)
    } else {
        last_slash(s.drop_last())
    }
}

/// The directory that holds a file: what comes before its last `/` (`/` for
/// a file at the top of an absolute path, nothing for a bare name).
pub open spec fn parent_dir(p: Seq<char>) -> Seq<char> {
    match last_slash(p) {
        None => seq![],
        Some(k) => if k == 0 {
            "/"@
        } else {
            p.subrange(0, k)
        },
    }
}

/// A path with every backslash turned into a forward slash.
pub fn convert_path_seps(s: &str) -> (r: String)
    ensures
        r@ == forward_slashes(s@),
{
    let n = s.unicode_len();
    let mut out = String::new();
    let mut start: usize = 0;
    let mut i: usize = 0;
    while i < n
        invariant
            n == s@.len(),
            start <= i <= n,
            forward_slashes(s@.take(i as int)) == out@ + s@.subrange(start as int, i as int),
            forall|k: int| start <= k < i ==> s@[k] != '\\',
        decreases n - i,
    {
        let c = s.get_char(i);
        let ghost before = out@;
        proof {
            assert(forward_slashes(s@.take(i as int + 1)) =~= forward_slashes(s@.take(i as int)).push(
                if c == '\\' { '/' } else { c },
            ));
        }
        if c == '\\' {
            proof {
                reveal_strlit("/");
            }
            out.append(s.substring_char(start, i));
            out.append("/");
            start = i + 1;
            assert(forward_slashes(s@.take(i as int + 1)) =~= out@ + s@.subrange(start as int, i as int + 1));
        } else {
            assert(forward_slashes(s@.take(i as int + 1)) =~= out@ + s@.subrange(start as int, i as int + 1));
        }
        i = i + 1;
    }
    out.append(s.substring_char(start, n));
    assert(s@.take(n as int) =~= s@);
    out
}

/// The archive path of an `href` of the package document, whose directory
/// is `base`.
pub fn resolve_path(base: &str, href: &str) -> (r: String)
    ensures
        r@ == resolve_href(base@, href@),
        !r@.contains('\\'),
{
    let joined = if has_prefix(href, "/") || base.unicode_len() == 0 {
        href.to_owned()
    } else if base.get_char(base.unicode_len() - 1) == '/' {
        let mut j = base.to_owned();
        j.append(href);
        j
    } else {
        let mut j = base.to_owned();
        j.append("/");
        j.append(href);
        j
    };
    let r = convert_path_seps(joined.as_str());
    proof {
        if r@.contains('\\') {
            let k = choose|k: int| 0 <= k < r@.len() && r@[k] == '\\';
            assert(r@[k] == (if joined@[k] == '\\' { '/' } else { joined@[k] }));
        }
    }
    r
}

/// The directory of a file.
pub fn parent_path(p: &str) -> (r: String)
    ensures
        r@ == parent_dir(p@),
{
    let n = p.unicode_len();
    let mut i: usize = n;
    assert(p@.take(n as int) =~= p@);
    while i > 0
        invariant
            n == p@.len(),
            i <= n,
            last_slash(p@) == last_slash(p@.take(i as int)),
        decreases i,
    {
        proof {
            assert(p@.take(i as int).drop_last() =~= p@.take(i as int - 1));
        }
        if p.get_char(i - 1) == '/' {
            assert(last_slash(p@) == Some(i as int - 1));
            if i == 1 {
                return "/".to_owned();
            }
            return p.substring_char(0, i - 1).to_owned();
        }
        i = i - 1;
    }
    proof {
        assert(p@.take(0) =~= seq![]);
    }
    String::new()
}

pub open spec fn all_digits(s: Seq<char>) -> bool {
    forall|i: int| 0 <= i < s.len() ==> '0' <= #[trigger] s[i] <= '9'
}

pub open spec fn digits_value(s: Seq<char>) -> int
    decreases s.len(),
{
    if s.len() == 0 {
        0
    } else {
        digits_value(s.drop_last()) * 10 + (s.last() as int - '0' as int)
    }
}

/// A text without its leading `+`, if any.
pub open spec fn unsigned_digits(s: Seq<char>) -> Seq<char> {
    if s.len() > 0 && s[0] == '+' {
        s.drop_first()
    } else {
        s
    }
}

/// The unsigned integer that a text writes in decimal, with an optional `+`,
/// where it fits in `usize`.
pub open spec fn decimal_value(s: Seq<char>) -> Option<usize> {
    let d = unsigned_digits(s);
    if d.len() > 0 && all_digits(d) && digits_value(d) <= usize::MAX {
        Some(digits_value(d) as usize)
    } else {
        None
    }
}

proof fn lemma_digits_value_nonneg(s: Seq<char>)
    requires
        all_digits(s),
    ensures
        digits_value(s) >= 0,
    decreases s.len(),
{
    if s.len() > 0 {
        assert(all_digits(s.drop_last())) by {
            assert forall|i: int| 0 <= i < s.drop_last().len() implies '0' <= #[trigger] s.drop_last()[i] <= '9' by {
                assert(s.drop_last()[i] == s[i]);
            }
        }
        lemma_digits_value_nonneg(s.drop_last());
        assert('0' <= s[s.len() - 1] <= '9');
    }
}

/// The decimal number a text writes, where it fits in `usize`.
pub fn parse_usize(s: &str) -> (r: Option<usize>)
    ensures
        r == decimal_value(s@),
{
    let n = s.unicode_len();
    let start: usize = if n > 0 && s.get_char(0) == '+' { 1 } else { 0 };
    let ghost d = unsigned_digits(s@);
    assert(d =~= s@.subrange(start as int, n as int));
    if start == n {
        return None;
    }
    let mut value: usize = 0;
    let mut i: usize = start;
    while i < n
        invariant
            n == s@.len(),
            start <= i <= n,
            d == unsigned_digits(s@),
            d == s@.subrange(start as int, n as int),
            all_digits(s@.subrange(start as int, i as int)),
            value as int == digits_value(s@.subrange(start as int, i as int)),
        decreases n - i,
    {
        let c = s.get_char(i);
        let ghost t = s@.subrange(start as int, i as int + 1);
        proof {
            assert(t.drop_last() =~= s@.subrange(start as int, i as int));
            assert(t.last() == c);
        }
        if !('0' <= c && c <= '9') {
            proof {
                assert(d[i - start] == c);
                assert(!all_digits(d));
                assert(decimal_value(s@) is None);
            }
            return None;
        }
        let digit = (c as u32 - '0' as u32) as usize;
        if value > (usize::MAX - digit) / 10 {
            proof {
                assert(value * 10 + digit > usize::MAX) by (nonlinear_arith)
                    requires value > (usize::MAX - digit) / 10, digit <= 9;
                assert(all_digits(t)) by {
                    assert forall|k: int| 0 <= k < t.len() implies '0' <= #[trigger] t[k] <= '9' by {
                        if k < t.len() - 1 {
                            assert(t[k] == s@.subrange(start as int, i as int)[k]);
                        }
                    }
                }
                lemma_digits_value_nonneg(t.drop_last());
                assert(digits_value(t) == digits_value(t.drop_last()) * 10 + (c as int - '0' as int));
                assert(digits_value(t) == value * 10 + digit);
                assert(s@.subrange(start as int, n as int).take((i - start) as int + 1) =~= t);
                lemma_digits_growth(s@.subrange(start as int, n as int), (i - start) as int + 1);
                assert(decimal_value(s@) is None);
            }
            return None;
        }
        proof {
            assert(value * 10 + digit <= usize::MAX) by (nonlinear_arith)
                requires value <= (usize::MAX - digit) / 10, digit <= 9;
        }
        value = value * 10 + digit;
        proof {
            assert(all_digits(t)) by {
                assert forall|k: int| 0 <= k < t.len() implies '0' <= #[trigger] t[k] <= '9' by {
                    if k < t.len() - 1 {
                        assert(t[k] == s@.subrange(start as int, i as int)[k]);
                    }
                }
            }
        }
        i = i + 1;
    }
    Some(value)
}

/// Once a prefix of a digit string is over the bound, so is the whole.
proof fn lemma_digits_growth(s: Seq<char>, k: int)
    requires
        0 <= k <= s.len(),
        digits_value(s.take(k)) > usize::MAX,
        all_digits(s.take(k)),
    ensures
        !(all_digits(s) && digits_value(s) <= usize::MAX),
    decreases s.len() - k,
{
    if k < s.len() && all_digits(s) {
        let t = s.take(k + 1);
        assert(t.drop_last() =~= s.take(k));
        assert('0' <= s[k] <= '9');
        assert(all_digits(t)) by {
            assert forall|i: int| 0 <= i < t.len() implies '0' <= #[trigger] t[i] <= '9' by {
                assert(t[i] == s[i]);
            }
        }
        lemma_digits_growth(s, k + 1);
    } else if k == s.len() {
        assert(s.take(k) =~= s);
    }
}

/// The model of a manifest entry: id, archive path, media type.
pub type ResourceModel = (Seq<char>, Seq<char>, Seq<char>);

/// The first index whose entry has the id `id`.
pub open spec fn resource_index(m: Seq<ResourceModel>, id: Seq<char>) -> Option<int>
    decreases m.len(),
{
    if m.len() == 0 {
        None
    } else {
        match resource_index(m.drop_last(), id) {
            Some(i) => Some(i),
            None => if m.last().0 == id {
                Some(m.len() - 1)
            } else {
                None
            },
        }
    }
}

/// The entries after an insert: the entry with the same id is replaced in
/// place, or the new one goes last.
pub open spec fn resource_insert(m: Seq<ResourceModel>, e: ResourceModel) -> Seq<ResourceModel> {
    match resource_index(m, e.0) {
        Some(i) => m.update(i, e),
        None => m.push(e),
    }
}

/// No two entries share an id.
pub open spec fn unique_ids(m: Seq<ResourceModel>) -> bool {
    forall|i: int, j: int| 0 <= i < j < m.len() ==> (#[trigger] m[i]).0 != (#[trigger] m[j]).0
}

/// The resources of the manifest: id to archive path and media type, ids
/// unique.
pub struct Resources {
    entries: Vec<(String, (String, String))>,
}

impl View for Resources {
    type V = Seq<ResourceModel>;

    closed spec fn view(&self) -> Seq<ResourceModel> {
        self.entries@.map_values(|e: (String, (String, String))| (e.0@, e.1.0@, e.1.1@))
    }
}

proof fn lemma_resource_index(m: Seq<ResourceModel>, id: Seq<char>)
    ensures
        match resource_index(m, id) {
            Some(i) => 0 <= i < m.len() && m[i].0 == id && forall|j: int| 0 <= j < i ==> m[j].0 != id,
            None => forall|j: int| 0 <= j < m.len() ==> m[j].0 != id,
        },
    decreases m.len(),
{
    if m.len() > 0 {
        lemma_resource_index(m.drop_last(), id);
        match resource_index(m.drop_last(), id) {
            Some(i) => {
                assert(m[i] == m.drop_last()[i]);
                assert forall|j: int| 0 <= j < i implies m[j].0 != id by {
                    assert(m[j] == m.drop_last()[j]);
                }
            },
            None => {
                assert forall|j: int| 0 <= j < m.len() - 1 implies m[j].0 != id by {
                    assert(m[j] == m.drop_last()[j]);
                }
            },
        }
    }
}

impl Resources {
    /// No resources.
    pub fn new() -> (r: Resources)
        ensures
            r@ == Seq::<ResourceModel>::empty(),
    {
        let r = Resources { entries: Vec::new() };
        assert(r@ =~= Seq::<ResourceModel>::empty());
        r
    }

    /// The number of resources.
    pub fn len(&self) -> (r: usize)
        ensures
            r == self@.len(),
    {
        self.entries.len()
    }

    /// The index of the entry with this id.
    fn index_of(&self, id: &str) -> (r: Option<usize>)
        ensures
            match r {
                Some(i) => i < self@.len() && i < self.entries@.len() && resource_index(self@, id@) == Some(
                    i as int,
                ),
                None => resource_index(self@, id@) is None,
            },
    {
        proof {
            lemma_resource_index(self@, id@);
        }
        let mut i: usize = 0;
        while i < self.entries.len()
            invariant
                i <= self.entries@.len(),
                forall|j: int| 0 <= j < i ==> self@[j].0 != id@,
            decreases self.entries@.len() - i,
        {
            if str_eq(self.entries[i].0.as_str(), id) {
                proof {
                    lemma_resource_index(self@, id@);
                    match resource_index(self@, id@) {
                        Some(k) => {
                            if k < i {
                                assert(self@[k].0 != id@);
                            }
                        },
                        None => {
                            assert(self@[i as int].0 == id@);
                        },
                    }
                }
                return Some(i);
            }
            i = i + 1;
        }
        None
    }

    /// The archive path and media type of the resource with this id.
    pub fn get(&self, id: &str) -> (r: Option<&(String, String)>)
        ensures
            match resource_index(self@, id@) {
                Some(i) => r matches Some(e) && e.0@ == self@[i].1 && e.1@ == self@[i].2,
                None => r is None,
            },
    {
        match self.index_of(id) {
            Some(i) => Some(&self.entries[i].1),
            None => None,
        }
    }

    /// The entry at position `i`: id, archive path and media type.
    pub fn entry(&self, i: usize) -> (r: (&String, &String, &String))
        requires
            i < self@.len(),
        ensures
            r.0@ == self@[i as int].0,
            r.1@ == self@[i as int].1,
            r.2@ == self@[i as int].2,
    {
        let e = &self.entries[i];
        (&e.0, &e.1.0, &e.1.1)
    }

    /// Adds a resource, replacing the one with the same id.
    pub fn insert(&mut self, id: String, path: String, mime: String)
        ensures
            final(self)@ == resource_insert(old(self)@, (id@, path@, mime@)),
    {
        let ghost e = (id@, path@, mime@);
        match self.index_of(id.as_str()) {
            Some(i) => {
                let mut entry = (id, (path, mime));
                self.entries.set_and_swap(i, &mut entry);
                assert(self@ =~= old(self)@.update(i as int, e));
            },
            None => {
                self.entries.push((id, (path, mime)));
                assert(self@ =~= old(self)@.push(e));
            },
        }
    }
}

proof fn lemma_insert_unique(m: Seq<ResourceModel>, e: ResourceModel)
    requires
        unique_ids(m),
    ensures
        unique_ids(resource_insert(m, e)),
{
    lemma_resource_index(m, e.0);
}

/// The manifest entry that an `<item>` makes: it needs `id`, `href` and
/// `media-type`; the path is the `href` resolved against `base`.
pub open spec fn manifest_entry(n: NodeModel, base: Seq<char>) -> Option<ResourceModel> {
    match (attr_lookup(n.attrs, "id"@), attr_lookup(n.attrs, "href"@), attr_lookup(n.attrs, "media-type"@)) {
        (Some(id), Some(href), Some(mime)) => Some((id, resolve_href(base, href), mime)),
        _ => None,
    }
}

/// The manifest that the children `kids` make, item after item.
pub open spec fn manifest_spec(nodes: Seq<NodeModel>, kids: Seq<usize>, base: Seq<char>) -> Seq<ResourceModel>
    decreases kids.len(),
{
    if kids.len() == 0 {
        seq![]
    } else {
        let m = manifest_spec(nodes, kids.drop_last(), base);
        match manifest_entry(nodes[kids.last() as int], base) {
            Some(e) => resource_insert(m, e),
            None => m,
        }
    }
}

/// The id of an `<item>` whose `properties` is `cover-image`.
pub open spec fn cover_image_id(n: NodeModel) -> Option<Seq<char>> {
    match (attr_lookup(n.attrs, "id"@), attr_lookup(n.attrs, "properties"@)) {
        (Some(id), Some(p)) => if p == "cover-image"@ {
            Some(id)
        } else {
            None
        },
        _ => None,
    }
}

/// The first cover image of the manifest children `kids`.
pub open spec fn manifest_cover(nodes: Seq<NodeModel>, kids: Seq<usize>) -> Option<Seq<char>>
    decreases kids.len(),
{
    if kids.len() == 0 {
        None
    } else {
        match manifest_cover(nodes, kids.drop_last()) {
            Some(c) => Some(c),
            None => cover_image_id(nodes[kids.last() as int]),
        }
    }
}

/// Adds the manifest entry of an `<item>` to `resources`; an item without
/// `id`, `href` or `media-type` is refused with the name of the first one
/// missing.
pub fn insert_resource(resources: &mut Resources, item: &XMLNode, base: &str) -> (r: Result<(), XMLError>)
    ensures
        match manifest_entry(item@, base@) {
            Some(e) => r is Ok && final(resources)@ == resource_insert(old(resources)@, e),
            None => r matches Err(XMLError::AttrNotFound(_)) && final(resources)@ == old(resources)@,
        },
{
    let id = match item.get_attr("id") {
        Some(v) => v,
        None => return Err(XMLError::AttrNotFound("id".to_owned())),
    };
    let href = match item.get_attr("href") {
        Some(v) => v,
        None => return Err(XMLError::AttrNotFound("href".to_owned())),
    };
    let mime = match item.get_attr("media-type") {
        Some(v) => v,
        None => return Err(XMLError::AttrNotFound("media-type".to_owned())),
    };
    let path = resolve_path(base, href.as_str());
    resources.insert(id, path, mime);
    Ok(())
}

/// The model of a spine item.
pub ghost struct SpineModel {
    pub idref: Seq<char>,
    pub id: Option<Seq<char>>,
    pub properties: Option<Seq<char>>,
    pub linear: bool,
}

/// An item of the spine: the manifest id of a document of the reading order.
pub struct SpineItem {
    pub idref: String,
    pub id: Option<String>,
    pub properties: Option<String>,
    pub linear: bool,
}

impl View for SpineItem {
    type V = SpineModel;

    open spec fn view(&self) -> SpineModel {
        SpineModel {
            idref: self.idref@,
            id: opt_view(self.id),
            properties: opt_view(self.properties),
            linear: self.linear,
        }
    }
}

pub open spec fn spine_view(s: Seq<SpineItem>) -> Seq<SpineModel> {
    s.map_values(|x: SpineItem| x@)
}

/// The spine item that an `<itemref>` makes: it needs `idref`; it is linear
/// unless `linear` is `no`.
pub open spec fn spine_entry(n: NodeModel) -> Option<SpineModel> {
    match attr_lookup(n.attrs, "idref"@) {
        Some(idref) => Some(
            SpineModel {
                idref,
                id: attr_lookup(n.attrs, "id"@),
                properties: attr_lookup(n.attrs, "properties"@),
                linear: attr_lookup(n.attrs, "linear"@) != Some("no"@),
            },
        ),
        None => None,
    }
}

/// The spine that the children `kids` make, in document order.
pub open spec fn spine_spec(nodes: Seq<NodeModel>, kids: Seq<usize>) -> Seq<SpineModel>
    decreases kids.len(),
{
    if kids.len() == 0 {
        seq![]
    } else {
        let s = spine_spec(nodes, kids.drop_last());
        match spine_entry(nodes[kids.last() as int]) {
            Some(e) => s.push(e),
            None => s,
        }
    }
}

/// Appends the spine item of an `<itemref>`; one without `idref` is refused.
pub fn insert_spine(spine: &mut Vec<SpineItem>, item: &XMLNode) -> (r: Result<(), XMLError>)
    ensures
        match spine_entry(item@) {
            Some(e) => r is Ok && spine_view(final(spine)@) == spine_view(old(spine)@).push(e),
            None => r matches Err(XMLError::AttrNotFound(_)) && final(spine)@ == old(spine)@,
        },
{
    let idref = match item.get_attr("idref") {
        Some(v) => v,
        None => return Err(XMLError::AttrNotFound("idref".to_owned())),
    };
    let linear = match item.get_attr("linear") {
        Some(v) => !str_eq(v.as_str(), "no"),
        None => true,
    };
    let properties = item.get_attr("properties");
    let id = item.get_attr("id");
    spine.push(SpineItem { idref, id, properties, linear });
    assert(spine_view(spine@) =~= spine_view(old(spine)@).push(spine@.last()@));
    Ok(())
}

/// A navigation point of the table of contents.
pub struct NavPoint {
    /// The title of this point.
    pub label: String,
    /// The archive path of the resource it points to.
    pub content: String,
    /// The nested points, ordered by `play_order`.
    pub children: Vec<NavPoint>,
    /// The position of this point in the reading order of the table.
    pub play_order: usize,
}

impl PartialEq for NavPoint {
    fn eq(&self, other: &NavPoint) -> (r: bool) {
        self.play_order == other.play_order
    }
}

impl vstd::std_specs::cmp::PartialEqSpecImpl for NavPoint {
    open spec fn obeys_eq_spec() -> bool {
        true
    }

    open spec fn eq_spec(&self, other: &NavPoint) -> bool {
        self.play_order == other.play_order
    }
}

/// The order of two navigation points: by play order alone.
pub open spec fn play_order_cmp(a: &NavPoint, b: &NavPoint) -> Option<core::cmp::Ordering> {
    if a.play_order < b.play_order {
        Some(core::cmp::Ordering::Less)
    } else if a.play_order > b.play_order {
        Some(core::cmp::Ordering::Greater)
    } else {
        Some(core::cmp::Ordering::Equal)
    }
}

impl PartialOrd for NavPoint {
    fn partial_cmp(&self, other: &NavPoint) -> (r: Option<core::cmp::Ordering>) {
        if self.play_order < other.play_order {
            Some(core::cmp::Ordering::Less)
        } else if self.play_order > other.play_order {
            Some(core::cmp::Ordering::Greater)
        } else {
            Some(core::cmp::Ordering::Equal)
        }
    }
}

impl vstd::std_specs::cmp::PartialOrdSpecImpl for NavPoint {
    open spec fn obeys_partial_cmp_spec() -> bool {
        true
    }

    open spec fn partial_cmp_spec(&self, other: &NavPoint) -> Option<core::cmp::Ordering> {
        play_order_cmp(self, other)
    }
}

/// The first descendant of node `c` with the local name `tag`.
pub open spec fn find_below(nodes: Seq<NodeModel>, c: int, tag: Seq<char>) -> Option<usize> {
    first_named(nodes, preorder_below(nodes, nodes[c].children, 0), tag)
}

/// The text of the first child of node `c`.
pub open spec fn first_child_text(nodes: Seq<NodeModel>, c: int) -> Option<Seq<char>> {
    if nodes[c].children.len() > 0 {
        nodes[nodes[c].children[0] as int].text
    } else {
        None
    }
}

/// What a `<navPoint>` (node `c`) gives: its `playOrder` as a number, the
/// `src` of its first `content` descendant resolved against `base` (as a
/// manifest `href` is), and the
/// text of the first child of its first `navLabel` descendant; nothing unless
/// all three are there.
pub open spec fn nav_fields(nodes: Seq<NodeModel>, c: int, base: Seq<char>) -> Option<(usize, Seq<char>, Seq<char>)> {
    let order = match attr_lookup(nodes[c].attrs, "playOrder"@) {
        Some(o) => decimal_value(o),
        None => None,
    };
    let content = match find_below(nodes, c, "content"@) {
        Some(k) => match attr_lookup(nodes[k as int].attrs, "src"@) {
            Some(src) => Some(resolve_href(base, src)),
            None => None,
        },
        None => None,
    };
    let label = match find_below(nodes, c, "navLabel"@) {
        Some(k) => first_child_text(nodes, k as int),
        None => None,
    };
    match (order, content, label) {
        (Some(o), Some(t), Some(l)) => Some((o, t, l)),
        _ => None,
    }
}

/// Whether child `c` counts as a navigation point below a node whose
/// children have indices from `lo`.
pub open spec fn is_nav(nodes: Seq<NodeModel>, c: int, lo: int, base: Seq<char>) -> bool {
    lo <= c < nodes.len() && nodes[c].name.local == "navPoint"@ && nav_fields(nodes, c, base) is Some
}

/// The navigation points among `kids`, as (play order, node) pairs, in
/// document order.
pub open spec fn nav_pairs(nodes: Seq<NodeModel>, kids: Seq<usize>, lo: int, base: Seq<char>) -> Seq<(usize, usize)>
    decreases kids.len(),
{
    if kids.len() == 0 {
        seq![]
    } else {
        let rest = nav_pairs(nodes, kids.drop_last(), lo, base);
        let c = kids.last() as int;
        if is_nav(nodes, c, lo, base) {
            let fields = nav_fields(nodes, c, base)->0;
            rest.push((fields.0, kids.last()))
        } else {
            rest
        }
    }
}

/// `x` inserted into `s` after every pair whose key is not greater.
pub open spec fn insert_pair(s: Seq<(usize, usize)>, x: (usize, usize)) -> Seq<(usize, usize)>
    decreases s.len(),
{
    if s.len() == 0 {
        seq![x]
    } else if s.last().0 <= x.0 {
        s.push(x)
    } else {
        insert_pair(s.drop_last(), x).push(s.last())
    }
}

/// Pairs sorted by key, equal keys in their first order.
pub open spec fn sort_pairs(s: Seq<(usize, usize)>) -> Seq<(usize, usize)>
    decreases s.len(),
{
    if s.len() == 0 {
        seq![]
    } else {
        insert_pair(sort_pairs(s.drop_last()), s.last())
    }
}

/// Whether `v` are the navigation points of the children `kids`: one per
/// `<navPoint>` that has all its fields, ordered by play order, each with its
/// own points below it.
pub open spec fn navs_ok(nodes: Seq<NodeModel>, v: Seq<NavPoint>, kids: Seq<usize>, lo: int, base: Seq<char>) -> bool
    decreases nodes.len() - lo, 1int,
{
    let p = sort_pairs(nav_pairs(nodes, kids, lo, base));
    &&& v.len() == p.len()
    &&& forall|i: int|
        0 <= i < p.len() ==> (lo <= p[i].1 < nodes.len() && nav_ok(nodes, #[trigger] v[i], p[i].1 as int, base))
}

/// Whether `n` is the navigation point of node `c`.
pub open spec fn nav_ok(nodes: Seq<NodeModel>, n: NavPoint, c: int, base: Seq<char>) -> bool
    decreases nodes.len() - c, 0int,
{
    if 0 <= c < nodes.len() {
        &&& nav_fields(nodes, c, base) == Some((n.play_order, n.content@, n.label@))
        &&& navs_ok(nodes, n.children@, nodes[c].children, c + 1, base)
    } else {
        false
    }
}

/// The fields of the `<navPoint>` at node `c`, where it has all of them.
fn nav_fields_of(tree: &XMLTree, c: usize, base: &str) -> (r: Option<(usize, String, String)>)
    requires
        arena_wf(tree@),
        c < tree@.len(),
    ensures
        match r {
            Some(f) => nav_fields(tree@, c as int, base@) == Some((f.0, f.1@, f.2@)),
            None => nav_fields(tree@, c as int, base@) is None,
        },
{
    let node = &tree.nodes[c];
    let order = match node.get_attr("playOrder") {
        Some(o) => parse_usize(o.as_str()),
        None => None,
    };
    let content = match node.find(tree, "content") {
        Some(k) => {
            proof {
                lemma_first_named_in_range(tree@, preorder_below(tree@, tree@[c as int].children, 0), "content"@);
            }
            match tree.nodes[k].get_attr("src") {
                Some(src) => Some(resolve_path(base, src.as_str())),
                None => None,
            }
        },
        None => None,
    };
    let label = match node.find(tree, "navLabel") {
        Some(k) => {
            proof {
                lemma_first_named_in_range(tree@, preorder_below(tree@, tree@[c as int].children, 0), "navLabel"@);
            }
            let l = &tree.nodes[k];
            if l.children.len() > 0 {
                proof {
                    assert(tree@[k as int].children[0] < tree@.len());
                }
                match &tree.nodes[l.children[0]].text {
                    Some(t) => Some(t.clone()),
                    None => None,
                }
            } else {
                None
            }
        },
        None => None,
    };
    match (order, content, label) {
        (Some(o), Some(t), Some(l)) => Some((o, t, l)),
        _ => None,
    }
}

proof fn lemma_first_named_in_range(nodes: Seq<NodeModel>, order: Seq<usize>, tag: Seq<char>)
    ensures
        first_named(nodes, order, tag) matches Some(k) ==> k < nodes.len(),
    decreases order.len(),
{
    if order.len() > 0 {
        lemma_first_named_in_range(nodes, order.drop_first(), tag);
    }
}

proof fn lemma_insert_pair_at(s: Seq<(usize, usize)>, x: (usize, usize), p: int)
    requires
        0 <= p <= s.len(),
        forall|k: int| p <= k < s.len() ==> (#[trigger] s[k]).0 > x.0,
        p == 0 || s[p - 1].0 <= x.0,
    ensures
        insert_pair(s, x) == s.insert(p, x),
    decreases s.len(),
{
    if s.len() == 0 {
        assert(s.insert(p, x) =~= seq![x]);
    } else if s.last().0 <= x.0 {
        assert(p == s.len());
        assert(s.insert(p, x) =~= s.push(x));
    } else {
        let d = s.drop_last();
        assert forall|k: int| p <= k < d.len() implies (#[trigger] d[k]).0 > x.0 by {
            assert(d[k] == s[k]);
        }
        if p > 0 {
            assert(d[p - 1] == s[p - 1]);
        }
        lemma_insert_pair_at(d, x, p);
        assert(d.insert(p, x).push(s.last()) =~= s.insert(p, x));
    }
}

/// Pairs sorted by key, stably.
fn sort_by_order(v: &Vec<(usize, usize)>) -> (r: Vec<(usize, usize)>)
    ensures
        r@ == sort_pairs(v@),
{
    let mut sorted: Vec<(usize, usize)> = Vec::new();
    let mut i: usize = 0;
    while i < v.len()
        invariant
            i <= v@.len(),
            sorted@ == sort_pairs(v@.take(i as int)),
        decreases v@.len() - i,
    {
        proof {
            assert(v@.take(i as int + 1).drop_last() =~= v@.take(i as int));
        }
        let x = v[i];
        let mut p = sorted.len();
        while p > 0 && sorted[p - 1].0 > x.0
            invariant
                p <= sorted@.len(),
                forall|k: int| p <= k < sorted@.len() ==> (#[trigger] sorted@[k]).0 > x.0,
            decreases p,
        {
            p = p - 1;
        }
        proof {
            lemma_insert_pair_at(sorted@, x, p as int);
        }
        sorted.insert(p, x);
        i = i + 1;
    }
    assert(v@.take(v@.len() as int) =~= v@);
    sorted
}

proof fn lemma_insert_pair_members(s: Seq<(usize, usize)>, x: (usize, usize))
    ensures
        forall|k: int| 0 <= k < insert_pair(s, x).len() ==> (#[trigger] insert_pair(s, x)[k] == x || s.contains(insert_pair(s, x)[k])),
        insert_pair(s, x).len() == s.len() + 1,
    decreases s.len(),
{
    if s.len() > 0 && s.last().0 > x.0 {
        let d = s.drop_last();
        lemma_insert_pair_members(d, x);
        assert forall|k: int| 0 <= k < insert_pair(s, x).len() implies (#[trigger] insert_pair(s, x)[k] == x || s.contains(insert_pair(s, x)[k])) by {
            if k < insert_pair(d, x).len() {
                let y = insert_pair(d, x)[k];
                if y != x {
                    let m = choose|m: int| 0 <= m < d.len() && d[m] == y;
                    assert(s[m] == y);
                }
            } else {
                assert(s[s.len() - 1] == s.last());
            }
        }
    } else if s.len() > 0 {
        assert forall|k: int| 0 <= k < insert_pair(s, x).len() implies (#[trigger] insert_pair(s, x)[k] == x || s.contains(insert_pair(s, x)[k])) by {
            if k < s.len() {
                assert(s[k] == insert_pair(s, x)[k]);
            }
        }
    }
}

proof fn lemma_sort_pairs_members(s: Seq<(usize, usize)>)
    ensures
        forall|k: int| 0 <= k < sort_pairs(s).len() ==> s.contains(#[trigger] sort_pairs(s)[k]),
        sort_pairs(s).len() == s.len(),
    decreases s.len(),
{
    if s.len() > 0 {
        let d = s.drop_last();
        lemma_sort_pairs_members(d);
        lemma_insert_pair_members(sort_pairs(d), s.last());
        assert forall|k: int| 0 <= k < sort_pairs(s).len() implies s.contains(#[trigger] sort_pairs(s)[k]) by {
            let y = sort_pairs(s)[k];
            if y == s.last() {
                assert(s[s.len() - 1] == y);
            } else {
                let m = choose|m: int| 0 <= m < sort_pairs(d).len() && sort_pairs(d)[m] == y;
                let q = choose|q: int| 0 <= q < d.len() && d[q] == sort_pairs(d)[m];
                assert(s[q] == y);
            }
        }
    }
}

proof fn lemma_nav_pairs_members(nodes: Seq<NodeModel>, kids: Seq<usize>, lo: int, base: Seq<char>)
    ensures
        forall|k: int|
            0 <= k < nav_pairs(nodes, kids, lo, base).len() ==> is_nav(nodes, (#[trigger] nav_pairs(nodes, kids, lo, base)[k]).1 as int, lo, base)
                && nav_pairs(nodes, kids, lo, base)[k].0 == (nav_fields(nodes, nav_pairs(nodes, kids, lo, base)[k].1 as int, base)->0).0,
    decreases kids.len(),
{
    if kids.len() > 0 {
        lemma_nav_pairs_members(nodes, kids.drop_last(), lo, base);
    }
}

/// The navigation points among the children `kids` of a node, each with its
/// own points below it, ordered by play order at each level.
fn navpoints_below(tree: &XMLTree, kids: &Vec<usize>, lo: usize, base: &str) -> (r: Vec<NavPoint>)
    requires
        arena_wf(tree@),
        lo <= tree@.len(),
    ensures
        navs_ok(tree@, r@, kids@, lo as int, base@),
    decreases tree@.len() - lo,
{
    let mut pairs: Vec<(usize, usize)> = Vec::new();
    let mut j: usize = 0;
    while j < kids.len()
        invariant
            arena_wf(tree@),
            j <= kids@.len(),
            pairs@ == nav_pairs(tree@, kids@.take(j as int), lo as int, base@),
        decreases kids@.len() - j,
    {
        proof {
            assert(kids@.take(j as int + 1).drop_last() =~= kids@.take(j as int));
            assert(kids@.take(j as int + 1).last() == kids@[j as int]);
        }
        let c = kids[j];
        if lo <= c && c < tree.nodes.len() && str_eq(tree.nodes[c].name.local_name.as_str(), "navPoint") {
            match nav_fields_of(tree, c, base) {
                Some(f) => {
                    pairs.push((f.0, c));
                },
                None => {},
            }
        }
        j = j + 1;
    }
    assert(kids@.take(kids@.len() as int) =~= kids@);
    let sorted = sort_by_order(&pairs);
    proof {
        lemma_sort_pairs_members(pairs@);
        lemma_nav_pairs_members(tree@, kids@, lo as int, base@);
    }
    let mut out: Vec<NavPoint> = Vec::new();
    let mut i: usize = 0;
    while i < sorted.len()
        invariant
            arena_wf(tree@),
            lo <= tree@.len(),
            i <= sorted@.len(),
            out@.len() == i,
            sorted@ == sort_pairs(nav_pairs(tree@, kids@, lo as int, base@)),
            forall|k: int| 0 <= k < sorted@.len() ==> pairs@.contains(#[trigger] sorted@[k]),
            pairs@ == nav_pairs(tree@, kids@, lo as int, base@),
            forall|k: int|
                0 <= k < i ==> (lo <= sorted@[k].1 < tree@.len() && nav_ok(tree@, #[trigger] out@[k], sorted@[k].1 as int, base@)),
        decreases sorted@.len() - i,
    {
        let (o, c) = sorted[i];
        proof {
            lemma_nav_pairs_members(tree@, kids@, lo as int, base@);
            assert(pairs@.contains(sorted@[i as int]));
            let m = choose|m: int| 0 <= m < pairs@.len() && pairs@[m] == sorted@[i as int];
            assert(nav_pairs(tree@, kids@, lo as int, base@)[m] == pairs@[m]);
            assert(is_nav(tree@, pairs@[m].1 as int, lo as int, base@));
        }
        match nav_fields_of(tree, c, base) {
            Some(f) => {
                let children = navpoints_below(tree, &tree.nodes[c].children, c + 1, base);
                let ghost before = out@;
                out.push(NavPoint { label: f.2, content: f.1, children, play_order: f.0 });
                proof {
                    assert forall|k: int|
                        0 <= k < i + 1 implies (lo <= sorted@[k].1 < tree@.len() && nav_ok(tree@, #[trigger] out@[k], sorted@[k].1 as int, base@)) by {
                        if k < i {
                            assert(out@[k] == before[k]);
                        }
                    }
                }
            },
            None => {
                proof {
                    assert(false);
                }
            },
        }
        i = i + 1;
    }
    out
}

/// The model of a version.
pub ghost enum VersionModel {
    V2,
    V3,
    Unknown(Seq<char>),
}

impl View for EpubVersion {
    type V = VersionModel;

    open spec fn view(&self) -> VersionModel {
        match self {
            EpubVersion::Version2_0 => VersionModel::V2,
            EpubVersion::Version3_0 => VersionModel::V3,
            EpubVersion::Unknown(s) => VersionModel::Unknown(s@),
        }
    }
}

/// The version that a `version` attribute declares.
pub open spec fn version_spec(v: Option<Seq<char>>) -> VersionModel {
    match v {
        Some(s) => if s == "2.0"@ {
            VersionModel::V2
        } else if s == "3.0"@ {
            VersionModel::V3
        } else {
            VersionModel::Unknown(s)
        },
        None => VersionModel::Unknown("Unknown"@),
    }
}

fn version_of(v: Option<String>) -> (r: EpubVersion)
    ensures
        r@ == version_spec(opt_view(v)),
{
    match v {
        Some(s) => if str_eq(s.as_str(), "2.0") {
            EpubVersion::Version2_0
        } else if str_eq(s.as_str(), "3.0") {
            EpubVersion::Version3_0
        } else {
            EpubVersion::Unknown(s)
        },
        None => EpubVersion::Unknown("Unknown".to_owned()),
    }
}

/// The index of the first item with the property `identifier` (and the id
/// `id`, where one is given).
pub open spec fn identifier_index(m: Seq<MetadataModel>, id: Option<Seq<char>>) -> Option<int>
    decreases m.len(),
{
    if m.len() == 0 {
        None
    } else {
        match identifier_index(m.drop_last(), id) {
            Some(i) => Some(i),
            None => if m.last().property == "identifier"@ && (id is None || m.last().id == id) {
                Some(m.len() - 1)
            } else {
                None
            },
        }
    }
}

/// The unique identifier: the value of the identifier whose id the package
/// declares, or else of the first identifier.
pub open spec fn unique_identifier_spec(m: Seq<MetadataModel>, declared: Option<Seq<char>>) -> Option<Seq<char>> {
    let i = match declared {
        Some(d) => match identifier_index(m, Some(d)) {
            Some(i) => Some(i),
            None => identifier_index(m, None),
        },
        None => identifier_index(m, None),
    };
    match i {
        Some(i) => Some(m[i].value),
        None => None,
    }
}

fn find_identifier(metadata: &Vec<MetadataItem>, id: &Option<String>) -> (r: Option<usize>)
    ensures
        match r {
            Some(i) => identifier_index(metadata_view(metadata@), opt_view(*id)) == Some(i as int) && i < metadata@.len(),
            None => identifier_index(metadata_view(metadata@), opt_view(*id)) is None,
        },
{
    let ghost m = metadata_view(metadata@);
    let mut i: usize = 0;
    while i < metadata.len()
        invariant
            i <= metadata@.len(),
            m == metadata_view(metadata@),
            identifier_index(m.take(i as int), opt_view(*id)) is None,
        decreases metadata@.len() - i,
    {
        proof {
            assert(m.take(i as int + 1).drop_last() =~= m.take(i as int));
        }
        let item = &metadata[i];
        let id_ok = match id {
            None => true,
            Some(x) => match &item.id {
                Some(y) => *y == *x,
                None => false,
            },
        };
        if str_eq(item.property.as_str(), "identifier") && id_ok {
            proof {
                lemma_identifier_prefix(m, opt_view(*id), i as int + 1);
            }
            return Some(i);
        }
        i = i + 1;
    }
    assert(m.take(metadata@.len() as int) =~= m);
    None
}

proof fn lemma_identifier_prefix(m: Seq<MetadataModel>, id: Option<Seq<char>>, k: int)
    requires
        0 < k <= m.len(),
        identifier_index(m.take(k), id) == Some(k - 1),
    ensures
        identifier_index(m, id) == Some(k - 1),
    decreases m.len() - k,
{
    if k < m.len() {
        assert(m.drop_last().take(k) =~= m.take(k));
        lemma_identifier_prefix(m.drop_last(), id, k);
    } else {
        assert(m.take(k) =~= m);
    }
}

/// The value of the unique identifier among `metadata`.
fn unique_identifier_of(metadata: &Vec<MetadataItem>, declared: &Option<String>) -> (r: Option<String>)
    ensures
        opt_view(r) == unique_identifier_spec(metadata_view(metadata@), opt_view(*declared)),
{
    let found = match declared {
        Some(_) => match find_identifier(metadata, declared) {
            Some(i) => Some(i),
            None => find_identifier(metadata, &None),
        },
        None => find_identifier(metadata, &None),
    };
    match found {
        Some(i) => Some(metadata[i].value.clone()),
        None => None,
    }
}

/// The model of an opened publication.
pub ghost struct DocModel {
    pub contents: Map<Seq<char>, Seq<u8>>,
    pub listed: Seq<Seq<char>>,
    pub current: int,
    pub version: VersionModel,
    pub spine: Seq<SpineModel>,
    pub resources: Seq<ResourceModel>,
    pub toc: Seq<NavPoint>,
    pub toc_title: Seq<char>,
    pub metadata: Seq<MetadataModel>,
    pub root_base: Seq<char>,
    pub root_file: Seq<char>,
    pub extra_css: Seq<Seq<char>>,
    pub unique_identifier: Option<Seq<char>>,
    pub cover_id: Option<Seq<char>>,
    pub page_progression_direction: Option<Seq<char>>,
}

/// An opened publication: its package model and a reading cursor over the
/// spine.
pub struct EpubDoc {
    /// The zip container.
    pub archive: EpubArchive,
    /// The cursor: an index into the spine.
    pub current: usize,
    /// The version the package declares.
    pub version: EpubVersion,
    /// The reading order.
    pub spine: Vec<SpineItem>,
    /// The manifest: id to archive path and media type.
    pub resources: Resources,
    /// The table of contents.
    pub toc: Vec<NavPoint>,
    /// The title of the table of contents.
    pub toc_title: String,
    /// The metadata, in document order.
    pub metadata: Vec<MetadataItem>,
    /// The directory of the package document.
    pub root_base: String,
    /// The path of the package document.
    pub root_file: String,
    /// Style text added to every relinked document.
    pub extra_css: Vec<String>,
    /// The unique identifier.
    pub unique_identifier: Option<String>,
    /// The id of the cover image.
    pub cover_id: Option<String>,
    /// The page progression direction that the spine declares (EPUB3).
    pub page_progression_direction: Option<String>,
}

impl View for EpubDoc {
    type V = DocModel;

    open spec fn view(&self) -> DocModel {
        DocModel {
            contents: self.archive.contents(),
            listed: self.archive.listed(),
            current: self.current as int,
            version: self.version@,
            spine: spine_view(self.spine@),
            resources: self.resources@,
            toc: self.toc@,
            toc_title: self.toc_title@,
            metadata: metadata_view(self.metadata@),
            root_base: self.root_base@,
            root_file: self.root_file@,
            extra_css: texts_view(self.extra_css@),
            unique_identifier: opt_view(self.unique_identifier),
            cover_id: opt_view(self.cover_id),
            page_progression_direction: opt_view(self.page_progression_direction),
        }
    }
}

/// The index of the first spine item whose idref is `id`.
pub open spec fn chapter_of(spine: Seq<SpineModel>, id: Seq<char>) -> Option<int>
    decreases spine.len(),
{
    if spine.len() == 0 {
        None
    } else {
        match chapter_of(spine.drop_last(), id) {
            Some(i) => Some(i),
            None => if spine.last().idref == id {
                Some(spine.len() - 1)
            } else {
                None
            },
        }
    }
}

/// The index of the first manifest entry whose path is `path`.
pub open spec fn path_index(m: Seq<ResourceModel>, path: Seq<char>) -> Option<int>
    decreases m.len(),
{
    if m.len() == 0 {
        None
    } else {
        match path_index(m.drop_last(), path) {
            Some(i) => Some(i),
            None => if m.last().1 == path {
                Some(m.len() - 1)
            } else {
                None
            },
        }
    }
}

/// The index of the first metadata item with this property.
pub open spec fn mdata_index(m: Seq<MetadataModel>, property: Seq<char>) -> Option<int>
    decreases m.len(),
{
    if m.len() == 0 {
        None
    } else {
        match mdata_index(m.drop_last(), property) {
            Some(i) => Some(i),
            None => if m.last().property == property {
                Some(m.len() - 1)
            } else {
                None
            },
        }
    }
}

/// What the relinking of a document at `path` makes of an attribute value:
/// `href` of `link`, `image` and `a`, and `src` of `img`, become `epub://`
/// addresses; every other value stays.
pub open spec fn relink_spec(path: Seq<char>, element: Seq<char>, attr: Seq<char>, value: Seq<char>) -> Seq<char> {
    if (attr == "href"@ && (element == "link"@ || element == "image"@ || element == "a"@)) || (element == "img"@
        && attr == "src"@) {
        epub_uri(path, value)
    } else {
        value
    }
}

/// The new attribute values of each start tag of a document at `path`.
pub open spec fn relink_values(path: Seq<char>, events: Seq<EventModel>) -> Seq<Seq<Seq<char>>> {
    events.map_values(
        |e: EventModel|
            match e {
                EventModel::Start(name, attrs) => attrs.map_values(
                    |a: AttrModel| relink_spec(path, name.local, a.name.local, a.value),
                ),
                _ => seq![],
            },
    )
}

/// The bytes of the document `bytes` at `path`, relinked, with the extra CSS
/// before the end of `head`.
pub open spec fn relinked(path: Seq<char>, bytes: Seq<u8>, css: Seq<Seq<char>>) -> Seq<u8> {
    let events = xml_events(bytes, parser_entities());
    xml_emitted(
        plan_writes(xml_read(bytes, parser_entities()).0, rewrite_ops(events, relink_values(path, events), css)),
        true,
    )
}

proof fn lemma_relink_values<F: Fn(&str, &str, &str) -> String>(
    path: Seq<char>,
    events: Seq<EventModel>,
    values: Seq<Seq<Seq<char>>>,
    f: F,
)
    requires
        substituted_model(events, values, f),
        forall|t: &str, a: &str, v: &str, o: String| f.ensures((t, a, v), o) ==> o@ == relink_spec(path, t@, a@, v@),
    ensures
        values == relink_values(path, events),
{
    let rv = relink_values(path, events);
    assert forall|i: int| 0 <= i < events.len() implies values[i] == rv[i] by {
        match events[i] {
            EventModel::Start(name, attrs) => {
                assert forall|j: int| 0 <= j < attrs.len() implies values[i][j] == rv[i][j] by {
                    let o = choose|o: String|
                        o@ == #[trigger] values[i][j] && substitute_gives(f, name.local, attrs[j].name.local, attrs[j].value, o);
                    let (t, a, v) = choose|t: &str, a: &str, v: &str|
                        t@ == name.local && a@ == attrs[j].name.local && v@ == attrs[j].value && #[trigger] f.ensures((t, a, v), o);
                }
                assert(values[i] =~= rv[i]);
            },
            _ => {
                assert(values[i] =~= rv[i]);
            },
        }
    }
    assert(values =~= rv);
}

/// The new value of an attribute of a document at `path`, when relinking.
pub fn relink_attribute(path: &str, element: &str, attr: &str, value: &str) -> (r: String)
    ensures
        r@ == relink_spec(path@, element@, attr@, value@),
{
    let href = str_eq(attr, "href");
    if (href && (str_eq(element, "link") || str_eq(element, "image") || str_eq(element, "a"))) || (str_eq(
        element,
        "img",
    ) && str_eq(attr, "src")) {
        build_epub_uri(path, value)
    } else {
        value.to_owned()
    }
}

proof fn lemma_entry_cover(e: Seq<MetaEntry>, prev: Option<Seq<char>>)
    ensures
        entry_cover(e, prev) == (match entry_cover(e, None) {
            Some(c) => Some(c),
            None => prev,
        }),
    decreases e.len(),
{
    if e.len() > 0 {
        lemma_entry_cover(e.drop_last(), prev);
    }
}

proof fn lemma_manifest_unique(nodes: Seq<NodeModel>, kids: Seq<usize>, base: Seq<char>)
    ensures
        unique_ids(manifest_spec(nodes, kids, base)),
    decreases kids.len(),
{
    if kids.len() > 0 {
        lemma_manifest_unique(nodes, kids.drop_last(), base);
        match manifest_entry(nodes[kids.last() as int], base) {
            Some(e) => {
                lemma_insert_unique(manifest_spec(nodes, kids.drop_last(), base), e);
                lemma_resource_index(manifest_spec(nodes, kids.drop_last(), base), e.0);
                let m = manifest_spec(nodes, kids.drop_last(), base);
                let n = resource_insert(m, e);
                assert forall|i: int, j: int| 0 <= i < j < n.len() implies (#[trigger] n[i]).0 != (#[trigger] n[j]).0 by {
                    match resource_index(m, e.0) {
                        Some(k) => {
                            if i != k && j != k {
                                assert(n[i] == m[i] && n[j] == m[j]);
                            } else if i == k {
                                assert(n[j] == m[j]);
                            } else {
                                assert(n[i] == m[i]);
                            }
                        },
                        None => {
                            if j < m.len() {
                                assert(n[i] == m[i] && n[j] == m[j]);
                            } else {
                                assert(n[i] == m[i]);
                            }
                        },
                    }
                }
            },
            None => {},
        }
    }
}

/// The cover image id of a manifest `<item>`.
fn cover_image_of(item: &XMLNode) -> (r: Option<String>)
    ensures
        opt_view(r) == cover_image_id(item@),
{
    match (item.get_attr("id"), item.get_attr("properties")) {
        (Some(id), Some(p)) => if str_eq(p.as_str(), "cover-image") {
            Some(id)
        } else {
            None
        },
        _ => None,
    }
}

/// The path of the package document that `container.xml` (parsed) names:
/// the `full-path` of its first `rootfile` element.
pub fn root_file_of(tree: &XMLTree) -> (r: Result<String, DocError>)
    requires
        arena_wf(tree@),
        tree@.len() > 0,
    ensures
        match find_below(tree@, 0, "rootfile"@) {
            Some(k) => match attr_lookup(tree@[k as int].attrs, "full-path"@) {
                Some(p) => r matches Ok(s) && s@ == p,
                None => r matches Err(DocError::XmlError(XMLError::AttrNotFound(_))),
            },
            None => r matches Err(DocError::XmlError(XMLError::AttrNotFound(_))),
        },
{
    match tree.root().find(tree, "rootfile") {
        Some(k) => {
            proof {
                lemma_first_named_in_range(tree@, preorder_below(tree@, tree@[0].children, 0), "rootfile"@);
            }
            match tree.nodes[k].get_attr("full-path") {
                Some(p) => Ok(p),
                None => Err(DocError::XmlError(XMLError::AttrNotFound("full-path".to_owned()))),
            }
        },
        None => Err(DocError::XmlError(XMLError::AttrNotFound("rootfile".to_owned()))),
    }
}

/// The package document that a parsed `container.xml` names: the
/// `full-path` of its first `rootfile`.
pub open spec fn root_file_spec(c: Seq<NodeModel>) -> Option<Seq<char>> {
    match find_below(c, 0, "rootfile"@) {
        Some(k) => attr_lookup(c[k as int].attrs, "full-path"@),
        None => None,
    }
}

/// The path of the package document that the bytes of `container.xml` name.
pub fn get_root_file(container: &[u8]) -> (r: Result<String, DocError>)
    ensures
        container@.len() < 4 ==> r matches Err(DocError::XmlError(XMLError::NoContent)),
        match parsed(container@) {
            Some(c) => match root_file_spec(c) {
                Some(p) => r matches Ok(q) && q@ == p,
                None => r matches Err(DocError::XmlError(XMLError::AttrNotFound(_))),
            },
            None => r matches Err(DocError::XmlError(_)),
        },
{
    match XMLReader::parse(container) {
        Ok(tree) => {
            root_file_of(&tree)
        },
        Err(e) => Err(DocError::XmlError(e)),
    }
}

/// The title of a table of contents: the text of the first child of its
/// first `docTitle`, or nothing.
pub open spec fn toc_title_spec(nodes: Seq<NodeModel>) -> Seq<char> {
    match find_below(nodes, 0, "docTitle"@) {
        Some(k) => match first_child_text(nodes, k as int) {
            Some(t) => t,
            None => seq![],
        },
        None => seq![],
    }
}

/// The model of a document after reading its package document `t`.
pub open spec fn package_spec(old: DocModel, t: Seq<NodeModel>) -> DocModel {
    let m = find_below(t, 0, "manifest"@)->0 as int;
    let sp = find_below(t, 0, "spine"@)->0 as int;
    let md = find_below(t, 0, "metadata"@)->0 as int;
    let version = version_spec(attr_lookup(t[0].attrs, "version"@));
    let entries = meta_entries(t, t[md].children, version == VersionModel::V3);
    let metadata = metadata_spec(t, t[md].children, version == VersionModel::V3);
    DocModel {
        version,
        resources: manifest_spec(t, t[m].children, old.root_base),
        spine: spine_spec(t, t[sp].children),
        page_progression_direction: attr_lookup(t[sp].attrs, "page-progression-direction"@),
        metadata,
        cover_id: entry_cover(entries, manifest_cover(t, t[m].children)),
        unique_identifier: unique_identifier_spec(metadata, attr_lookup(t[0].attrs, "unique-identifier"@)),
        ..old
    }
}

/// The tree of the document at `path` in the archive, where it reads back
/// and parses.
pub open spec fn package_entry_tree(d: DocModel, path: Seq<char>) -> Option<Seq<NodeModel>> {
    archive_tree(d.contents, d.listed, path)
}

/// The tree of the entry at `path` of an archive, where it reads back and
/// parses.
pub open spec fn archive_tree(contents: Map<Seq<char>, Seq<u8>>, listed: Seq<Seq<char>>, path: Seq<char>) -> Option<
    Seq<NodeModel>,
> {
    match entry_for(contents, listed, path) {
        Some(b) => parsed(b),
        None => None,
    }
}

/// Whether the archive `data` holds a publication that opens: a container
/// that parses and names a package document that parses with `manifest`,
/// `spine` and `metadata`.
pub open spec fn opens(data: Seq<u8>) -> bool {
    match zip_archive_of(data) {
        Some(z) => match archive_tree(z.0, z.1, "META-INF/container.xml"@) {
            Some(c) => match root_file_spec(c) {
                Some(rf) => match archive_tree(z.0, z.1, rf) {
                    Some(t) => has_package_parts(t),
                    None => false,
                },
                None => false,
            },
            None => false,
        },
        None => false,
    }
}

/// Whether a package document has `manifest`, `spine` and `metadata`.
pub open spec fn has_package_parts(t: Seq<NodeModel>) -> bool {
    find_below(t, 0, "manifest"@) is Some && find_below(t, 0, "spine"@) is Some && find_below(t, 0, "metadata"@) is Some
}

/// The manifest id of the table of contents that the spine names.
pub open spec fn spine_toc(t: Seq<NodeModel>) -> Option<Seq<char>> {
    attr_lookup(t[find_below(t, 0, "spine"@)->0 as int].attrs, "toc"@)
}

impl EpubDoc {
    /// Reads the package document (parsed): version, manifest (with the cover
    /// image), spine, page progression direction, metadata (with a legacy
    /// cover) and unique identifier, in place of what the document held.
    /// `InvalidEpub` where `manifest`, `spine` or `metadata` is missing; the
    /// result is the manifest id of the table of contents that the spine
    /// names.
    pub fn read_package(&mut self, tree: &XMLTree) -> (r: Result<Option<String>, DocError>)
        requires
            arena_wf(tree@),
            tree@.len() > 0,
        ensures
            r is Err <==> (find_below(tree@, 0, "manifest"@) is None || find_below(tree@, 0, "spine"@) is None
                || find_below(tree@, 0, "metadata"@) is None),
            r matches Err(e) ==> e is InvalidEpub && final(self)@ == old(self)@,
            r matches Ok(toc) ==> final(self)@ == package_spec(old(self)@, tree@) && opt_view(toc) == attr_lookup(
                tree@[find_below(tree@, 0, "spine"@)->0 as int].attrs,
                "toc"@,
            ),
            r matches Ok(_) ==> unique_ids(final(self)@.resources),
    {
        let ghost t = tree@;
        proof {
            lemma_first_named_in_range(t, preorder_below(t, t[0].children, 0), "manifest"@);
            lemma_first_named_in_range(t, preorder_below(t, t[0].children, 0), "spine"@);
            lemma_first_named_in_range(t, preorder_below(t, t[0].children, 0), "metadata"@);
        }
        let root = tree.root();
        let version = version_of(root.get_attr("version"));
        let declared_uid = root.get_attr("unique-identifier");
        let m = match root.find(tree, "manifest") {
            Some(m) => m,
            None => return Err(DocError::InvalidEpub),
        };
        let sp = match root.find(tree, "spine") {
            Some(s) => s,
            None => return Err(DocError::InvalidEpub),
        };
        let md = match root.find(tree, "metadata") {
            Some(x) => x,
            None => return Err(DocError::InvalidEpub),
        };
        let base = self.root_base.as_str();
        let kids = &tree.nodes[m].children;
        let mut resources = Resources::new();
        let mut cover: Option<String> = None;
        let mut j: usize = 0;
        while j < kids.len()
            invariant
                arena_wf(tree@),
                m < tree@.len(),
                kids@ == tree@[m as int].children,
                j <= kids@.len(),
                resources@ == manifest_spec(tree@, kids@.take(j as int), base@),
                opt_view(cover) == manifest_cover(tree@, kids@.take(j as int)),
            decreases kids@.len() - j,
        {
            proof {
                assert(kids@.take(j as int + 1).drop_last() =~= kids@.take(j as int));
                assert(kids@.take(j as int + 1).last() == kids@[j as int]);
                assert(tree@[m as int].children[j as int] < tree@.len());
            }
            let item = &tree.nodes[kids[j]];
            if cover.is_none() {
                cover = cover_image_of(item);
            }
            let _ = insert_resource(&mut resources, item, base);
            j = j + 1;
        }
        assert(kids@.take(kids@.len() as int) =~= kids@);
        let kids = &tree.nodes[sp].children;
        let mut spine: Vec<SpineItem> = Vec::new();
        let mut j: usize = 0;
        assert(spine_view(spine@) =~= seq![]);
        while j < kids.len()
            invariant
                arena_wf(tree@),
                sp < tree@.len(),
                kids@ == tree@[sp as int].children,
                j <= kids@.len(),
                spine_view(spine@) == spine_spec(tree@, kids@.take(j as int)),
            decreases kids@.len() - j,
        {
            proof {
                assert(kids@.take(j as int + 1).drop_last() =~= kids@.take(j as int));
                assert(kids@.take(j as int + 1).last() == kids@[j as int]);
                assert(tree@[sp as int].children[j as int] < tree@.len());
            }
            let _ = insert_spine(&mut spine, &tree.nodes[kids[j]]);
            j = j + 1;
        }
        assert(kids@.take(kids@.len() as int) =~= kids@);
        let toc = tree.nodes[sp].get_attr("toc");
        let ppd = tree.nodes[sp].get_attr("page-progression-direction");
        let v3 = match &version {
            EpubVersion::Version3_0 => true,
            _ => false,
        };
        let (metadata, legacy_cover) = metadata_of(tree, md, v3);
        proof {
            lemma_entry_cover(meta_entries(tree@, tree@[md as int].children, v3), opt_view(cover));
            lemma_manifest_unique(tree@, tree@[m as int].children, base@);
        }
        let cover_id = match legacy_cover {
            Some(c) => Some(c),
            None => cover,
        };
        self.unique_identifier = unique_identifier_of(&metadata, &declared_uid);
        self.version = version;
        self.resources = resources;
        self.spine = spine;
        self.page_progression_direction = ppd;
        self.metadata = metadata;
        self.cover_id = cover_id;
        Ok(toc)
    }

    /// Reads the table of contents (a parsed NCX document): its title, and
    /// the navigation points under `navMap`, whose absence is an error that
    /// leaves the points as they were.
    pub fn read_toc(&mut self, tree: &XMLTree) -> (r: Result<(), DocError>)
        requires
            arena_wf(tree@),
            tree@.len() > 0,
        ensures
            final(self)@ == (DocModel { toc_title: toc_title_spec(tree@), toc: final(self)@.toc, ..old(self)@ }),
            match find_below(tree@, 0, "navMap"@) {
                Some(k) => r is Ok && navs_ok(tree@, final(self)@.toc, tree@[k as int].children, k + 1, old(self)@.root_base),
                None => r matches Err(DocError::XmlError(XMLError::AttrNotFound(_))) && final(self)@.toc == old(self)@.toc,
            },
    {
        proof {
            lemma_first_named_in_range(tree@, preorder_below(tree@, tree@[0].children, 0), "docTitle"@);
            lemma_first_named_in_range(tree@, preorder_below(tree@, tree@[0].children, 0), "navMap"@);
        }
        let root = tree.root();
        let title = match root.find(tree, "docTitle") {
            Some(k) => {
                let dt = &tree.nodes[k];
                if dt.children.len() > 0 {
                    proof {
                        assert(tree@[k as int].children[0] < tree@.len());
                    }
                    match &tree.nodes[dt.children[0]].text {
                        Some(t) => t.clone(),
                        None => String::new(),
                    }
                } else {
                    String::new()
                }
            },
            None => String::new(),
        };
        self.toc_title = title;
        let n = tree.nodes.len();
        match root.find(tree, "navMap") {
            Some(k) => {
                assert(k < n);
                self.toc = navpoints_below(tree, &tree.nodes[k].children, k + 1, self.root_base.as_str());
                Ok(())
            },
            None => Err(DocError::XmlError(XMLError::AttrNotFound("navMap".to_owned()))),
        }
    }

    /// Reads the table of contents of the manifest entry `id`.
    fn fill_toc(&mut self, id: &str) -> (r: Result<(), DocError>)
        ensures
            r is Err ==> final(self)@.toc == old(self)@.toc,
            match resource_index(old(self)@.resources, id@) {
                Some(i) => match package_entry_tree(old(self)@, old(self)@.resources[i].1) {
                    Some(t) => final(self)@ == (DocModel {
                        toc_title: toc_title_spec(t),
                        toc: final(self)@.toc,
                        ..old(self)@
                    }) && match find_below(t, 0, "navMap"@) {
                        Some(k) => r is Ok && navs_ok(t, final(self)@.toc, t[k as int].children, k + 1, old(self)@.root_base),
                        None => r is Err,
                    },
                    None => r is Err && final(self)@ == old(self)@,
                },
                None => r matches Err(DocError::InvalidEpub) && final(self)@ == old(self)@,
            },
    {
        let path = match self.resources.get(id) {
            Some(e) => e.0.clone(),
            None => return Err(DocError::InvalidEpub),
        };
        let bytes = match self.archive.get_entry(path.as_str()) {
            Ok(b) => b,
            Err(e) => return Err(DocError::ArchiveError(e)),
        };
        let tree = match XMLReader::parse(bytes.as_slice()) {
            Ok(t) => t,
            Err(e) => return Err(DocError::XmlError(e)),
        };
        self.read_toc(&tree)
    }

    /// Reads the package document at `root_file` and its table of contents.
    fn fill_resources(&mut self) -> (r: Result<(), DocError>)
        ensures
            final(self)@.contents == old(self)@.contents,
            final(self)@.listed == old(self)@.listed,
            final(self)@.current == old(self)@.current,
            final(self)@.extra_css == old(self)@.extra_css,
            final(self)@.root_base == old(self)@.root_base,
            final(self)@.root_file == old(self)@.root_file,
            match package_entry_tree(old(self)@, old(self)@.root_file) {
                Some(t) => if has_package_parts(t) {
                    &&& r is Ok
                    &&& final(self)@ == (DocModel {
                        toc: final(self)@.toc,
                        toc_title: final(self)@.toc_title,
                        ..package_spec(old(self)@, t)
                    })
                    &&& (spine_toc(t) is None || resource_index(final(self)@.resources, spine_toc(t)->0) is None)
                        ==> final(self)@.toc == old(self)@.toc && final(self)@.toc_title == old(self)@.toc_title
                } else {
                    r matches Err(DocError::InvalidEpub)
                },
                None => r is Err,
            },
            read_entry(old(self)@, old(self)@.root_file) is None ==> r matches Err(DocError::ArchiveError(_)),
            read_entry(old(self)@, old(self)@.root_file) is Some && parsed(read_entry(old(self)@, old(self)@.root_file)->0)
                is None ==> r matches Err(DocError::XmlError(_)),
            r is Ok ==> unique_ids(final(self)@.resources),
    {
        let bytes = match self.archive.get_entry(self.root_file.as_str()) {
            Ok(b) => b,
            Err(e) => return Err(DocError::ArchiveError(e)),
        };
        let tree = match XMLReader::parse(bytes.as_slice()) {
            Ok(t) => t,
            Err(e) => return Err(DocError::XmlError(e)),
        };
        let toc = match self.read_package(&tree) {
            Ok(toc) => toc,
            Err(e) => return Err(e),
        };
        if let Some(id) = toc {
            let _ = self.fill_toc(id.as_str());
        }
        proof {
            assert(package_spec(self@, tree@) == self@);
        }
        Ok(())
    }

    /// A publication over an empty archive, with nothing in it: for trying
    /// the navigation without a file.
    pub fn mock() -> (r: Result<EpubDoc, DocError>)
        ensures
            r matches Ok(d) ==> {
                &&& d@.current == 0
                &&& d@.spine == Seq::<SpineModel>::empty()
                &&& d@.resources == Seq::<ResourceModel>::empty()
                &&& d@.metadata == Seq::<MetadataModel>::empty()
                &&& d@.extra_css == Seq::<Seq<char>>::empty()
                &&& d@.unique_identifier is None
                &&& d@.cover_id is None
                &&& d@.toc == Seq::<NavPoint>::empty()
            },
    {
        let mut data: Vec<u8> = Vec::new();
        data.push(0x50);
        data.push(0x4b);
        data.push(0x05);
        data.push(0x06);
        let mut i: usize = 0;
        while i < 18
            invariant
                i <= 18,
            decreases 18 - i,
        {
            data.push(0);
            i = i + 1;
        }
        let archive = match EpubArchive::from_reader(data) {
            Ok(a) => a,
            Err(e) => return Err(DocError::ArchiveError(e)),
        };
        let doc = EpubDoc {
            archive,
            current: 0,
            version: EpubVersion::Version2_0,
            spine: Vec::new(),
            resources: Resources::new(),
            toc: Vec::new(),
            toc_title: String::new(),
            metadata: Vec::new(),
            root_base: String::new(),
            root_file: String::new(),
            extra_css: Vec::new(),
            unique_identifier: None,
            cover_id: None,
            page_progression_direction: None,
        };
        proof {
            assert(texts_view(doc.extra_css@) =~= Seq::<Seq<char>>::empty());
            assert(spine_view(doc.spine@) =~= Seq::<SpineModel>::empty());
            assert(metadata_view(doc.metadata@) =~= Seq::<MetadataModel>::empty());
            assert(doc.toc@ =~= Seq::<NavPoint>::empty());
        }
        Ok(doc)
    }

    /// Opens the publication whose archive bytes are `data`: finds the
    /// package document through `META-INF/container.xml` and reads it.
    pub fn from_reader(data: Vec<u8>) -> (r: Result<EpubDoc, DocError>)
        ensures
            r is Ok <==> opens(data@),
            zip_archive_of(data@) is None ==> r matches Err(DocError::ArchiveError(_)),
            r matches Ok(d) ==> {
                &&& zip_archive_of(data@) == Some((d@.contents, d@.listed))
                &&& d@.current == 0
                &&& d@.extra_css == Seq::<Seq<char>>::empty()
                &&& d@.root_base == parent_dir(d@.root_file)
                &&& package_entry_tree(d@, "META-INF/container.xml"@) is Some
                &&& root_file_spec(package_entry_tree(d@, "META-INF/container.xml"@)->0) == Some(d@.root_file)
                &&& package_entry_tree(d@, d@.root_file) is Some
                &&& has_package_parts(package_entry_tree(d@, d@.root_file)->0)
                &&& d@ == (DocModel {
                    toc: d@.toc,
                    toc_title: d@.toc_title,
                    ..package_spec(d@, package_entry_tree(d@, d@.root_file)->0)
                })
                &&& unique_ids(d@.resources)
                &&& ({
                    let t = package_entry_tree(d@, d@.root_file)->0;
                    (spine_toc(t) is None || resource_index(d@.resources, spine_toc(t)->0) is None) ==> d@.toc
                        == Seq::<NavPoint>::empty() && d@.toc_title == Seq::<char>::empty()
                })
            },
    {
        let mut archive = match EpubArchive::from_reader(data) {
            Ok(a) => a,
            Err(e) => return Err(DocError::ArchiveError(e)),
        };
        let container = match archive.get_container_file() {
            Ok(c) => c,
            Err(e) => return Err(DocError::ArchiveError(e)),
        };
        let root_file = match get_root_file(container.as_slice()) {
            Ok(p) => p,
            Err(e) => return Err(e),
        };
        let root_base = parent_path(root_file.as_str());
        let mut doc = EpubDoc {
            archive,
            current: 0,
            version: EpubVersion::Version2_0,
            spine: Vec::new(),
            resources: Resources::new(),
            toc: Vec::new(),
            toc_title: String::new(),
            metadata: Vec::new(),
            root_base,
            root_file,
            extra_css: Vec::new(),
            unique_identifier: None,
            cover_id: None,
            page_progression_direction: None,
        };
        proof {
            assert(texts_view(doc.extra_css@) =~= Seq::<Seq<char>>::empty());
        }
        match doc.fill_resources() {
            Ok(()) => Ok(doc),
            Err(e) => Err(e),
        }
    }
}

/// The bytes that the archive of a document gives for `path`.
pub open spec fn read_entry(d: DocModel, path: Seq<char>) -> Option<Seq<u8>> {
    entry_for(d.contents, d.listed, path)
}

/// The text of the entry at `path`, where it is UTF-8.
pub open spec fn read_text(d: DocModel, path: Seq<char>) -> Option<Seq<char>> {
    match read_entry(d, path) {
        Some(b) => if vstd::utf8::valid_utf8(b) {
            Some(vstd::utf8::decode_utf8(b))
        } else {
            None
        },
        None => None,
    }
}

/// The bytes and media type of the manifest entry `id`.
pub open spec fn resource_bytes(d: DocModel, id: Seq<char>) -> Option<(Seq<u8>, Seq<char>)> {
    match resource_index(d.resources, id) {
        Some(i) => match read_entry(d, d.resources[i].1) {
            Some(b) => Some((b, d.resources[i].2)),
            None => None,
        },
        None => None,
    }
}

/// The text and media type of the manifest entry `id`.
pub open spec fn resource_text(d: DocModel, id: Seq<char>) -> Option<(Seq<char>, Seq<char>)> {
    match resource_index(d.resources, id) {
        Some(i) => match read_text(d, d.resources[i].1) {
            Some(t) => Some((t, d.resources[i].2)),
            None => None,
        },
        None => None,
    }
}

/// The text of the release identifier: unique identifier, `@`, modification
/// date.
pub open spec fn release_identifier_spec(d: DocModel) -> Option<Seq<char>> {
    match (d.unique_identifier, mdata_index(d.metadata, "dcterms:modified"@)) {
        (Some(u), Some(i)) => Some(u + "@"@ + d.metadata[i].value),
        _ => None,
    }
}

/// The idref of the spine item under the cursor.
pub open spec fn current_id_spec(d: DocModel) -> Option<Seq<char>> {
    if 0 <= d.current < d.spine.len() {
        Some(d.spine[d.current].idref)
    } else {
        None
    }
}

/// The manifest entry of the spine item under the cursor.
pub open spec fn current_entry(d: DocModel) -> Option<ResourceModel> {
    match current_id_spec(d) {
        Some(id) => match resource_index(d.resources, id) {
            Some(i) => Some(d.resources[i]),
            None => None,
        },
        None => None,
    }
}

impl EpubDoc {
    /// The first metadata item with this property.
    pub fn mdata(&self, property: &str) -> (r: Option<&MetadataItem>)
        ensures
            match mdata_index(self@.metadata, property@) {
                Some(i) => r matches Some(m) && m@ == self@.metadata[i],
                None => r is None,
            },
    {
        let ghost m = metadata_view(self.metadata@);
        let mut i: usize = 0;
        while i < self.metadata.len()
            invariant
                i <= self.metadata@.len(),
                m == metadata_view(self.metadata@),
                m == self@.metadata,
                mdata_index(m.take(i as int), property@) is None,
            decreases self.metadata@.len() - i,
        {
            proof {
                assert(m.take(i as int + 1).drop_last() =~= m.take(i as int));
            }
            if str_eq(self.metadata[i].property.as_str(), property) {
                proof {
                    lemma_index_prefix_mdata(m, property@, i as int + 1);
                }
                return Some(&self.metadata[i]);
            }
            i = i + 1;
        }
        assert(m.take(self.metadata@.len() as int) =~= m);
        None
    }

    /// The id of the cover image: from a legacy `<meta name="cover">`, else
    /// from the manifest. It need not name a manifest entry.
    pub fn get_cover_id(&self) -> (r: Option<String>)
        ensures
            opt_view(r) == self@.cover_id,
    {
        copy_opt(&self.cover_id)
    }

    /// The bytes and media type of the cover image, through its manifest id.
    pub fn get_cover(&mut self) -> (r: Option<(Vec<u8>, String)>)
        ensures
            final(self)@ == old(self)@,
            match old(self)@.cover_id {
                Some(c) => match resource_bytes(old(self)@, c) {
                    Some(x) => r matches Some(y) && y.0@ == x.0 && y.1@ == x.1,
                    None => r is None,
                },
                None => r is None,
            },
    {
        match self.get_cover_id() {
            Some(id) => self.get_resource(id.as_str()),
            None => None,
        }
    }

    /// The release identifier: the unique identifier and the modification
    /// date (`dcterms:modified`), joined by `@`; none without either.
    pub fn get_release_identifier(&self) -> (r: Option<String>)
        ensures
            opt_view(r) == release_identifier_spec(self@),
    {
        match (&self.unique_identifier, self.mdata("dcterms:modified")) {
            (Some(u), Some(m)) => {
                let mut s = u.clone();
                s.append("@");
                s.append(m.value.as_str());
                Some(s)
            },
            _ => None,
        }
    }

    /// The bytes of the archive entry at `path` (see `EpubArchive::get_entry`).
    pub fn get_resource_by_path(&mut self, path: &str) -> (r: Option<Vec<u8>>)
        ensures
            final(self)@ == old(self)@,
            match read_entry(old(self)@, path@) {
                Some(b) => r matches Some(v) && v@ == b,
                None => r is None,
            },
    {
        match self.archive.get_entry(path) {
            Ok(b) => Some(b),
            Err(_) => None,
        }
    }

    /// The bytes and media type of the manifest entry `id`.
    pub fn get_resource(&mut self, id: &str) -> (r: Option<(Vec<u8>, String)>)
        ensures
            final(self)@ == old(self)@,
            match resource_bytes(old(self)@, id@) {
                Some(x) => r matches Some(y) && y.0@ == x.0 && y.1@ == x.1,
                None => r is None,
            },
    {
        let (path, mime) = match self.resources.get(id) {
            Some(e) => (e.0.clone(), e.1.clone()),
            None => return None,
        };
        match self.get_resource_by_path(path.as_str()) {
            Some(b) => Some((b, mime)),
            None => None,
        }
    }

    /// The text of the archive entry at `path`, which must be UTF-8.
    pub fn get_resource_str_by_path(&mut self, path: &str) -> (r: Option<String>)
        ensures
            final(self)@ == old(self)@,
            match read_text(old(self)@, path@) {
                Some(t) => r matches Some(v) && v@ == t,
                None => r is None,
            },
    {
        match self.archive.get_entry_as_str(path) {
            Ok(s) => Some(s),
            Err(_) => None,
        }
    }

    /// The text and media type of the manifest entry `id`.
    pub fn get_resource_str(&mut self, id: &str) -> (r: Option<(String, String)>)
        ensures
            final(self)@ == old(self)@,
            match resource_text(old(self)@, id@) {
                Some(x) => r matches Some(y) && y.0@ == x.0 && y.1@ == x.1,
                None => r is None,
            },
    {
        let (path, mime) = match self.resources.get(id) {
            Some(e) => (e.0.clone(), e.1.clone()),
            None => return None,
        };
        match self.get_resource_str_by_path(path.as_str()) {
            Some(s) => Some((s, mime)),
            None => None,
        }
    }

    /// The media type of the manifest entry `id`.
    pub fn get_resource_mime(&self, id: &str) -> (r: Option<String>)
        ensures
            match resource_index(self@.resources, id@) {
                Some(i) => r matches Some(m) && m@ == self@.resources[i].2,
                None => r is None,
            },
    {
        match self.resources.get(id) {
            Some(e) => Some(e.1.clone()),
            None => None,
        }
    }

    /// The index of the first manifest entry whose path is `path`.
    fn resource_index_by_path(&self, path: &str) -> (r: Option<usize>)
        ensures
            match r {
                Some(i) => path_index(self@.resources, path@) == Some(i as int) && i < self@.resources.len(),
                None => path_index(self@.resources, path@) is None,
            },
    {
        let ghost m = self@.resources;
        let mut i: usize = 0;
        while i < self.resources.len()
            invariant
                i <= m.len(),
                m == self@.resources,
                m == self.resources@,
                path_index(m.take(i as int), path@) is None,
            decreases m.len() - i,
        {
            proof {
                assert(m.take(i as int + 1).drop_last() =~= m.take(i as int));
            }
            let (_, p, _) = self.resources.entry(i);
            if str_eq(p.as_str(), path) {
                proof {
                    lemma_index_prefix_path(m, path@, i as int + 1);
                }
                return Some(i);
            }
            i = i + 1;
        }
        assert(m.take(m.len() as int) =~= m);
        None
    }

    /// The media type of the first manifest entry whose path is `path`.
    pub fn get_resource_mime_by_path(&self, path: &str) -> (r: Option<String>)
        ensures
            match path_index(self@.resources, path@) {
                Some(i) => r matches Some(m) && m@ == self@.resources[i].2,
                None => r is None,
            },
    {
        match self.resource_index_by_path(path) {
            Some(i) => {
                let (_, _, mime) = self.resources.entry(i);
                Some(mime.clone())
            },
            None => None,
        }
    }

    /// The idref of the spine item under the cursor.
    pub fn get_current_id(&self) -> (r: Option<String>)
        ensures
            opt_view(r) == current_id_spec(self@),
    {
        if self.current < self.spine.len() {
            Some(self.spine[self.current].idref.clone())
        } else {
            None
        }
    }

    /// The archive path of the document under the cursor.
    pub fn get_current_path(&self) -> (r: Option<String>)
        ensures
            match current_entry(self@) {
                Some(e) => r matches Some(p) && p@ == e.1,
                None => r is None,
            },
    {
        match self.get_current_id() {
            Some(id) => match self.resources.get(id.as_str()) {
                Some(e) => Some(e.0.clone()),
                None => None,
            },
            None => None,
        }
    }

    /// The media type of the document under the cursor.
    pub fn get_current_mime(&self) -> (r: Option<String>)
        ensures
            match current_entry(self@) {
                Some(e) => r matches Some(m) && m@ == e.2,
                None => r is None,
            },
    {
        match self.get_current_id() {
            Some(id) => self.get_resource_mime(id.as_str()),
            None => None,
        }
    }

    /// The bytes and media type of the document under the cursor.
    pub fn get_current(&mut self) -> (r: Option<(Vec<u8>, String)>)
        ensures
            final(self)@ == old(self)@,
            match current_id_spec(old(self)@) {
                Some(id) => match resource_bytes(old(self)@, id) {
                    Some(x) => r matches Some(y) && y.0@ == x.0 && y.1@ == x.1,
                    None => r is None,
                },
                None => r is None,
            },
    {
        match self.get_current_id() {
            Some(id) => self.get_resource(id.as_str()),
            None => None,
        }
    }

    /// The text and media type of the document under the cursor.
    pub fn get_current_str(&mut self) -> (r: Option<(String, String)>)
        ensures
            final(self)@ == old(self)@,
            match current_id_spec(old(self)@) {
                Some(id) => match resource_text(old(self)@, id) {
                    Some(x) => r matches Some(y) && y.0@ == x.0 && y.1@ == x.1,
                    None => r is None,
                },
                None => r is None,
            },
    {
        match self.get_current_id() {
            Some(id) => self.get_resource_str(id.as_str()),
            None => None,
        }
    }

    /// The document under the cursor with its links relinked (see
    /// `relink_attribute`) and the extra CSS added before the end of `head`;
    /// `InvalidEpub` where it cannot be found.
    pub fn get_current_with_epub_uris(&mut self) -> (r: Result<Vec<u8>, DocError>)
        ensures
            final(self)@ == old(self)@,
            match current_entry(old(self)@) {
                Some(e) => match read_entry(old(self)@, e.1) {
                    Some(b) => {
                        &&& xml_read(b, parser_entities()).1 ==> (r matches Err(DocError::XmlError(XMLError::Reader(_))))
                        &&& r matches Ok(out) ==> out@ == relinked(e.1, b, old(self)@.extra_css)
                        &&& r matches Err(x) ==> x is XmlError
                    },
                    None => r matches Err(DocError::InvalidEpub),
                },
                None => r matches Err(DocError::InvalidEpub),
            },
    {
        let path = match self.get_current_path() {
            Some(p) => p,
            None => return Err(DocError::InvalidEpub),
        };
        let current = match self.get_current() {
            Some((bytes, _)) => bytes,
            None => return Err(DocError::InvalidEpub),
        };
        let relink = |element: &str, attr: &str, value: &str| -> (r: String)
            ensures
                r@ == relink_spec(path@, element@, attr@, value@),
            { relink_attribute(path.as_str(), element, attr, value) };
        let r = replace_attrs(current.as_slice(), relink, self.extra_css.as_slice());
        proof {
            if r is Ok {
                let evm = xml_events(current@, parser_entities());
                let values = choose|values: Seq<Seq<Seq<char>>>|
                    #[trigger] substituted_model(evm, values, relink) && r->Ok_0@ == xml_emitted(
                        plan_writes(
                            xml_read(current@, parser_entities()).0,
                            rewrite_ops(evm, values, texts_view(self.extra_css@)),
                        ),
                        true,
                    );
                lemma_relink_values(path@, evm, values, relink);
            }
        }
        match r {
            Ok(b) => Ok(b),
            Err(e) => Err(DocError::XmlError(e)),
        }
    }

    /// Moves the cursor to the next spine item; `false`, without moving, at
    /// the last one.
    pub fn go_next(&mut self) -> (r: bool)
        ensures
            r == (old(self)@.current + 1 < old(self)@.spine.len()),
            final(self)@ == (DocModel { current: next_cursor(old(self)@.current, old(self)@.spine.len() as int), ..old(self)@ }),
    {
        if self.spine.len() == 0 || self.current >= self.spine.len() - 1 {
            false
        } else {
            self.current = self.current + 1;
            true
        }
    }

    /// Moves the cursor to the previous spine item; `false`, without moving,
    /// at the first one.
    pub fn go_prev(&mut self) -> (r: bool)
        ensures
            r == (old(self)@.current >= 1),
            final(self)@ == (DocModel { current: if r { old(self)@.current - 1 } else { old(self)@.current }, ..old(self)@ }),
    {
        if self.current < 1 {
            false
        } else {
            self.current = self.current - 1;
            true
        }
    }

    /// The number of spine items.
    pub fn get_num_pages(&self) -> (r: usize)
        ensures
            r == self@.spine.len(),
    {
        self.spine.len()
    }

    /// The cursor: an index into the spine, from 0.
    pub fn get_current_page(&self) -> (r: usize)
        ensures
            r == self@.current,
    {
        self.current
    }

    /// Moves the cursor to spine item `n`; `false`, without moving, where
    /// there is none.
    pub fn set_current_page(&mut self, n: usize) -> (r: bool)
        ensures
            r == (n < old(self)@.spine.len()),
            final(self)@ == (DocModel { current: if r { n as int } else { old(self)@.current }, ..old(self)@ }),
    {
        if n >= self.spine.len() {
            false
        } else {
            self.current = n;
            true
        }
    }

    /// Adds style text for every later relinked document.
    pub fn add_extra_css(&mut self, css: &str)
        ensures
            final(self)@ == (DocModel { extra_css: old(self)@.extra_css.push(css@), ..old(self)@ }),
    {
        self.extra_css.push(css.to_owned());
        assert(texts_view(self.extra_css@) =~= texts_view(old(self).extra_css@).push(css@));
    }

    /// The spine index of the document at `uri`: through the first manifest
    /// entry with that path.
    pub fn resource_uri_to_chapter(&self, uri: &str) -> (r: Option<usize>)
        ensures
            match path_index(self@.resources, uri@) {
                Some(i) => r == (match chapter_of(self@.spine, self@.resources[i].0) {
                    Some(c) => Some(c as usize),
                    None => None,
                }),
                None => r is None,
            },
    {
        match self.resource_index_by_path(uri) {
            Some(i) => {
                let (id, _, _) = self.resources.entry(i);
                self.resource_id_to_chapter(id.as_str())
            },
            None => None,
        }
    }

    /// The index of the first spine item whose idref is `id`.
    pub fn resource_id_to_chapter(&self, id: &str) -> (r: Option<usize>)
        ensures
            r == (match chapter_of(self@.spine, id@) {
                Some(c) => Some(c as usize),
                None => None,
            }),
    {
        let ghost sp = self@.spine;
        let mut i: usize = 0;
        while i < self.spine.len()
            invariant
                i <= self.spine@.len(),
                sp == self@.spine,
                sp == spine_view(self.spine@),
                chapter_of(sp.take(i as int), id@) is None,
            decreases self.spine@.len() - i,
        {
            proof {
                assert(sp.take(i as int + 1).drop_last() =~= sp.take(i as int));
            }
            if str_eq(self.spine[i].idref.as_str(), id) {
                proof {
                    lemma_index_prefix_chapter(sp, id@, i as int + 1);
                }
                return Some(i);
            }
            i = i + 1;
        }
        assert(sp.take(self.spine@.len() as int) =~= sp);
        None
    }
}

proof fn lemma_index_prefix_mdata(m: Seq<MetadataModel>, p: Seq<char>, k: int)
    requires
        0 < k <= m.len(),
        mdata_index(m.take(k), p) == Some(k - 1),
    ensures
        mdata_index(m, p) == Some(k - 1),
    decreases m.len() - k,
{
    if k < m.len() {
        assert(m.drop_last().take(k) =~= m.take(k));
        lemma_index_prefix_mdata(m.drop_last(), p, k);
    } else {
        assert(m.take(k) =~= m);
    }
}

proof fn lemma_index_prefix_path(m: Seq<ResourceModel>, p: Seq<char>, k: int)
    requires
        0 < k <= m.len(),
        path_index(m.take(k), p) == Some(k - 1),
    ensures
        path_index(m, p) == Some(k - 1),
    decreases m.len() - k,
{
    if k < m.len() {
        assert(m.drop_last().take(k) =~= m.take(k));
        lemma_index_prefix_path(m.drop_last(), p, k);
    } else {
        assert(m.take(k) =~= m);
    }
}

proof fn lemma_index_prefix_chapter(s: Seq<SpineModel>, id: Seq<char>, k: int)
    requires
        0 < k <= s.len(),
        chapter_of(s.take(k), id) == Some(k - 1),
    ensures
        chapter_of(s, id) == Some(k - 1),
    decreases s.len() - k,
{
    if k < s.len() {
        assert(s.drop_last().take(k) =~= s.take(k));
        lemma_index_prefix_chapter(s.drop_last(), id, k);
    } else {
        assert(s.take(k) =~= s);
    }
}

/// The cursor after one move forward over a spine of `len` items.
pub open spec fn next_cursor(current: int, len: int) -> int {
    if current + 1 < len {
        current + 1
    } else {
        current
    }
}

/// The cursor after `k` moves forward from the first item.
pub open spec fn cursor_after(len: int, k: nat) -> int
    decreases k,
{
    if k == 0 {
        0
    } else {
        next_cursor(cursor_after(len, (k - 1) as nat), len)
    }
}

/// Moving forward from the first spine item visits every item once, in
/// order; at the last item the move fails and the cursor stays.
pub proof fn lemma_advance_visits_spine(len: int, k: nat)
    requires
        len >= 1,
    ensures
        k < len ==> cursor_after(len, k) == k,
        k >= len ==> cursor_after(len, k) == len - 1,
        next_cursor(len - 1, len) == len - 1,
    decreases k,
{
    if k > 0 {
        lemma_advance_visits_spine(len, (k - 1) as nat);
    }
}

/// Where no two spine items share an idref, the chapter of the idref of
/// item `i` is `i`.
pub proof fn lemma_spine_chapters(spine: Seq<SpineModel>, i: int)
    requires
        forall|a: int, b: int| 0 <= a < b < spine.len() ==> (#[trigger] spine[a]).idref != (#[trigger] spine[b]).idref,
        0 <= i < spine.len(),
    ensures
        chapter_of(spine, spine[i].idref) == Some(i),
    decreases spine.len(),
{
    if i < spine.len() - 1 {
        let d = spine.drop_last();
        assert forall|a: int, b: int| 0 <= a < b < d.len() implies (#[trigger] d[a]).idref != (#[trigger] d[b]).idref by {
            assert(d[a] == spine[a] && d[b] == spine[b]);
        }
        assert(d[i] == spine[i]);
        lemma_spine_chapters(d, i);
    } else {
        lemma_chapter_absent(spine.drop_last(), spine[i].idref);
    }
}

proof fn lemma_chapter_absent(spine: Seq<SpineModel>, id: Seq<char>)
    requires
        forall|a: int| 0 <= a < spine.len() ==> (#[trigger] spine[a]).idref != id,
    ensures
        chapter_of(spine, id) is None,
    decreases spine.len(),
{
    if spine.len() > 0 {
        let d = spine.drop_last();
        assert forall|a: int| 0 <= a < d.len() implies (#[trigger] d[a]).idref != id by {
            assert(d[a] == spine[a]);
        }
        lemma_chapter_absent(d, id);
        assert(spine[spine.len() - 1].idref != id);
    }
}

proof fn lemma_resource_insert_members(m: Seq<ResourceModel>, e: ResourceModel)
    ensures
        forall|i: int| 0 <= i < resource_insert(m, e).len() ==> (#[trigger] resource_insert(m, e)[i] == e || m.contains(resource_insert(m, e)[i])),
{
    lemma_resource_index(m, e.0);
    assert forall|i: int| 0 <= i < resource_insert(m, e).len() implies (#[trigger] resource_insert(m, e)[i] == e || m.contains(resource_insert(m, e)[i])) by {
        if resource_insert(m, e)[i] != e {
            assert(resource_insert(m, e)[i] == m[i]);
        }
    }
}

/// Every manifest entry comes from one `<item>`: id and media type are its
/// attributes, the path its `href` resolved against `base`, with forward
/// slashes only. Where the items' `id`, `href` and `media-type` are not
/// empty, neither is any part of an entry.
pub proof fn lemma_manifest_entries(nodes: Seq<NodeModel>, kids: Seq<usize>, base: Seq<char>)
    ensures
        forall|i: int|
            0 <= i < manifest_spec(nodes, kids, base).len() ==> exists|k: int|
                0 <= k < kids.len() && manifest_entry(nodes[kids[k] as int], base) == Some(
                    #[trigger] manifest_spec(nodes, kids, base)[i],
                ),
        forall|i: int|
            0 <= i < manifest_spec(nodes, kids, base).len() ==> !(#[trigger] manifest_spec(nodes, kids, base)[i]).1.contains(
                '\\',
            ),
        (forall|k: int, name: Seq<char>|
            0 <= k < kids.len() && (#[trigger] attr_lookup(nodes[kids[k] as int].attrs, name)) is Some ==> attr_lookup(
                nodes[kids[k] as int].attrs,
                name,
            )->0.len() > 0) ==> forall|i: int|
            0 <= i < manifest_spec(nodes, kids, base).len() ==> {
                let e = #[trigger] manifest_spec(nodes, kids, base)[i];
                e.0.len() > 0 && e.1.len() > 0 && e.2.len() > 0
            },
    decreases kids.len(),
{
    if kids.len() > 0 {
        let d = kids.drop_last();
        lemma_manifest_entries(nodes, d, base);
        let m = manifest_spec(nodes, d, base);
        let n = manifest_spec(nodes, kids, base);
        let last = kids.len() - 1;
        assert(kids[last] == kids.last());
        match manifest_entry(nodes[kids.last() as int], base) {
            Some(e) => {
                lemma_resource_insert_members(m, e);
                assert forall|i: int| 0 <= i < n.len() implies exists|k: int|
                    0 <= k < kids.len() && manifest_entry(nodes[kids[k] as int], base) == Some(#[trigger] n[i]) by {
                    if n[i] != e {
                        let j = choose|j: int| 0 <= j < m.len() && m[j] == n[i];
                        let k = choose|k: int| 0 <= k < d.len() && manifest_entry(nodes[d[k] as int], base) == Some(m[j]);
                        assert(kids[k] == d[k]);
                    }
                }
            },
            None => {
                assert forall|i: int| 0 <= i < n.len() implies exists|k: int|
                    0 <= k < kids.len() && manifest_entry(nodes[kids[k] as int], base) == Some(#[trigger] n[i]) by {
                    let k = choose|k: int| 0 <= k < d.len() && manifest_entry(nodes[d[k] as int], base) == Some(m[i]);
                    assert(kids[k] == d[k]);
                }
            },
        }
    }
    let n = manifest_spec(nodes, kids, base);
    assert forall|i: int| 0 <= i < n.len() implies !(#[trigger] n[i]).1.contains('\\') by {
        let k = choose|k: int| 0 <= k < kids.len() && manifest_entry(nodes[kids[k] as int], base) == Some(n[i]);
        let item = nodes[kids[k] as int];
        let href = attr_lookup(item.attrs, "href"@)->0;
        let j = join_path(base, href);
        if n[i].1.contains('\\') {
            let q = choose|q: int| 0 <= q < n[i].1.len() && n[i].1[q] == '\\';
            assert(n[i].1[q] == (if j[q] == '\\' { '/' } else { j[q] }));
        }
    }
    if forall|k: int, name: Seq<char>|
        0 <= k < kids.len() && (#[trigger] attr_lookup(nodes[kids[k] as int].attrs, name)) is Some ==> attr_lookup(
            nodes[kids[k] as int].attrs,
            name,
        )->0.len() > 0 {
        assert forall|i: int| 0 <= i < n.len() implies {
            let e = #[trigger] n[i];
            e.0.len() > 0 && e.1.len() > 0 && e.2.len() > 0
        } by {
            let k = choose|k: int| 0 <= k < kids.len() && manifest_entry(nodes[kids[k] as int], base) == Some(n[i]);
            let item = nodes[kids[k] as int];
            let href = attr_lookup(item.attrs, "href"@)->0;
            assert(attr_lookup(item.attrs, "id"@) is Some);
            assert(attr_lookup(item.attrs, "href"@) is Some);
            assert(attr_lookup(item.attrs, "media-type"@) is Some);
            assert(href.len() > 0);
            let j = join_path(base, href);
            assert(j.len() >= href.len());
        }
    }
}

/// Play orders that do not decrease from one point to the next.
pub open spec fn play_sorted(v: Seq<NavPoint>) -> bool {
    forall|i: int| 0 <= i < v.len() - 1 ==> (#[trigger] v[i]).play_order <= v[i + 1].play_order
}

/// Play orders sorted at this level and, down to `depth` more levels, below.
pub open spec fn toc_sorted(v: Seq<NavPoint>, depth: nat) -> bool
    decreases depth,
{
    &&& play_sorted(v)
    &&& depth > 0 ==> forall|i: int| 0 <= i < v.len() ==> toc_sorted((#[trigger] v[i]).children@, (depth - 1) as nat)
}

pub open spec fn pairs_sorted(s: Seq<(usize, usize)>) -> bool {
    forall|i: int, j: int| 0 <= i < j < s.len() ==> (#[trigger] s[i]).0 <= (#[trigger] s[j]).0
}

proof fn lemma_insert_pair_sorted(s: Seq<(usize, usize)>, x: (usize, usize))
    requires
        pairs_sorted(s),
    ensures
        pairs_sorted(insert_pair(s, x)),
        forall|i: int| 0 <= i < insert_pair(s, x).len() ==> (#[trigger] insert_pair(s, x)[i]).0 <= x.0 || s.len() > 0 && insert_pair(s, x)[i].0 <= s.last().0,
    decreases s.len(),
{
    if s.len() > 0 && s.last().0 > x.0 {
        let d = s.drop_last();
        assert(pairs_sorted(d)) by {
            assert forall|i: int, j: int| 0 <= i < j < d.len() implies (#[trigger] d[i]).0 <= (#[trigger] d[j]).0 by {
                assert(d[i] == s[i] && d[j] == s[j]);
            }
        }
        lemma_insert_pair_sorted(d, x);
        let t = insert_pair(d, x);
        assert forall|i: int| 0 <= i < t.len() implies (#[trigger] t[i]).0 <= s.last().0 by {
            if t[i].0 > x.0 {
                assert(d.len() > 0 && t[i].0 <= d.last().0);
                assert(d.last() == s[s.len() - 2]);
            }
        }
    } else if s.len() > 0 {
        assert forall|i: int| 0 <= i < s.len() implies (#[trigger] s[i]).0 <= s.last().0 by {
            if i < s.len() - 1 {
                assert(s[i].0 <= s[s.len() - 1].0);
            }
        }
    }
}

proof fn lemma_sort_pairs_sorted(s: Seq<(usize, usize)>)
    ensures
        pairs_sorted(sort_pairs(s)),
    decreases s.len(),
{
    if s.len() > 0 {
        lemma_sort_pairs_sorted(s.drop_last());
        lemma_insert_pair_sorted(sort_pairs(s.drop_last()), s.last());
    }
}

/// The navigation points that a table of contents gives are ordered by play
/// order at every level.
pub proof fn lemma_toc_sorted(nodes: Seq<NodeModel>, v: Seq<NavPoint>, kids: Seq<usize>, lo: int, base: Seq<char>, depth: nat)
    requires
        navs_ok(nodes, v, kids, lo, base),
    ensures
        toc_sorted(v, depth),
    decreases depth,
{
    let p = sort_pairs(nav_pairs(nodes, kids, lo, base));
    lemma_sort_pairs_sorted(nav_pairs(nodes, kids, lo, base));
    lemma_sort_pairs_members(nav_pairs(nodes, kids, lo, base));
    lemma_nav_pairs_members(nodes, kids, lo, base);
    assert forall|i: int| 0 <= i < v.len() implies (#[trigger] v[i]).play_order == p[i].0 by {
        assert(nav_ok(nodes, v[i], p[i].1 as int, base));
        let q = nav_pairs(nodes, kids, lo, base);
        assert(q.contains(p[i]));
        let m = choose|m: int| 0 <= m < q.len() && q[m] == p[i];
        assert(q[m].0 == (nav_fields(nodes, q[m].1 as int, base)->0).0);
    }
    assert forall|i: int| 0 <= i < v.len() - 1 implies (#[trigger] v[i]).play_order <= v[i + 1].play_order by {
        assert(v[i + 1].play_order == p[i + 1].0);
        assert(p[i].0 <= p[i + 1].0);
    }
    if depth > 0 {
        assert forall|i: int| 0 <= i < v.len() implies toc_sorted((#[trigger] v[i]).children@, (depth - 1) as nat) by {
            assert(nav_ok(nodes, v[i], p[i].1 as int, base));
            let c = p[i].1 as int;
            lemma_toc_sorted(nodes, v[i].children@, nodes[c].children, c + 1, base, (depth - 1) as nat);
        }
    }
}

} // verus!
