use epub::doc::{
    build_epub_uri, convert_path_seps, get_root_file, parent_path, parse_usize, relink_attribute,
    resolve_path, DocError,
};
use epub::xmlutils::{
    decode_content, eq_ignore_ascii_case, replace_attrs, rewrite_plan, style_block, substitute_values,
    ReadEvent, WriteOp, XMLError, XMLReader, XMLTree, XmlAttr, QualName,
};

fn parse(s: &str) -> XMLTree {
    XMLReader::parse(s.as_bytes()).ok().unwrap()
}

fn local(tree: &XMLTree, i: usize) -> &str {
    tree.nodes[i].name.local_name.as_str()
}

#[test]
fn parse_builds_tree_in_document_order() {
    let tree = parse("<a x=\"1\"><b>t1</b><c><d y=\"2\"/></c><b>t2</b></a>");
    assert_eq!(5, tree.nodes.len());
    assert_eq!("a", local(&tree, 0));
    assert_eq!(vec![1, 2, 4], tree.nodes[0].children);
    assert_eq!(vec![3], tree.nodes[2].children);
    assert_eq!(Some(2), tree.nodes[3].parent);
    assert_eq!(None, tree.nodes[0].parent);
    assert_eq!(Some("t1".to_string()), tree.nodes[1].text);
    assert_eq!(Some("1".to_string()), tree.root().get_attr("x"));
    assert_eq!(None, tree.root().get_attr("y"));
}

#[test]
fn find_is_depth_first_pre_order() {
    let tree = parse("<r><a><x id=\"deep\"/></a><x id=\"shallow\"/></r>");
    let found = tree.root().find(&tree, "x").unwrap();
    assert_eq!(Some("deep".to_string()), tree.nodes[found].get_attr("id"));
    assert_eq!(None, tree.root().find(&tree, "r"));
    assert_eq!(None, tree.root().find(&tree, "zzz"));
    let a = tree.root().find(&tree, "a").unwrap();
    assert_eq!(Some(2), tree.nodes[a].find(&tree, "x"));
}

#[test]
fn get_attr_ignores_namespace() {
    let tree = parse("<r xmlns:opf=\"http://www.idpf.org/2007/opf\" opf:role=\"aut\" role=\"other\"/>");
    assert_eq!(Some("aut".to_string()), tree.root().get_attr("role"));
    let attr = &tree.nodes[0].attrs[0];
    assert_eq!(Some("http://www.idpf.org/2007/opf".to_string()), attr.name.namespace);
}

#[test]
fn last_text_event_wins() {
    let tree = parse("<a>one<![CDATA[two]]>three<b/>four</a>");
    assert_eq!(Some("four".to_string()), tree.nodes[0].text);
    assert_eq!(Some("two".to_string()), tree.nodes[0].cdata);
}

#[test]
fn entities_are_resolved() {
    let tree = parse("<a>&copy;&reg;&amp;&nbsp;x</a>");
    assert_eq!(Some("\u{a9}\u{ae}& x".to_string()), tree.nodes[0].text);
}

#[test]
fn short_input_has_no_content() {
    assert!(matches!(XMLReader::parse(b"<a>"), Err(XMLError::NoContent)));
    assert!(matches!(XMLReader::parse(b""), Err(XMLError::NoContent)));
    assert!(matches!(decode_content(b"ab"), Err(XMLError::NoContent)));
}

#[test]
fn input_without_elements_fails() {
    assert!(matches!(XMLReader::parse(b"just some text"), Err(XMLError::NoElements)));
    assert!(matches!(XMLReader::parse(b"<?xml version=\"1.0\"?>"), Err(XMLError::NoElements)));
}

#[test]
fn malformed_input_is_a_reader_error() {
    assert!(matches!(
        XMLReader::parse(b"<a><b>ok</b><c>&unknown;</c></a>"),
        Err(XMLError::Reader(_))
    ));
    assert!(matches!(XMLReader::parse(b"<a>&foo;</a>"), Err(XMLError::Reader(_))));
    assert!(matches!(XMLReader::parse(b"<a><b></a>"), Err(XMLError::Reader(_))));
}

fn utf16(s: &str, big_endian: bool) -> Vec<u8> {
    let mut out = if big_endian { vec![0xfe, 0xff] } else { vec![0xff, 0xfe] };
    for u in s.encode_utf16() {
        if big_endian {
            out.extend_from_slice(&u.to_be_bytes());
        } else {
            out.extend_from_slice(&u.to_le_bytes());
        }
    }
    out
}

fn shape(tree: &XMLTree) -> Vec<(String, Option<String>, Vec<usize>)> {
    tree.nodes
        .iter()
        .map(|n| (n.name.local_name.clone(), n.text.clone(), n.children.clone()))
        .collect()
}

#[test]
fn utf16_documents_parse_like_utf8() {
    let doc = "<package version=\"3.0\"><title>Todo es m\u{ed}o \u{1f600}</title><x a=\"\u{263a}\"/></package>";
    let plain = parse(doc);
    let be = XMLReader::parse(&utf16(doc, true)).ok().unwrap();
    let le = XMLReader::parse(&utf16(doc, false)).ok().unwrap();
    let mut bom8 = vec![0xef, 0xbb, 0xbf];
    bom8.extend_from_slice(doc.as_bytes());
    let with_bom = XMLReader::parse(&bom8).ok().unwrap();
    assert_eq!(shape(&plain), shape(&be));
    assert_eq!(shape(&plain), shape(&le));
    assert_eq!(shape(&plain), shape(&with_bom));
    assert_eq!(Some("\u{263a}".to_string()), be.nodes[2].get_attr("a"));
    assert_eq!(doc.as_bytes().to_vec(), decode_content(&utf16(doc, true)).ok().unwrap());
    assert_eq!(doc.as_bytes().to_vec(), decode_content(&bom8).ok().unwrap());
}

fn relinked(doc: &str, path: &str, css: &[String]) -> String {
    let p = path.to_string();
    let out = replace_attrs(
        doc.as_bytes(),
        |e: &str, a: &str, v: &str| relink_attribute(&p, e, a, v),
        css,
    )
    .ok()
    .unwrap();
    String::from_utf8(out).unwrap()
}

#[test]
fn relinking_rewrites_known_links_only() {
    let doc = "<html><head><link href=\"../Styles/s.css\"/></head><body><img src=\"../Images/portada.png\"/><a href=\"http://example.org\">x</a><p class=\"../keep\">y</p></body></html>";
    let text = relinked(doc, "OEBPS/Text/c.xhtml", &[]);
    assert!(text.contains("\"epub://OEBPS/Images/portada.png\""));
    assert!(text.contains("\"epub://OEBPS/Styles/s.css\""));
    assert!(text.contains("\"http://example.org\""));
    assert!(text.contains("\"../keep\""));
    assert!(!text.contains("<style>"));
}

#[test]
fn extra_css_goes_before_end_of_head() {
    let doc = "<html><HEAD><title>t</title></HEAD><body/></html>";
    let css = vec!["body{color:red}".to_string(), "p{margin:0}".to_string()];
    let text = relinked(doc, "c.xhtml", &css);
    let style = text.find("<style>").unwrap();
    let end_head = text.find("</HEAD>").unwrap();
    assert!(style < end_head);
    assert!(text.contains("<![CDATA[*/ body{color:red}p{margin:0} /*]]>"));
    assert_eq!(1, text.matches("body{color:red}").count());
}

#[test]
fn identity_substitution_keeps_attributes() {
    let doc = "<r xmlns:o=\"urn:o\"><e a=\"1\" o:b=\"two words\"/><f c=\"&amp;\"/></r>";
    let out = replace_attrs(doc.as_bytes(), |_e: &str, _a: &str, v: &str| v.to_string(), &[])
        .ok()
        .unwrap();
    let before = XMLReader::parse(doc.as_bytes()).ok().unwrap();
    let after = XMLReader::parse(&out).ok().unwrap();
    assert_eq!(before.nodes.len(), after.nodes.len());
    for (x, y) in before.nodes.iter().zip(after.nodes.iter()) {
        assert_eq!(x.name.local_name, y.name.local_name);
        assert_eq!(x.name.namespace, y.name.namespace);
        assert_eq!(x.attrs.len(), y.attrs.len());
        for (a, b) in x.attrs.iter().zip(y.attrs.iter()) {
            assert_eq!(a.name.local_name, b.name.local_name);
            assert_eq!(a.name.namespace, b.name.namespace);
            assert_eq!(a.value, b.value);
        }
    }
}

#[test]
fn replace_attrs_reports_reader_errors() {
    assert!(matches!(
        replace_attrs(b"<a><b></a>", |_e: &str, _a: &str, v: &str| v.to_string(), &[]),
        Err(XMLError::Reader(_))
    ));
}

fn qn(s: &str) -> QualName {
    QualName { local_name: s.to_string(), namespace: None }
}

#[test]
fn plan_substitutes_and_injects() {
    let events = vec![
        ReadEvent::StartElement {
            name: qn("img"),
            attributes: vec![XmlAttr { name: qn("src"), value: "a.png".to_string() }],
        },
        ReadEvent::EndElement { name: qn("img") },
        ReadEvent::Characters("x".to_string()),
        ReadEvent::EndElement { name: qn("Head") },
    ];
    let values = substitute_values(&events, &|e: &str, a: &str, v: &str| format!("{}.{}={}", e, a, v));
    assert_eq!(vec!["img.src=a.png".to_string()], values[0]);
    assert!(values[1].is_empty());
    let css = vec!["b{}".to_string()];
    let ops = rewrite_plan(&events, values, &css);
    assert_eq!(5, ops.len());
    assert!(matches!(&ops[0], WriteOp::Start(0, v) if v == &vec!["img.src=a.png".to_string()]));
    assert!(matches!(&ops[1], WriteOp::Copy(1)));
    assert!(matches!(&ops[2], WriteOp::Copy(2)));
    assert!(matches!(&ops[3], WriteOp::Style(s) if s == "*/ b{} /*"));
    assert!(matches!(&ops[4], WriteOp::Copy(3)));
    assert_eq!("*/  /*", style_block(&[]));
}

#[test]
fn epub_uris() {
    assert_eq!(
        "epub://OEBPS/Images/portada.png",
        build_epub_uri("OEBPS/Text/titlepage.xhtml", "../Images/portada.png")
    );
    assert_eq!("http://example.org", build_epub_uri("OEBPS/Text/a.xhtml", "http://example.org"));
    assert_eq!("epub://OEBPS/Text/b.xhtml", build_epub_uri("OEBPS/Text/a.xhtml", "./b.xhtml"));
    assert_eq!("epub://x.png", build_epub_uri("a.xhtml", "../../x.png"));
    assert_eq!("epub://OEBPS/img/x.png", build_epub_uri("OEBPS/Text/a.xhtml", "/../img//x.png"));
    assert_eq!("epub://OEBPS/Images/p.png", build_epub_uri("OEBPS\\Text\\a.xhtml", "..\\Images\\p.png"));
    assert_eq!("epub://", build_epub_uri("x", "\\"));
    assert_eq!(
        "epub://OEBPS/Text/b.xhtml",
        relink_attribute("OEBPS/Text/a.xhtml", "a", "href", "b.xhtml")
    );
    assert_eq!("b.xhtml", relink_attribute("OEBPS/Text/a.xhtml", "a", "src", "b.xhtml"));
    assert_eq!(
        "epub://OEBPS/p.png",
        relink_attribute("OEBPS/Text/a.xhtml", "image", "href", "../p.png")
    );
}

#[test]
fn paths_of_the_package() {
    assert_eq!("OEBPS/Text/a.xhtml", resolve_path("OEBPS", "Text/a.xhtml"));
    assert_eq!("OEBPS/Text/a.xhtml", resolve_path("OEBPS/", "Text\\a.xhtml"));
    assert_eq!("a.xhtml", resolve_path("", "a.xhtml"));
    assert_eq!("/abs.xhtml", resolve_path("OEBPS", "/abs.xhtml"));
    assert_eq!("a/b/c", convert_path_seps("a\\b\\c"));
    assert_eq!("OEBPS", parent_path("OEBPS/content.opf"));
    assert_eq!("", parent_path("content.opf"));
    assert_eq!("/", parent_path("/content.opf"));
    assert_eq!("a/b", parent_path("a/b/c.opf"));
}

#[test]
fn decimal_numbers() {
    assert_eq!(Some(12), parse_usize("12"));
    assert_eq!(Some(7), parse_usize("+7"));
    assert_eq!(None, parse_usize(""));
    assert_eq!(None, parse_usize("+"));
    assert_eq!(None, parse_usize("-1"));
    assert_eq!(None, parse_usize("1a"));
    assert_eq!(Some(usize::MAX), parse_usize(&usize::MAX.to_string()));
    assert_eq!(None, parse_usize("99999999999999999999999999"));
}

#[test]
fn ascii_case() {
    assert!(eq_ignore_ascii_case("HeAd", "head"));
    assert!(!eq_ignore_ascii_case("heads", "head"));
    assert!(!eq_ignore_ascii_case("h\u{e9}ad", "head"));
}

#[test]
fn root_file_from_container() {
    let c = b"<container><rootfiles><rootfile full-path=\"OEBPS/content.opf\"/></rootfiles></container>";
    assert_eq!("OEBPS/content.opf", get_root_file(c).ok().unwrap());
    let missing = b"<container><rootfiles><rootfile/></rootfiles></container>";
    assert!(matches!(
        get_root_file(missing),
        Err(DocError::XmlError(XMLError::AttrNotFound(_)))
    ));
    assert!(matches!(get_root_file(b"<c/>"), Err(DocError::XmlError(XMLError::AttrNotFound(_)))));
    assert!(matches!(get_root_file(b"<c"), Err(DocError::XmlError(XMLError::NoContent))));
}
