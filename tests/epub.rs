use epub::archive::EpubArchive;
use epub::doc::{DocError, EpubDoc, EpubVersion, MetadataItem};
use std::io::{Cursor, Write};

fn zip_bytes(files: &[(String, Vec<u8>)]) -> Vec<u8> {
    let mut w = zip::ZipWriter::new(Cursor::new(Vec::new()));
    let opts = zip::write::SimpleFileOptions::default().compression_method(zip::CompressionMethod::Stored);
    for (name, data) in files {
        w.start_file(name.as_str(), opts).unwrap();
        w.write_all(data).unwrap();
    }
    w.finish().unwrap().into_inner()
}

fn container(root: &str) -> Vec<u8> {
    format!(
        "<?xml version=\"1.0\"?>\n<container version=\"1.0\" xmlns=\"urn:oasis:names:tc:opendocument:xmlns:container\">\n<rootfiles><rootfile full-path=\"{}\" media-type=\"application/oebps-package+xml\"/></rootfiles>\n</container>",
        root
    )
    .into_bytes()
}

fn chapter(body: &str) -> Vec<u8> {
    format!(
        "<?xml version=\"1.0\" encoding=\"utf-8\"?>\n<html xmlns=\"http://www.w3.org/1999/xhtml\"><head><title>t</title><link href=\"../Styles/stylesheet.css\" rel=\"stylesheet\" type=\"text/css\"/></head><body>{}</body></html>",
        body
    )
    .into_bytes()
}

/// A publication shaped like the usual sample: 23 manifest entries, 17 spine
/// items, 32 archive entries.
fn sample_files() -> Vec<(String, Vec<u8>)> {
    let mut files: Vec<(String, Vec<u8>)> = Vec::new();
    files.push(("mimetype".to_string(), b"application/epub+zip".to_vec()));
    files.push(("META-INF/container.xml".to_string(), container("OEBPS/content.opf")));
    let mut manifest = String::new();
    let mut spine = String::new();
    manifest.push_str("<item id=\"titlepage.xhtml\" href=\"Text/titlepage.xhtml\" media-type=\"application/xhtml+xml\"/>\n");
    spine.push_str("<itemref idref=\"titlepage.xhtml\"/>\n");
    files.push((
        "OEBPS/Text/titlepage.xhtml".to_string(),
        chapter("<img src=\"../Images/portada.png\" alt=\"cover\"/>"),
    ));
    for i in 0..16 {
        let name = format!("{:03}.xhtml", i);
        manifest.push_str(&format!(
            "<item id=\"{}\" href=\"Text/{}\" media-type=\"application/xhtml+xml\"/>\n",
            name, name
        ));
        spine.push_str(&format!("<itemref idref=\"{}\"/>\n", name));
        files.push((
            format!("OEBPS/Text/{}", name),
            chapter("<p>Text <a href=\"http://creativecommons.org/licenses/by-sa/3.0/\">license</a></p>"),
        ));
    }
    manifest.push_str("<item id=\"ncx\" href=\"toc.ncx\" media-type=\"application/x-dtbncx+xml\"/>\n");
    manifest.push_str("<item id=\"stylesheet.css\" href=\"Styles/stylesheet.css\" media-type=\"text/css\"/>\n");
    manifest.push_str("<item id=\"portada.png\" href=\"Images/portada.png\" media-type=\"image/png\"/>\n");
    for i in 0..3 {
        manifest.push_str(&format!(
            "<item id=\"img{}.png\" href=\"Images/img{}.png\" media-type=\"image/png\"/>\n",
            i, i
        ));
        files.push((format!("OEBPS/Images/img{}.png", i), vec![0x89, 0x50, 0x4e, 0x47, i as u8]));
    }
    files.push(("OEBPS/Styles/stylesheet.css".to_string(), b"body { margin: 0 }".to_vec()));
    files.push(("OEBPS/Images/portada.png".to_string(), vec![0x89, 0x50, 0x4e, 0x47, 0x0d, 0x0a]));
    let opf = format!(
        "<?xml version=\"1.0\" encoding=\"utf-8\"?>\n\
<package version=\"2.0\" unique-identifier=\"BookId\" xmlns=\"http://www.idpf.org/2007/opf\">\n\
<metadata xmlns:dc=\"http://purl.org/dc/elements/1.1/\" xmlns:opf=\"http://www.idpf.org/2007/opf\">\n\
<dc:identifier id=\"BookId\" opf:scheme=\"UUID\">urn:uuid:09132750-3601-4d19-b3a4-55fdf8639849</dc:identifier>\n\
<dc:title>Todo es m\u{ed}o</dc:title>\n\
<dc:creator opf:role=\"aut\">Daniel Garcia</dc:creator>\n\
<dc:language>es</dc:language>\n\
<meta name=\"cover\" content=\"portada.png\"/>\n\
<meta property=\"dcterms:modified\">2015-08-10T18:12:03Z</meta>\n\
</metadata>\n<manifest>\n{}</manifest>\n<spine toc=\"ncx\">\n{}</spine>\n</package>",
        manifest, spine
    );
    files.push(("OEBPS/content.opf".to_string(), opf.into_bytes()));
    let ncx = "<?xml version=\"1.0\" encoding=\"UTF-8\"?>\n\
<ncx xmlns=\"http://www.daisy.org/z3986/2005/ncx/\" version=\"2005-1\">\n\
<docTitle><text>Todo es m\u{ed}o</text></docTitle>\n<navMap>\n\
<navPoint id=\"n2\" playOrder=\"2\"><navLabel><text>Uno</text></navLabel><content src=\"Text/001.xhtml\"/></navPoint>\n\
<navPoint id=\"n1\" playOrder=\"1\"><navLabel><text>Cero</text></navLabel><content src=\"Text/000.xhtml\"/>\n\
<navPoint id=\"n1b\" playOrder=\"4\"><navLabel><text>Tres</text></navLabel><content src=\"Text/003.xhtml\"/></navPoint>\n\
<navPoint id=\"n1a\" playOrder=\"3\"><navLabel><text>Dos</text></navLabel><content src=\"Text/002.xhtml\"/></navPoint>\n\
</navPoint>\n\
<navPoint id=\"n0\" playOrder=\"0\"><navLabel><text>Portada</text></navLabel><content src=\"Text/titlepage.xhtml\"/></navPoint>\n\
<navPoint id=\"bad\"><navLabel><text>Sin orden</text></navLabel><content src=\"Text/004.xhtml\"/></navPoint>\n\
</navMap>\n</ncx>";
    files.push(("OEBPS/toc.ncx".to_string(), ncx.as_bytes().to_vec()));
    files.push(("a % encoded item.xml".to_string(), b"<a/>".to_vec()));
    files.push(("a%20normal%20item.xml".to_string(), b"<b/>".to_vec()));
    files.push(("META-INF/com.apple.ibooks.display-options.xml".to_string(), b"<display_options/>".to_vec()));
    files.push(("OEBPS/Fonts/a.ttf".to_string(), vec![0, 1, 0, 0]));
    files.push(("OEBPS/Fonts/b.ttf".to_string(), vec![0, 1, 0, 0]));
    files.push(("OEBPS/Fonts/c.ttf".to_string(), vec![0, 1, 0, 0]));
    files
}

fn sample() -> Vec<u8> {
    zip_bytes(&sample_files())
}

fn open(bytes: Vec<u8>) -> Result<EpubDoc, DocError> {
    EpubDoc::from_reader(bytes)
}

/// A publication without a modification date and with a plain URL as its
/// identifier.
fn metamorphosis() -> Vec<u8> {
    let opf = "<?xml version=\"1.0\" encoding=\"UTF-8\"?>\n\
<package xmlns=\"http://www.idpf.org/2007/opf\" version=\"2.0\" unique-identifier=\"uid\">\n\
<metadata xmlns:dc=\"http://purl.org/dc/elements/1.1/\" xmlns:opf=\"http://www.idpf.org/2007/opf\">\n\
<dc:title>Metamorphosis</dc:title>\n\
<dc:identifier id=\"uid\">http://metamorphosiskafka.pressbooks.com</dc:identifier>\n\
</metadata>\n<manifest>\n\
<item id=\"c1\" href=\"c1.xhtml\" media-type=\"application/xhtml+xml\"/>\n\
<item id=\"c2\" href=\"c2.xhtml\" media-type=\"application/xhtml+xml\"/>\n\
</manifest>\n<spine>\n<itemref idref=\"c1\"/>\n<itemref idref=\"c2\"/>\n<itemref idref=\"missing\"/>\n</spine>\n</package>";
    zip_bytes(&[
        ("META-INF/container.xml".to_string(), container("content.opf")),
        ("content.opf".to_string(), opf.as_bytes().to_vec()),
        ("c1.xhtml".to_string(), chapter("<p>One</p>")),
        ("c2.xhtml".to_string(), chapter("<p>Two</p>")),
    ])
}

/// An EPUB3 publication with a refined identifier.
fn fatbf() -> Vec<u8> {
    let opf = "<?xml version=\"1.0\" encoding=\"UTF-8\"?>\n\
<package xmlns=\"http://www.idpf.org/2007/opf\" version=\"3.0\" unique-identifier=\"pub-id\">\n\
<metadata xmlns:dc=\"http://purl.org/dc/elements/1.1/\">\n\
<dc:identifier id=\"pub-id\">urn:uuid:fatbf</dc:identifier>\n\
<dc:identifier id=\"isbn\">9780000000000</dc:identifier>\n\
<meta refines=\"#isbn\" property=\"identifier-type\" scheme=\"onix:codelist5\">15</meta>\n\
<dc:title id=\"t\">Fat BF</dc:title>\n\
<meta refines=\"#t\" property=\"title-type\">main</meta>\n\
<meta refines=\"#nobody\" property=\"role\">aut</meta>\n\
<meta property=\"dcterms:modified\">2020-01-01T00:00:00Z</meta>\n\
</metadata>\n<manifest>\n\
<item id=\"c1\" href=\"Text/c1.xhtml\" media-type=\"application/xhtml+xml\" properties=\"nav\"/>\n\
<item id=\"cov\" href=\"Images/cov.jpg\" media-type=\"image/jpeg\" properties=\"cover-image\"/>\n\
</manifest>\n<spine page-progression-direction=\"rtl\">\n<itemref idref=\"c1\" linear=\"no\" properties=\"page-spread-left\"/>\n</spine>\n</package>";
    zip_bytes(&[
        ("META-INF/container.xml".to_string(), container("OPS/package.opf")),
        ("OPS/package.opf".to_string(), opf.as_bytes().to_vec()),
        ("OPS/Text/c1.xhtml".to_string(), chapter("<p>One</p>")),
        ("OPS/Images/cov.jpg".to_string(), vec![0xff, 0xd8]),
    ])
}

fn utf16_le_with_bom(s: &str) -> Vec<u8> {
    let mut out = vec![0xff, 0xfe];
    for u in s.encode_utf16() {
        out.extend_from_slice(&u.to_le_bytes());
    }
    out
}

/// A publication whose package document is UTF-16, with malformed manifest,
/// spine and toc entries and two titles.
fn book2() -> Vec<u8> {
    let opf = "<?xml version=\"1.0\"?>\n\
<package xmlns=\"http://www.idpf.org/2007/opf\" version=\"2.0\" unique-identifier=\"id\">\n\
<metadata xmlns:dc=\"http://purl.org/dc/elements/1.1/\">\n\
<dc:title>Metamorphosis </dc:title>\n\
<dc:title>Metamorphosis2 </dc:title>\n\
<dc:identifier id=\"id\">book2</dc:identifier>\n\
</metadata>\n<manifest>\n\
<item id=\"c1\" href=\"c1.xhtml\" media-type=\"application/xhtml+xml\"/>\n\
<item id=\"broken\" href=\"broken.xhtml\"/>\n\
<item href=\"nothing.xhtml\" media-type=\"application/xhtml+xml\"/>\n\
<item id=\"ncx\" href=\"toc.ncx\" media-type=\"application/x-dtbncx+xml\"/>\n\
</manifest>\n<spine toc=\"ncx\">\n<itemref idref=\"c1\"/>\n<itemref/>\n</spine>\n</package>";
    let ncx = "<?xml version=\"1.0\"?>\n<ncx xmlns=\"http://www.daisy.org/z3986/2005/ncx/\"><navMap><navPoint playOrder=\"x\"><navLabel><text>a</text></navLabel><content src=\"c1.xhtml\"/></navPoint></navMap></ncx>";
    zip_bytes(&[
        ("META-INF/container.xml".to_string(), container("content.opf")),
        ("content.opf".to_string(), utf16_le_with_bom(opf)),
        ("c1.xhtml".to_string(), chapter("<p>One</p>")),
        ("toc.ncx".to_string(), ncx.as_bytes().to_vec()),
    ])
}

#[test]
fn archive_open() {
    let archive = EpubArchive::from_reader(sample());
    assert!(archive.is_ok());
    let archive = archive.ok().unwrap();
    assert_eq!(32, archive.files.len());
}

#[test]
fn archive_entry() {
    let archive = EpubArchive::from_reader(sample());
    assert!(archive.is_ok());
    let mut archive = archive.ok().unwrap();
    let content = archive.get_entry("META-INF/container.xml");
    assert!(content.is_ok());
}

#[test]
fn archive_entry_percent_encoding() {
    let archive = EpubArchive::from_reader(sample());
    assert!(archive.is_ok());
    let mut archive = archive.ok().unwrap();
    let content = archive.get_entry("a%20%25%20encoded%20item.xml");
    assert!(content.is_ok());
    let content = archive.get_entry("a%20normal%20item.xml");
    assert!(content.is_ok());
}

#[test]
fn archive_root_file() {
    let archive = EpubArchive::from_reader(sample());
    assert!(archive.is_ok());
    let mut archive = archive.ok().unwrap();
    let content = archive.get_entry("META-INF/container.xml");
    let root = archive.get_container_file();
    assert!(content.is_ok() && root.is_ok());
    assert_eq!(content.ok().unwrap(), root.ok().unwrap());
}

#[test]
fn archive_missing_entry_is_an_error() {
    let mut archive = EpubArchive::from_reader(sample()).ok().unwrap();
    assert!(archive.get_entry("OEBPS/none.xhtml").is_err());
    assert!(archive.get_entry("bad%ffname").is_err());
    let text = archive.get_entry_as_str("OEBPS/Styles/stylesheet.css").ok().unwrap();
    assert_eq!("body { margin: 0 }", text);
    assert!(archive.get_entry_as_str("OEBPS/Images/portada.png").is_err());
}

#[test]
fn archive_rejects_non_zip() {
    assert!(EpubArchive::from_reader(b"not a zip file".to_vec()).is_err());
}

#[test]
fn doc_open() {
    let doc = open(sample());
    assert!(doc.is_ok());
    let doc = doc.ok().unwrap();
    let doc2 = open(metamorphosis()).ok().unwrap();
    assert_eq!("OEBPS", doc.root_base);
    assert_eq!("OEBPS/content.opf", doc.root_file);

    assert_eq!(23, doc.resources.len());
    {
        let tpage = doc.resources.get("titlepage.xhtml");
        assert_eq!(tpage.unwrap().0, "OEBPS/Text/titlepage.xhtml");
    }

    {
        assert_eq!(17, doc.spine.len());
        assert_eq!("titlepage.xhtml", doc.spine[0].idref);
    }

    {
        let unique_identifier = doc.unique_identifier.clone();
        assert_eq!(
            unique_identifier.unwrap(),
            "urn:uuid:09132750-3601-4d19-b3a4-55fdf8639849"
        );
    }

    {
        let identifier = doc.mdata("identifier").unwrap();
        let scheme = identifier.refinement("scheme").unwrap();
        assert_eq!(scheme.value, "UUID");
    }

    {
        let title = doc.mdata("title");
        assert_eq!(title.unwrap().value, "Todo es mío");
    }

    {
        let creator = doc.mdata("creator").unwrap();
        assert_eq!(creator.value, "Daniel Garcia");
        let role = creator.refinement("role").unwrap();
        assert_eq!(role.value, "aut");
    }

    {
        let cover = doc.get_cover_id();
        assert_eq!(cover, Some("portada.png".into()));
    }

    {
        let modified = doc.mdata("dcterms:modified");
        assert_eq!(modified.unwrap().value, "2015-08-10T18:12:03Z");
    }

    {
        let release_identifier = doc.get_release_identifier();
        assert_eq!(
            release_identifier.unwrap(),
            "urn:uuid:09132750-3601-4d19-b3a4-55fdf8639849@2015-08-10T18:12:03Z"
        );
    }

    {
        let unique_identifier = doc2.unique_identifier.clone();
        assert_eq!(
            "http://metamorphosiskafka.pressbooks.com",
            unique_identifier.unwrap()
        );
    }

    {
        let release_identifier = doc2.get_release_identifier();
        assert_eq!(None, release_identifier);
    }
}

#[test]
fn doc_open_epub3() {
    let doc = open(fatbf());
    assert!(doc.is_ok());
    let doc = doc.ok().unwrap();

    {
        let mut iter = doc.metadata.iter();
        let finder = |item: &&MetadataItem| item.property == "identifier";

        let identifier = iter.find(finder).unwrap();
        assert!(identifier.refined.is_empty());

        let identifier = iter.find(finder).unwrap();
        let ident_type = identifier.refinement("identifier-type").unwrap();
        assert_eq!(ident_type.scheme, Some("onix:codelist5".to_string()));
        assert_eq!(ident_type.value, "15");
    }
}

#[test]
fn toc_test() {
    let doc = open(sample());
    assert!(doc.is_ok());
    let doc = doc.ok().unwrap();

    assert!(!doc.toc.is_empty());
    for nav in doc.toc.iter() {
        let chapter = doc.resource_uri_to_chapter(&nav.content);
        assert!(chapter.is_some());
        assert_eq!(nav.play_order, chapter.unwrap());
    }
}

#[test]
fn toc_title_test() {
    let doc = open(sample());
    assert!(doc.is_ok());
    let doc = doc.ok().unwrap();

    assert!(doc.toc_title == "Todo es mío");
}

#[test]
fn version_test() {
    let doc = open(sample());
    assert!(doc.is_ok());
    let doc = doc.ok().unwrap();

    assert!(doc.version == EpubVersion::Version2_0);
    assert!(doc.version < EpubVersion::Version3_0);
}

#[test]
fn read_doc() {
    let doc = open(metamorphosis());
    assert!(doc.is_ok());
    let mut doc = doc.ok().unwrap();

    if let Some(title) = doc.mdata("title") {
        println!("Book title: {}", title.value);
    } else {
        println!("Book title not found");
    }
    println!("Num Pages: {}\n", doc.get_num_pages());

    {
        println!("resources:\n");
        for i in 0..doc.resources.len() {
            let (k, path, mime) = doc.resources.entry(i);
            println!("{}: {}\n * {}\n", k, mime, path);
        }
        println!();
    }

    while doc.go_next() {
        println!("ID: {}", doc.get_current_id().unwrap());
        let current = doc.get_current_str();
        match current {
            Some((v, m)) => println!("Value {:?}, Mime {:?}\n", v, m),
            None => println!("Not Found\n"),
        }
    }
}

#[test]
fn bad_epub() {
    let doc = open(book2());
    assert!(doc.is_ok());
    let doc = doc.ok().unwrap();
    let titles: Vec<String> = doc
        .metadata
        .iter()
        .filter(|m| m.property == "title")
        .map(|m| m.value.clone())
        .collect();
    assert_eq!(
        titles,
        vec!["Metamorphosis ".to_string(), "Metamorphosis2 ".to_string()]
    );
    println!("Book title: {:#?}", titles);
}

#[test]
fn malformed_entries_are_skipped() {
    let doc = open(book2()).ok().unwrap();
    assert_eq!(2, doc.resources.len());
    assert!(doc.resources.get("broken").is_none());
    assert_eq!(1, doc.spine.len());
    assert!(doc.toc.is_empty());
    assert_eq!(Some("book2".to_string()), doc.unique_identifier);
}

#[test]
fn manifest_paths_are_complete() {
    let doc = open(sample()).ok().unwrap();
    for i in 0..doc.resources.len() {
        let (id, path, mime) = doc.resources.entry(i);
        assert!(!id.is_empty() && !path.is_empty() && !mime.is_empty());
        assert!(!path.contains('\\'));
        assert!(path.starts_with("OEBPS/"));
    }
}

#[test]
fn spine_chapters_and_walk() {
    let mut doc = open(sample()).ok().unwrap();
    for i in 0..doc.spine.len() {
        let id = doc.spine[i].idref.clone();
        assert_eq!(Some(i), doc.resource_id_to_chapter(&id));
    }
    assert_eq!(0, doc.get_current_page());
    assert!(!doc.go_prev());
    let mut visited = vec![doc.get_current_page()];
    while doc.go_next() {
        visited.push(doc.get_current_page());
    }
    assert_eq!((0..17).collect::<Vec<usize>>(), visited);
    assert!(!doc.go_next());
    assert_eq!(16, doc.get_current_page());
    assert!(doc.go_prev());
    assert_eq!(15, doc.get_current_page());
}

#[test]
fn navigation_by_page() {
    let mut doc = open(sample()).ok().unwrap();
    assert_eq!("application/xhtml+xml", doc.get_current_mime().unwrap());
    doc.go_next();
    assert_eq!("000.xhtml", doc.get_current_id().unwrap());
    doc.go_next();
    assert_eq!("001.xhtml", doc.get_current_id().unwrap());
    doc.go_prev();
    assert_eq!("000.xhtml", doc.get_current_id().unwrap());
    assert!(doc.set_current_page(2));
    assert_eq!("001.xhtml", doc.get_current_id().unwrap());
    assert_eq!(2, doc.get_current_page());
    assert!(!doc.set_current_page(50));
    assert_eq!(2, doc.get_current_page());
    assert_eq!("OEBPS/Text/001.xhtml", doc.get_current_path().unwrap());
    assert_eq!(17, doc.get_num_pages());
}

#[test]
fn toc_is_sorted_at_every_level() {
    let doc = open(sample()).ok().unwrap();
    let orders: Vec<usize> = doc.toc.iter().map(|n| n.play_order).collect();
    assert_eq!(vec![0, 1, 2], orders);
    let nested: Vec<usize> = doc.toc[1].children.iter().map(|n| n.play_order).collect();
    assert_eq!(vec![3, 4], nested);
    assert_eq!("Dos", doc.toc[1].children[0].label);
    assert_eq!("OEBPS/Text/002.xhtml", doc.toc[1].children[0].content);
    for nav in doc.toc[1].children.iter() {
        assert_eq!(Some(nav.play_order), doc.resource_uri_to_chapter(&nav.content));
    }
}

#[test]
fn relinked_content_uses_epub_uris() {
    let mut doc = open(sample()).ok().unwrap();
    let current = doc.get_current_with_epub_uris().ok().unwrap();
    let text = String::from_utf8(current).unwrap();
    assert!(text.contains("epub://OEBPS/Images/portada.png"));
    doc.go_next();
    let current = doc.get_current_with_epub_uris().ok().unwrap();
    let text = String::from_utf8(current).unwrap();
    assert!(text.contains("epub://OEBPS/Styles/stylesheet.css"));
    assert!(text.contains("\"http://creativecommons.org/licenses/by-sa/3.0/\""));
}

#[test]
fn extra_css_is_injected_each_time() {
    let mut doc = open(sample()).ok().unwrap();
    doc.set_current_page(2);
    doc.add_extra_css("body{color:red}");
    let text = String::from_utf8(doc.get_current_with_epub_uris().ok().unwrap()).unwrap();
    assert_eq!(1, text.matches("body{color:red}").count());
    doc.add_extra_css("body{color:red}");
    let text = String::from_utf8(doc.get_current_with_epub_uris().ok().unwrap()).unwrap();
    assert_eq!(2, text.matches("body{color:red}").count());
    assert!(text.contains("<style>"));
    let again = String::from_utf8(doc.get_current_with_epub_uris().ok().unwrap()).unwrap();
    assert_eq!(text, again);
}

#[test]
fn resources_by_id_and_path() {
    let mut doc = open(sample()).ok().unwrap();
    assert_eq!("image/png", doc.get_resource_mime("portada.png").unwrap());
    assert_eq!(
        "image/png",
        doc.get_resource_mime_by_path("OEBPS/Images/portada.png").unwrap()
    );
    assert!(doc.get_resource_mime("nothing").is_none());
    let (bytes, mime) = doc.get_resource("portada.png").unwrap();
    assert_eq!(vec![0x89, 0x50, 0x4e, 0x47, 0x0d, 0x0a], bytes);
    assert_eq!("image/png", mime);
    assert!(doc.get_resource("nothing").is_none());
    assert!(doc.get_resource_by_path("OEBPS/none.png").is_none());
    let (css, _) = doc.get_resource_str("stylesheet.css").unwrap();
    assert_eq!("body { margin: 0 }", css);
    assert!(doc.get_resource_str("portada.png").is_none());
    assert!(doc.get_resource_str_by_path("OEBPS/Styles/stylesheet.css").is_some());
    let (cur, _) = doc.get_current().unwrap();
    assert!(String::from_utf8(cur).unwrap().contains("portada.png"));
    assert!(doc.get_current_str().is_some());
}

#[test]
fn epub3_fields() {
    let doc = open(fatbf()).ok().unwrap();
    assert!(doc.version == EpubVersion::Version3_0);
    assert_eq!(Some("cov".to_string()), doc.get_cover_id());
    assert_eq!(Some("rtl".to_string()), doc.page_progression_direction);
    assert!(!doc.spine[0].linear);
    assert_eq!(Some("page-spread-left".to_string()), doc.spine[0].properties);
    let title = doc.mdata("title").unwrap();
    assert_eq!("main", title.refinement("title-type").unwrap().value);
    assert!(doc.metadata.iter().all(|m| m.refinement("role").is_none()));
    assert_eq!(Some("urn:uuid:fatbf".to_string()), doc.unique_identifier);
    assert_eq!(
        Some("urn:uuid:fatbf@2020-01-01T00:00:00Z".to_string()),
        doc.get_release_identifier()
    );
}

#[test]
fn missing_structures_fail_to_open() {
    let opf = "<package xmlns=\"http://www.idpf.org/2007/opf\" version=\"2.0\"><metadata/><spine/></package>";
    let bytes = zip_bytes(&[
        ("META-INF/container.xml".to_string(), container("content.opf")),
        ("content.opf".to_string(), opf.as_bytes().to_vec()),
    ]);
    assert!(matches!(open(bytes), Err(DocError::InvalidEpub)));
    let bytes = zip_bytes(&[("META-INF/container.xml".to_string(), container("content.opf"))]);
    assert!(matches!(open(bytes), Err(DocError::ArchiveError(_))));
    let bytes = zip_bytes(&[(
        "META-INF/container.xml".to_string(),
        b"<container><rootfiles/></container>".to_vec(),
    )]);
    assert!(matches!(open(bytes), Err(DocError::XmlError(_))));
}

#[test]
fn unique_identifier_falls_back_to_first() {
    let opf = "<package xmlns=\"http://www.idpf.org/2007/opf\" version=\"2.0\" unique-identifier=\"nope\">\
<metadata xmlns:dc=\"http://purl.org/dc/elements/1.1/\"><dc:identifier>first</dc:identifier><dc:identifier id=\"x\">second</dc:identifier></metadata>\
<manifest/><spine/></package>";
    let bytes = zip_bytes(&[
        ("META-INF/container.xml".to_string(), container("content.opf")),
        ("content.opf".to_string(), opf.as_bytes().to_vec()),
    ]);
    let doc = open(bytes).ok().unwrap();
    assert_eq!(Some("first".to_string()), doc.unique_identifier);
    assert!(matches!(doc.version, EpubVersion::Version2_0));
    assert_eq!("", doc.root_base);
}

#[test]
fn doc_mock() {
    let doc = EpubDoc::mock();
    assert!(doc.is_ok());
    let mut doc = doc.ok().unwrap();
    assert_eq!(0, doc.get_num_pages());
    assert!(!doc.go_next());
    assert!(!doc.set_current_page(0));
    assert!(doc.get_current_id().is_none());
    assert!(matches!(doc.get_current_with_epub_uris(), Err(DocError::InvalidEpub)));
}

#[test]
fn navpoints_compare_by_play_order() {
    let doc = open(sample()).ok().unwrap();
    assert!(doc.toc[0] < doc.toc[1]);
    assert!(doc.toc[2] > doc.toc[1]);
    assert!(doc.toc[1] != doc.toc[2]);
    let same = epub::doc::NavPoint {
        label: "other".to_string(),
        content: "elsewhere".to_string(),
        children: Vec::new(),
        play_order: doc.toc[1].play_order,
    };
    assert!(same == doc.toc[1]);
}

#[test]
fn cover_by_id() {
    let mut doc = open(sample()).ok().unwrap();
    let (bytes, mime) = doc.get_cover().unwrap();
    assert_eq!(vec![0x89, 0x50, 0x4e, 0x47, 0x0d, 0x0a], bytes);
    assert_eq!("image/png", mime);
    let mut doc2 = open(metamorphosis()).ok().unwrap();
    assert!(doc2.get_cover().is_none());
}

#[test]
fn spine_item_without_manifest_entry() {
    let mut doc = open(metamorphosis()).ok().unwrap();
    assert_eq!(3, doc.get_num_pages());
    assert!(doc.set_current_page(2));
    assert_eq!("missing", doc.get_current_id().unwrap());
    assert!(doc.get_current_path().is_none());
    assert!(doc.get_current().is_none());
    assert!(matches!(doc.get_current_with_epub_uris(), Err(DocError::InvalidEpub)));
    assert_eq!(None, doc.resource_uri_to_chapter("nothing.xhtml"));
    assert_eq!(Some(1), doc.resource_uri_to_chapter("c2.xhtml"));
}
