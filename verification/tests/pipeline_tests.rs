use std::io::Cursor;
use std::io::Write;

use epubparse::epub_to_book;
use epubparse::errors::MalformattedEpubError;
use epubparse::errors::ParseError;
use epubparse::errors::ZipErrorKind;
use epubparse::ncx::parse_ncx;
use epubparse::reconcile::EpubArchive;

fn build_zip(entries: &[(&str, &str)]) -> Vec<u8> {
    let mut w = zip::ZipWriter::new(Cursor::new(Vec::new()));
    let opts = zip::write::FileOptions::default()
        .compression_method(zip::CompressionMethod::Stored);
    for (name, content) in entries {
        w.start_file(*name, opts).unwrap();
        w.write_all(content.as_bytes()).unwrap();
    }
    w.finish().unwrap().into_inner()
}

const CONTAINER: &str = "<?xml version=\"1.0\"?><container><rootfiles><rootfile full-path=\"OEBPS/content.opf\" media-type=\"application/oebps-package+xml\"/></rootfiles></container>";

fn chapter_html(_title: &str, body: &str) -> String {
    format!("<html><body><p>{}</p></body></html>", body)
}

/// An EPUB with a flat table of contents: one content file per chapter.
fn build_flat_epub(title: &str, author: &str, chapters: &[(&str, &str)]) -> Vec<u8> {
    let mut manifest = String::from("<item id=\"ncx\" href=\"toc.ncx\" media-type=\"application/x-dtbncx+xml\"/>");
    let mut spine = String::new();
    let mut navmap = String::new();
    for (i, (label, _body)) in chapters.iter().enumerate() {
        manifest.push_str(&format!(
            "<item id=\"ch{}\" href=\"ch{}.xhtml\" media-type=\"application/xhtml+xml\"/>",
            i, i
        ));
        spine.push_str(&format!("<itemref idref=\"ch{}\"/>", i));
        navmap.push_str(&format!(
            "<navPoint id=\"np{}\" playOrder=\"{}\"><navLabel><text>{}</text></navLabel><content src=\"ch{}.xhtml\"/></navPoint>",
            i,
            i + 1,
            label,
            i
        ));
    }
    let opf = format!(
        "<?xml version=\"1.0\"?><package><metadata><title>{}</title><creator>{}</creator><language>en</language></metadata><manifest>{}</manifest><spine>{}</spine></package>",
        title, author, manifest
    , spine);
    let ncx = format!(
        "<?xml version=\"1.0\"?><ncx><head><meta name=\"dtb:depth\" content=\"1\"/></head><navMap>{}</navMap></ncx>",
        navmap
    );
    let mut entries: Vec<(String, String)> = vec![
        ("META-INF/container.xml".to_string(), CONTAINER.to_string()),
        ("OEBPS/content.opf".to_string(), opf),
        ("OEBPS/toc.ncx".to_string(), ncx),
    ];
    for (i, (label, body)) in chapters.iter().enumerate() {
        entries.push((format!("OEBPS/ch{}.xhtml", i), chapter_html(label, body)));
    }
    let borrowed: Vec<(&str, &str)> = entries.iter().map(|(a, b)| (a.as_str(), b.as_str())).collect();
    build_zip(&borrowed)
}

fn paid_off_chapters() -> Vec<(String, String)> {
    (1..=14)
        .map(|i| (format!("Chapter {}", i), format!("Text of chapter {}.", i)))
        .collect()
}

fn paid_off_epub() -> Vec<u8> {
    let chapters = paid_off_chapters();
    let borrowed: Vec<(&str, &str)> = chapters.iter().map(|(a, b)| (a.as_str(), b.as_str())).collect();
    build_flat_epub("Paid Off", "Walter J. Coburn", &borrowed)
}

#[test]
fn epub_to_book_paid_off() {
    let book = epub_to_book(&paid_off_epub()).unwrap();
    assert_eq!("Paid Off", &book.title);
}

#[test]
fn paid_off_fourteen_chapters() {
    let book = epub_to_book(&paid_off_epub()).unwrap();
    assert_eq!("Paid Off", &book.title);
    assert_eq!(14, book.chapters.len());
    for (i, ch) in book.chapters.iter().enumerate() {
        assert_eq!(format!("Chapter {}", i + 1), ch.title);
        assert_eq!(format!("Text of chapter {}.", i + 1), ch.text);
        assert!(ch.subchapters.is_empty());
    }
}

#[test]
fn paid_off_play_orders_in_order() {
    let chapters = paid_off_chapters();
    let mut navmap = String::new();
    for (i, (label, _)) in chapters.iter().enumerate() {
        navmap.push_str(&format!(
            "<navPoint id=\"np{}\" playOrder=\"{}\"><navLabel><text>{}</text></navLabel><content src=\"ch{}.xhtml\"/></navPoint>",
            i, i + 1, label, i
        ));
    }
    let ncx = format!(
        "<?xml version=\"1.0\"?><ncx><head><meta name=\"dtb:depth\" content=\"1\"/></head><navMap>{}</navMap></ncx>",
        navmap
    );
    let toc = parse_ncx(&ncx).unwrap();
    assert_eq!(1, toc.depth);
    assert_eq!(14, toc.nav_points.len());
    let orders: Vec<usize> = toc.nav_points.iter().map(|np| np.play_order.unwrap()).collect();
    assert_eq!((1..15).collect::<Vec<usize>>(), orders);
}

#[test]
fn epub_to_contentopf_fields() {
    let bytes = paid_off_epub();
    let archive = EpubArchive::new(&bytes).unwrap();
    assert_eq!("Paid Off", archive.get_title());
    let opf = archive.content_opf;
    assert_eq!("Paid Off", &opf.title);
    assert_eq!("Walter J. Coburn", &opf.author.unwrap());
    assert_eq!("en", &opf.language);
    assert!(!opf.manifest.is_empty());
    assert!(!opf.spine.is_empty());
}

/// A navigation tree of depth 3: the fourth top-level entry has four
/// children, and that entry's fourth child is labeled "ACT I".
fn nested_epub() -> Vec<u8> {
    let mut manifest = String::from("<item id=\"ncx\" href=\"toc.ncx\" media-type=\"application/x-dtbncx+xml\"/>");
    let mut spine = String::new();
    let mut files: Vec<(String, String)> = Vec::new();
    for i in 0..8 {
        manifest.push_str(&format!(
            "<item id=\"f{}\" href=\"f{}.xhtml\" media-type=\"application/xhtml+xml\"/>",
            i, i
        ));
        spine.push_str(&format!("<itemref idref=\"f{}\"/>", i));
        files.push((
            format!("OEBPS/f{}.xhtml", i),
            chapter_html(&format!("Part {}", i), &format!("Body of part {}.", i)),
        ));
    }
    // top-level entries point at f0..f3; the fourth one nests f4..f7,
    // and its fourth child carries a deeper child to reach depth 3
    let mut navmap = String::new();
    for i in 0..3 {
        navmap.push_str(&format!(
            "<navPoint id=\"t{}\"><navLabel><text>Play {}</text></navLabel><content src=\"f{}.xhtml\"/></navPoint>",
            i, i, i
        ));
    }
    let mut children = String::new();
    for i in 4..7 {
        children.push_str(&format!(
            "<navPoint id=\"c{}\"><navLabel><text>Scene {}</text></navLabel><content src=\"f{}.xhtml\"/></navPoint>",
            i, i, i
        ));
    }
    children.push_str(
        "<navPoint id=\"c7\"><navLabel><text>ACT I</text></navLabel><content src=\"f7.xhtml#a1\"/><navPoint id=\"g1\"><navLabel><text>Scene deep</text></navLabel><content src=\"f7.xhtml#a2\"/></navPoint></navPoint>",
    );
    navmap.push_str(&format!(
        "<navPoint id=\"t3\"><navLabel><text>Play 3</text></navLabel><content src=\"f3.xhtml\"/>{}</navPoint>",
        children
    ));
    let opf = format!(
        "<?xml version=\"1.0\"?><package><metadata><title>Shakespeares</title><language>en</language></metadata><manifest>{}</manifest><spine>{}</spine></package>",
        manifest, spine
    );
    let ncx = format!(
        "<?xml version=\"1.0\"?><ncx><head><meta name=\"dtb:depth\" content=\"3\"/></head><navMap>{}</navMap></ncx>",
        navmap
    );
    let mut entries: Vec<(String, String)> = vec![
        ("META-INF/container.xml".to_string(), CONTAINER.to_string()),
        ("OEBPS/content.opf".to_string(), opf),
        ("OEBPS/toc.ncx".to_string(), ncx),
    ];
    entries.append(&mut files);
    let borrowed: Vec<(&str, &str)> = entries.iter().map(|(a, b)| (a.as_str(), b.as_str())).collect();
    build_zip(&borrowed)
}

#[test]
fn epub_to_nested_ncx() {
    let bytes = nested_epub();
    let archive = EpubArchive::new(&bytes).unwrap();
    let toc = archive.navigation;
    assert_eq!(3, toc.depth);
    assert_eq!("ACT I", toc.nav_points[3].children[3].label.as_ref().unwrap());
}

#[test]
fn nested_chapter_title_matches_tree_position() {
    let bytes = nested_epub();
    let book = epub_to_book(&bytes).unwrap();
    assert_eq!(4, book.chapters.len());
    assert_eq!(4, book.chapters[3].subchapters.len());
    assert_eq!("ACT I", book.chapters[3].subchapters[3].title);
    assert_eq!(1, book.chapters[3].subchapters[3].subchapters.len());
}

#[test]
fn parse_twice_yields_equal_books() {
    let bytes = paid_off_epub();
    let first = epub_to_book(&bytes).unwrap();
    let second = epub_to_book(&bytes).unwrap();
    assert_eq!(first, second);
    let nested = nested_epub();
    assert_eq!(epub_to_book(&nested).unwrap(), epub_to_book(&nested).unwrap());
}

#[test]
fn preface_content_before_first_match() {
    // a spine item whose href no nav point mentions, before any match,
    // goes to the preface
    let entries = [
        ("META-INF/container.xml", CONTAINER),
        (
            "OEBPS/content.opf",
            "<?xml version=\"1.0\"?><package><metadata><title>T</title><language>en</language></metadata><manifest><item id=\"ncx\" href=\"toc.ncx\" media-type=\"application/x-dtbncx+xml\"/><item id=\"pre\" href=\"pre.xhtml\" media-type=\"application/xhtml+xml\"/><item id=\"ch\" href=\"main.xhtml\" media-type=\"application/xhtml+xml\"/></manifest><spine><itemref idref=\"pre\"/><itemref idref=\"ch\"/></spine></package>",
        ),
        (
            "OEBPS/toc.ncx",
            "<?xml version=\"1.0\"?><ncx><head><meta name=\"dtb:depth\" content=\"1\"/></head><navMap><navPoint id=\"n1\"><navLabel><text>Main</text></navLabel><content src=\"main.xhtml\"/></navPoint></navMap></ncx>",
        ),
        ("OEBPS/pre.xhtml", "<html><body><p>Front matter.</p></body></html>"),
        ("OEBPS/main.xhtml", "<html><body><p>Main matter.</p></body></html>"),
    ];
    let book = epub_to_book(&build_zip(&entries)).unwrap();
    assert_eq!("Front matter.", book.preface_content);
    assert_eq!(1, book.chapters.len());
    assert_eq!("Main matter.", book.chapters[0].text);
}

#[test]
fn trailing_unmatched_content_joins_last_chapter() {
    // a spine item with no nav match after a match is attributed to the
    // most recently matched chapter
    let entries = [
        ("META-INF/container.xml", CONTAINER),
        (
            "OEBPS/content.opf",
            "<?xml version=\"1.0\"?><package><metadata><title>T</title><language>en</language></metadata><manifest><item id=\"ncx\" href=\"toc.ncx\" media-type=\"application/x-dtbncx+xml\"/><item id=\"ch\" href=\"main.xhtml\" media-type=\"application/xhtml+xml\"/><item id=\"tail\" href=\"tail.xhtml\" media-type=\"application/xhtml+xml\"/></manifest><spine><itemref idref=\"ch\"/><itemref idref=\"tail\"/></spine></package>",
        ),
        (
            "OEBPS/toc.ncx",
            "<?xml version=\"1.0\"?><ncx><head><meta name=\"dtb:depth\" content=\"1\"/></head><navMap><navPoint id=\"n1\"><navLabel><text>Main</text></navLabel><content src=\"main.xhtml\"/></navPoint></navMap></ncx>",
        ),
        ("OEBPS/main.xhtml", "<html><body><p>Main matter.</p></body></html>"),
        ("OEBPS/tail.xhtml", "<html><body><p>Appendix.</p></body></html>"),
    ];
    let book = epub_to_book(&build_zip(&entries)).unwrap();
    assert_eq!("", book.preface_content);
    assert_eq!(1, book.chapters.len());
    assert_eq!("Main matter.\nAppendix.", book.chapters[0].text);
}

#[test]
fn simple_epub_to_book() {
    // chapters split across one shared content file by anchors
    let shared = "<html><body>\
<h1 id=\"c1\">\u{5377}\u{4e00} \u{8003}\u{57ce}\u{968d}</h1><p>\u{6211}\u{59d0}\u{592b}\u{7684}\u{7956}\u{7236}\u{ff0c}\u{540d}\u{53eb}\u{5b8b}\u{7118}</p>\
<h1 id=\"c2\">\u{5377}\u{4e00} \u{8033}\u{4e2d}\u{4eba}</h1><p>\u{8c2d}\u{664b}\u{7384}</p>\
</body></html>";
    let entries = [
        ("META-INF/container.xml", CONTAINER),
        (
            "OEBPS/content.opf",
            "<?xml version=\"1.0\"?><package><metadata><title>\u{804a}\u{658b}\u{5fd7}\u{5f02}\u{767d}\u{8bdd}\u{6587}</title><creator>\u{84b2}\u{677e}\u{9f84}</creator><language>zh</language></metadata><manifest><item id=\"ncx\" href=\"toc.ncx\" media-type=\"application/x-dtbncx+xml\"/><item id=\"v1\" href=\"vol1.xhtml\" media-type=\"application/xhtml+xml\"/></manifest><spine><itemref idref=\"v1\"/></spine></package>",
        ),
        (
            "OEBPS/toc.ncx",
            "<?xml version=\"1.0\"?><ncx><head><meta name=\"dtb:depth\" content=\"1\"/></head><navMap>\
<navPoint id=\"n1\"><navLabel><text>\u{5377}\u{4e00} \u{8003}\u{57ce}\u{968d}</text></navLabel><content src=\"vol1.xhtml#c1\"/></navPoint>\
<navPoint id=\"n2\"><navLabel><text>\u{5377}\u{4e00} \u{8033}\u{4e2d}\u{4eba}</text></navLabel><content src=\"vol1.xhtml#c2\"/></navPoint>\
</navMap></ncx>",
        ),
        ("OEBPS/vol1.xhtml", shared),
    ];
    let book = epub_to_book(&build_zip(&entries))
        .expect("the epub should be parsed to a book without error");
    assert_eq!("\u{804a}\u{658b}\u{5fd7}\u{5f02}\u{767d}\u{8bdd}\u{6587}", &book.title);
    assert_eq!(
        Some("\u{84b2}\u{677e}\u{9f84}".to_string()),
        book.author
    );
    assert_eq!(2, book.chapters.len());
    assert_eq!("\u{5377}\u{4e00} \u{8003}\u{57ce}\u{968d}", book.chapters[0].title);
    assert!(book.chapters[0]
        .text
        .starts_with("\u{5377}\u{4e00} \u{8003}\u{57ce}\u{968d} \u{6211}\u{59d0}\u{592b}\u{7684}\u{7956}\u{7236}"));
    assert!(!book.chapters[0].text.contains("\u{8c2d}\u{664b}\u{7384}"));
    assert!(book.chapters[1]
        .text
        .starts_with("\u{5377}\u{4e00} \u{8033}\u{4e2d}\u{4eba} \u{8c2d}\u{664b}\u{7384}"));
}

#[test]
fn shared_file_split_across_two_anchored_chapters() {
    // one spine item matches two nav points that carve the same file up
    // by anchors: each chapter gets exactly its slice
    let entries = [
        ("META-INF/container.xml", CONTAINER),
        (
            "OEBPS/content.opf",
            "<?xml version=\"1.0\"?><package><metadata><title>T</title><language>en</language></metadata><manifest><item id=\"ncx\" href=\"toc.ncx\" media-type=\"application/x-dtbncx+xml\"/><item id=\"d\" href=\"dual.xhtml\" media-type=\"application/xhtml+xml\"/></manifest><spine><itemref idref=\"d\"/></spine></package>",
        ),
        (
            "OEBPS/toc.ncx",
            "<?xml version=\"1.0\"?><ncx><head><meta name=\"dtb:depth\" content=\"1\"/></head><navMap>\
<navPoint id=\"n1\"><navLabel><text>First</text></navLabel><content src=\"dual.xhtml#a\"/></navPoint>\
<navPoint id=\"n2\"><navLabel><text>Second</text></navLabel><content src=\"dual.xhtml#b\"/></navPoint>\
</navMap></ncx>",
        ),
        (
            "OEBPS/dual.xhtml",
            "<html><body><h1 id=\"a\">First</h1><p>first body</p><h1 id=\"b\">Second</h1><p>second body</p></body></html>",
        ),
    ];
    let book = epub_to_book(&build_zip(&entries)).unwrap();
    assert_eq!(2, book.chapters.len());
    assert_eq!("First first body", book.chapters[0].text);
    assert_eq!("Second second body", book.chapters[1].text);
}

#[test]
fn invalid_zip_is_zip_error() {
    let r = epub_to_book(b"this is not a zip archive");
    assert!(matches!(r, Err(ParseError::ZipError(ZipErrorKind::InvalidArchive))));
}

#[test]
fn missing_container_is_file_not_found() {
    let bytes = build_zip(&[("mimetype", "application/epub+zip")]);
    let r = epub_to_book(&bytes);
    assert!(matches!(r, Err(ParseError::ZipError(ZipErrorKind::FileNotFound))));
}

#[test]
fn malformed_container_error() {
    let bytes = build_zip(&[("META-INF/container.xml", "<container>nothing here</container>")]);
    let r = epub_to_book(&bytes);
    assert!(matches!(
        r,
        Err(ParseError::EpubError(MalformattedEpubError::MalformattedContainer))
    ));
}

#[test]
fn missing_title_is_malformed_opf() {
    let entries = [
        ("META-INF/container.xml", CONTAINER),
        (
            "OEBPS/content.opf",
            "<?xml version=\"1.0\"?><package><metadata><language>en</language></metadata><manifest/><spine/></package>",
        ),
    ];
    let r = epub_to_book(&build_zip(&entries));
    assert!(matches!(
        r,
        Err(ParseError::EpubError(MalformattedEpubError::MalformattedContentOpf))
    ));
}

#[test]
fn missing_ncx_entry_is_malformed_opf() {
    let entries = [
        ("META-INF/container.xml", CONTAINER),
        (
            "OEBPS/content.opf",
            "<?xml version=\"1.0\"?><package><metadata><title>T</title><language>en</language></metadata><manifest><item id=\"ch\" href=\"ch.xhtml\" media-type=\"application/xhtml+xml\"/></manifest><spine><itemref idref=\"ch\"/></spine></package>",
        ),
        ("OEBPS/ch.xhtml", "<html><body><p>x</p></body></html>"),
    ];
    let r = epub_to_book(&build_zip(&entries));
    assert!(matches!(
        r,
        Err(ParseError::EpubError(MalformattedEpubError::MalformattedContentOpf))
    ));
}

#[test]
fn duplicated_depth_is_malformed_ncx() {
    let entries = [
        ("META-INF/container.xml", CONTAINER),
        (
            "OEBPS/content.opf",
            "<?xml version=\"1.0\"?><package><metadata><title>T</title><language>en</language></metadata><manifest><item id=\"ncx\" href=\"toc.ncx\" media-type=\"application/x-dtbncx+xml\"/></manifest><spine/></package>",
        ),
        (
            "OEBPS/toc.ncx",
            "<?xml version=\"1.0\"?><ncx><head><meta name=\"dtb:depth\" content=\"1\"/><meta name=\"dtb:depth\" content=\"2\"/></head><navMap/></ncx>",
        ),
    ];
    let r = epub_to_book(&build_zip(&entries));
    match r {
        Err(ParseError::EpubError(MalformattedEpubError::MalformattedTocNcx(m))) => {
            assert_eq!("Depth info missing or duplicated", m);
        }
        other => panic!("unexpected result: {:?}", other),
    }
}

#[test]
fn empty_nav_map_is_rejected() {
    let entries = [
        ("META-INF/container.xml", CONTAINER),
        (
            "OEBPS/content.opf",
            "<?xml version=\"1.0\"?><package><metadata><title>T</title><language>en</language></metadata><manifest><item id=\"ncx\" href=\"toc.ncx\" media-type=\"application/x-dtbncx+xml\"/></manifest><spine/></package>",
        ),
        (
            "OEBPS/toc.ncx",
            "<?xml version=\"1.0\"?><ncx><head><meta name=\"dtb:depth\" content=\"1\"/></head><navMap/></ncx>",
        ),
    ];
    let r = epub_to_book(&build_zip(&entries));
    match r {
        Err(ParseError::EpubError(MalformattedEpubError::MalformattedTocNcx(m))) => {
            assert_eq!("No nav points", m);
        }
        other => panic!("unexpected result: {:?}", other),
    }
}

#[test]
fn toc_file_absent_from_manifest_error() {
    // the nav point references a content file the manifest does not pool
    let entries = [
        ("META-INF/container.xml", CONTAINER),
        (
            "OEBPS/content.opf",
            "<?xml version=\"1.0\"?><package><metadata><title>T</title><language>en</language></metadata><manifest><item id=\"ncx\" href=\"toc.ncx\" media-type=\"application/x-dtbncx+xml\"/><item id=\"ch\" href=\"ghost.xhtml\" media-type=\"text/plain\"/></manifest><spine><itemref idref=\"ch\"/></spine></package>",
        ),
        (
            "OEBPS/toc.ncx",
            "<?xml version=\"1.0\"?><ncx><head><meta name=\"dtb:depth\" content=\"1\"/></head><navMap><navPoint id=\"n1\"><navLabel><text>G</text></navLabel><content src=\"ghost.xhtml\"/></navPoint></navMap></ncx>",
        ),
    ];
    let r = epub_to_book(&build_zip(&entries));
    match r {
        Err(ParseError::EpubError(MalformattedEpubError::MalformattedTocNcx(m))) => {
            assert_eq!("File ghost.xhtml in TOC, but not in Manifest", m);
        }
        other => panic!("unexpected result: {:?}", other),
    }
}

#[test]
fn spine_id_not_in_manifest_is_malformed_opf() {
    let entries = [
        ("META-INF/container.xml", CONTAINER),
        (
            "OEBPS/content.opf",
            "<?xml version=\"1.0\"?><package><metadata><title>T</title><language>en</language></metadata><manifest><item id=\"ncx\" href=\"toc.ncx\" media-type=\"application/x-dtbncx+xml\"/><item id=\"ch\" href=\"ch.xhtml\" media-type=\"application/xhtml+xml\"/></manifest><spine><itemref idref=\"missing\"/></spine></package>",
        ),
        (
            "OEBPS/toc.ncx",
            "<?xml version=\"1.0\"?><ncx><head><meta name=\"dtb:depth\" content=\"1\"/></head><navMap><navPoint id=\"n1\"><navLabel><text>C</text></navLabel><content src=\"ch.xhtml\"/></navPoint></navMap></ncx>",
        ),
        ("OEBPS/ch.xhtml", "<html><body><p>x</p></body></html>"),
    ];
    let r = epub_to_book(&build_zip(&entries));
    assert!(matches!(
        r,
        Err(ParseError::EpubError(MalformattedEpubError::MalformattedContentOpf))
    ));
}

#[test]
fn malformed_chapter_html_error() {
    let entries = [
        ("META-INF/container.xml", CONTAINER),
        (
            "OEBPS/content.opf",
            "<?xml version=\"1.0\"?><package><metadata><title>T</title><language>en</language></metadata><manifest><item id=\"ncx\" href=\"toc.ncx\" media-type=\"application/x-dtbncx+xml\"/><item id=\"ch\" href=\"ch.xhtml\" media-type=\"application/xhtml+xml\"/></manifest><spine><itemref idref=\"ch\"/></spine></package>",
        ),
        (
            "OEBPS/toc.ncx",
            "<?xml version=\"1.0\"?><ncx><head><meta name=\"dtb:depth\" content=\"1\"/></head><navMap><navPoint id=\"n1\"><navLabel><text>C</text></navLabel><content src=\"ch.xhtml\"/></navPoint></navMap></ncx>",
        ),
        ("OEBPS/ch.xhtml", "<html><body><p>unclosed"),
    ];
    let r = epub_to_book(&build_zip(&entries));
    match r {
        Err(ParseError::EpubError(MalformattedEpubError::MalformattedHTML(f, cause))) => {
            assert_eq!("ch.xhtml", f);
            assert!(!cause.is_empty());
        }
        other => panic!("unexpected result: {:?}", other),
    }
}

#[test]
fn undecodable_entry_is_invalid_text() {
    let mut w = zip::ZipWriter::new(Cursor::new(Vec::new()));
    let opts = zip::write::FileOptions::default()
        .compression_method(zip::CompressionMethod::Stored);
    w.start_file("META-INF/container.xml", opts).unwrap();
    w.write_all(&[0xff, 0xfe, 0x80, 0x80]).unwrap();
    let bytes = w.finish().unwrap().into_inner();
    let r = epub_to_book(&bytes);
    assert!(matches!(r, Err(ParseError::ZipError(ZipErrorKind::InvalidText))));
}
