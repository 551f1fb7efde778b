use epubparse::package::locate_rootfile;
use epubparse::package::parse_content_opf;
use epubparse::ncx::parse_ncx;
use epubparse::errors::MalformattedEpubError;

#[test]
fn locate_rootfile_finds_path() {
    let text = "<?xml version=\"1.0\"?><container><rootfiles><rootfile full-path=\"OEBPS/content.opf\" media-type=\"application/oebps-package+xml\"/></rootfiles></container>";
    assert_eq!(Some("OEBPS/content.opf".to_string()), locate_rootfile(text));
}

#[test]
fn locate_rootfile_rejects_missing_declaration() {
    assert_eq!(None, locate_rootfile("<container>no rootfile here</container>"));
}

#[test]
fn parse_content_opf_extracts_fields() {
    let opf = "<?xml version=\"1.0\"?><package>\
<metadata><title>A Book</title><creator>Someone</creator><language>en</language></metadata>\
<manifest>\
<item id=\"ncx\" href=\"toc.ncx\" media-type=\"application/x-dtbncx+xml\"/>\
<item id=\"one\" href=\"one.xhtml\" media-type=\"application/xhtml+xml\"/>\
<item href=\"missing-id.xhtml\" media-type=\"application/xhtml+xml\"/>\
<item id=\"no-media\" href=\"x.xhtml\"/>\
</manifest>\
<spine><itemref idref=\"one\"/><itemref/><itemref idref=\"one\"/></spine>\
</package>";
    let parsed = parse_content_opf(opf).unwrap();
    assert_eq!("A Book", &parsed.title);
    assert_eq!(Some("Someone".to_string()), parsed.author);
    assert_eq!("en", &parsed.language);
    // items missing id or media-type are dropped, not fatal
    assert_eq!(2, parsed.manifest.len());
    assert_eq!("ncx", &parsed.manifest[0].id);
    assert_eq!("one", &parsed.manifest[1].id);
    assert_eq!("one.xhtml", &parsed.manifest[1].href);
    // itemrefs without idref are dropped; duplicates are kept in order
    assert_eq!(vec!["one".to_string(), "one".to_string()], parsed.spine);
}

#[test]
fn manifest_lookup_last_entry_wins() {
    let opf = "<?xml version=\"1.0\"?><package>\
<metadata><title>T</title><language>en</language></metadata>\
<manifest>\
<item id=\"dup\" href=\"first.xhtml\" media-type=\"application/xhtml+xml\"/>\
<item id=\"dup\" href=\"second.xhtml\" media-type=\"application/xhtml+xml\"/>\
</manifest>\
<spine/></package>";
    let parsed = parse_content_opf(opf).unwrap();
    let item = epubparse::package::manifest_get(&parsed.manifest, "dup").unwrap();
    assert_eq!("second.xhtml", &item.href);
    assert!(epubparse::package::manifest_get(&parsed.manifest, "absent").is_none());
}

#[test]
fn parse_content_opf_requires_title() {
    let opf = "<?xml version=\"1.0\"?><package><metadata><language>en</language></metadata><manifest/><spine/></package>";
    assert!(parse_content_opf(opf).is_none());
}

#[test]
fn parse_ncx_tolerates_unparsable_play_order() {
    let ncx = "<?xml version=\"1.0\"?><ncx><head><meta name=\"dtb:depth\" content=\"2\"/></head>\
<navMap><navPoint id=\"n1\" playOrder=\"first\"><navLabel><text>One</text></navLabel><content src=\"a.xhtml\"/></navPoint></navMap></ncx>";
    let toc = parse_ncx(ncx).unwrap();
    assert_eq!(2, toc.depth);
    assert_eq!(1, toc.nav_points.len());
    assert_eq!(None, toc.nav_points[0].play_order);
    assert_eq!(1, toc.nav_points[0].level);
    assert_eq!("a.xhtml", &toc.nav_points[0].src);
}

#[test]
fn parse_ncx_fails_on_nav_point_without_id() {
    let ncx = "<?xml version=\"1.0\"?><ncx><head><meta name=\"dtb:depth\" content=\"1\"/></head>\
<navMap><navPoint><navLabel><text>One</text></navLabel><content src=\"a.xhtml\"/></navPoint></navMap></ncx>";
    match parse_ncx(ncx) {
        Err(MalformattedEpubError::MalformattedTocNcx(m)) => {
            assert_eq!("Could not parse NavPoints", m);
        }
        other => panic!("unexpected result: {:?}", other),
    }
}

#[test]
fn parse_ncx_nested_levels() {
    let ncx = "<?xml version=\"1.0\"?><ncx><head><meta name=\"dtb:depth\" content=\"2\"/></head>\
<navMap><navPoint id=\"n1\"><navLabel><text>One</text></navLabel><content src=\"a.xhtml\"/>\
<navPoint id=\"n2\"><navLabel><text>Two</text></navLabel><content src=\"a.xhtml#s2\"/></navPoint>\
</navPoint></navMap></ncx>";
    let toc = parse_ncx(ncx).unwrap();
    assert_eq!(1, toc.nav_points.len());
    assert_eq!(1, toc.nav_points[0].children.len());
    assert_eq!(2, toc.nav_points[0].children[0].level);
    let flat = toc.get_flattened_nav_points();
    assert_eq!(2, flat.len());
    assert_eq!("n1", &flat[0].id);
    assert_eq!("n2", &flat[1].id);
}
