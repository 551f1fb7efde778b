//! The package parser: locating the package document through
//! `container.xml`, and parsing it into title, author, language, manifest
//! and spine.

use vstd::prelude::*;
use crate::xml::{
    XmlNode, XmlElement, attr_lookup, spec_get_child, spec_get_text, get_attr, get_child,
    get_text, parse_xml_tree, xml_tree_of,
};
use crate::strutil::str_eq;

verus! {

/// The id of a manifest item, as the spine references it.
pub type ItemId = String;

/// One resource of the package: its id, its path relative to the package
/// document directory, its media type and its optional properties.
pub struct ManifestItem {
    pub id: String,
    pub href: String,
    pub media_type: String,
    pub properties: Option<String>,
}

/// The registry of every resource in the package.
pub type Manifest = Vec<ManifestItem>;

/// The linear reading order: manifest item ids, duplicates permitted.
pub type Spine = Vec<ItemId>;

/// The parsed package document.
pub struct ContentOPF {
    pub title: String,
    pub author: Option<String>,
    pub language: String,
    pub manifest: Manifest,
    pub spine: Spine,
}

/// The model of one manifest item.
pub struct ItemV {
    pub id: Seq<char>,
    pub href: Seq<char>,
    pub media_type: Seq<char>,
    pub properties: Option<Seq<char>>,
}

/// The model of the parsed package document.
pub struct OpfV {
    pub title: Seq<char>,
    pub author: Option<Seq<char>>,
    pub language: Seq<char>,
    pub manifest: Seq<ItemV>,
    pub spine: Seq<Seq<char>>,
}

impl View for ManifestItem {
    type V = ItemV;

    open spec fn view(&self) -> ItemV {
        ItemV {
            id: self.id@,
            href: self.href@,
            media_type: self.media_type@,
            properties: self.properties.deep_view(),
        }
    }
}

/// The items of a manifest, each viewed as its model.
pub open spec fn view_items(items: Seq<ManifestItem>) -> Seq<ItemV> {
    items.map_values(|it: ManifestItem| it@)
}

impl View for ContentOPF {
    type V = OpfV;

    open spec fn view(&self) -> OpfV {
        OpfV {
            title: self.title@,
            author: self.author.deep_view(),
            language: self.language@,
            manifest: view_items(self.manifest@),
            spine: self.spine.deep_view(),
        }
    }
}

/// The manifest item with the given id; where several share it, the last
/// one registered wins.
pub open spec fn manifest_lookup(m: Seq<ItemV>, id: Seq<char>) -> Option<ItemV>
    decreases m.len(),
{
    if m.len() == 0 {
        None
    } else if m.last().id == id {
        Some(m.last())
    } else {
        manifest_lookup(m.drop_last(), id)
    }
}

/// Finds the manifest item with the given id.
pub fn manifest_get<'a>(m: &'a Manifest, id: &str) -> (r: Option<&'a ManifestItem>)
    ensures
        match r {
            Some(it) => manifest_lookup(view_items(m@), id@) == Some(it@),
            None => manifest_lookup(view_items(m@), id@) is None,
        },
{
    let n = m.len();
    let mut k: usize = n;
    proof {
        assert(view_items(m@).subrange(0, n as int) =~= view_items(m@));
    }
    while k > 0
        invariant
            n == m.len(),
            k <= n,
            view_items(m@).len() == n,
            manifest_lookup(view_items(m@), id@) == manifest_lookup(
                view_items(m@).subrange(0, k as int),
                id@,
            ),
        decreases k,
    {
        proof {
            let mv = view_items(m@);
            assert(mv.subrange(0, k as int).last() == mv[k - 1]);
            assert(mv.subrange(0, k as int).drop_last() =~= mv.subrange(0, k - 1));
            assert(mv[k - 1] == m@[k - 1]@);
        }
        if str_eq(m[k - 1].id.as_str(), id) {
            return Some(&m[k - 1]);
        }
        k = k - 1;
    }
    proof {
        assert(view_items(m@).subrange(0, 0) =~= Seq::<ItemV>::empty());
    }
    None
}

/// The manifest entry an `item` element contributes: one item where it
/// carries id, href and media-type, and nothing where any is missing.
pub open spec fn manifest_entry(n: XmlNode) -> Seq<ItemV> {
    match n {
        XmlNode::Element(e) => {
            if e.name@ == "item"@ && attr_lookup(e.attrs@, "id"@) is Some && attr_lookup(
                e.attrs@,
                "href"@,
            ) is Some && attr_lookup(e.attrs@, "media-type"@) is Some {
                seq![
                    ItemV {
                        id: attr_lookup(e.attrs@, "id"@)->0,
                        href: attr_lookup(e.attrs@, "href"@)->0,
                        media_type: attr_lookup(e.attrs@, "media-type"@)->0,
                        properties: attr_lookup(e.attrs@, "properties"@),
                    },
                ]
            } else {
                Seq::empty()
            }
        },
        _ => Seq::empty(),
    }
}

/// The manifest that the children of a `manifest` element yield, in
/// document order.
pub open spec fn spec_manifest(children: Seq<XmlNode>) -> Seq<ItemV>
    decreases children.len(),
{
    if children.len() == 0 {
        Seq::empty()
    } else {
        spec_manifest(children.drop_last()) + manifest_entry(children.last())
    }
}

/// Parses the children of a `manifest` element: every `item` with id, href
/// and media-type, in document order; items missing any are dropped.
pub fn parse_manifest(manifest_el: &XmlElement) -> (r: Manifest)
    ensures
        view_items(r@) == spec_manifest(manifest_el.children@),
{
    let mut items: Manifest = Vec::new();
    let n = manifest_el.children.len();
    let mut i: usize = 0;
    proof {
        assert(manifest_el.children@.subrange(0, 0) =~= Seq::<XmlNode>::empty());
        assert(view_items(items@) =~= spec_manifest(manifest_el.children@.subrange(0, 0)));
    }
    while i < n
        invariant
            n == manifest_el.children.len(),
            i <= n,
            view_items(items@) == spec_manifest(manifest_el.children@.subrange(0, i as int)),
        decreases n - i,
    {
        let ghost pre = manifest_el.children@.subrange(0, i as int);
        let ghost cur = manifest_el.children@[i as int];
        proof {
            assert(manifest_el.children@.subrange(0, i + 1).drop_last() =~= pre);
            assert(manifest_el.children@.subrange(0, i + 1).last() == cur);
        }
        match &manifest_el.children[i] {
            XmlNode::Element(e) => {
                if str_eq(e.name.as_str(), "item") {
                    let id = get_attr(e, "id");
                    let href = get_attr(e, "href");
                    let mt = get_attr(e, "media-type");
                    match (id, href, mt) {
                        (Some(id), Some(href), Some(mt)) => {
                            let properties = match get_attr(e, "properties") {
                                Some(p) => Some(p.clone()),
                                None => None,
                            };
                            let it = ManifestItem {
                                id: id.clone(),
                                href: href.clone(),
                                media_type: mt.clone(),
                                properties,
                            };
                            proof {
                                assert(manifest_entry(cur) =~= seq![it@]);
                            }
                            items.push(it);
                            proof {
                                assert(view_items(items@) =~= spec_manifest(
                                    manifest_el.children@.subrange(0, i + 1),
                                ));
                            }
                        },
                        _ => {
                            proof {
                                assert(manifest_entry(cur) =~= Seq::<ItemV>::empty());
                                assert(view_items(items@) =~= spec_manifest(
                                    manifest_el.children@.subrange(0, i + 1),
                                ));
                            }
                        },
                    }
                } else {
                    proof {
                        assert(manifest_entry(cur) =~= Seq::<ItemV>::empty());
                        assert(view_items(items@) =~= spec_manifest(
                            manifest_el.children@.subrange(0, i + 1),
                        ));
                    }
                }
            },
            _ => {
                proof {
                    assert(manifest_entry(cur) =~= Seq::<ItemV>::empty());
                    assert(view_items(items@) =~= spec_manifest(
                        manifest_el.children@.subrange(0, i + 1),
                    ));
                }
            },
        }
        i = i + 1;
    }
    proof {
        assert(manifest_el.children@.subrange(0, n as int) =~= manifest_el.children@);
    }
    items
}

/// The spine entry an `itemref` element contributes: its idref, where it
/// carries one.
pub open spec fn spine_entry(n: XmlNode) -> Seq<Seq<char>> {
    match n {
        XmlNode::Element(e) => {
            if e.name@ == "itemref"@ && attr_lookup(e.attrs@, "idref"@) is Some {
                seq![attr_lookup(e.attrs@, "idref"@)->0]
            } else {
                Seq::empty()
            }
        },
        _ => Seq::empty(),
    }
}

/// The reading order that the children of a `spine` element yield, in
/// document order.
pub open spec fn spec_spine(children: Seq<XmlNode>) -> Seq<Seq<char>>
    decreases children.len(),
{
    if children.len() == 0 {
        Seq::empty()
    } else {
        spec_spine(children.drop_last()) + spine_entry(children.last())
    }
}

/// Parses the children of a `spine` element: every `itemref`'s idref, in
/// document order, which is the reading order.
pub fn parse_spine(spine_el: &XmlElement) -> (r: Option<Spine>)
    ensures
        r is Some,
        r->0.deep_view() == spec_spine(spine_el.children@),
{
    let mut ids: Spine = Vec::new();
    let n = spine_el.children.len();
    let mut i: usize = 0;
    proof {
        assert(spine_el.children@.subrange(0, 0) =~= Seq::<XmlNode>::empty());
        assert(ids.deep_view() =~= spec_spine(spine_el.children@.subrange(0, 0)));
    }
    while i < n
        invariant
            n == spine_el.children.len(),
            i <= n,
            ids.deep_view() == spec_spine(spine_el.children@.subrange(0, i as int)),
        decreases n - i,
    {
        let ghost pre = spine_el.children@.subrange(0, i as int);
        let ghost cur = spine_el.children@[i as int];
        proof {
            assert(spine_el.children@.subrange(0, i + 1).drop_last() =~= pre);
            assert(spine_el.children@.subrange(0, i + 1).last() == cur);
        }
        match &spine_el.children[i] {
            XmlNode::Element(e) => {
                if str_eq(e.name.as_str(), "itemref") {
                    match get_attr(e, "idref") {
                        Some(id) => {
                            ids.push(id.clone());
                            proof {
                                assert(spine_entry(cur) =~= seq![id@]);
                                assert(ids.deep_view() =~= spec_spine(
                                    spine_el.children@.subrange(0, i + 1),
                                ));
                            }
                        },
                        None => {
                            proof {
                                assert(spine_entry(cur) =~= Seq::<Seq<char>>::empty());
                                assert(ids.deep_view() =~= spec_spine(
                                    spine_el.children@.subrange(0, i + 1),
                                ));
                            }
                        },
                    }
                } else {
                    proof {
                        assert(spine_entry(cur) =~= Seq::<Seq<char>>::empty());
                        assert(ids.deep_view() =~= spec_spine(
                            spine_el.children@.subrange(0, i + 1),
                        ));
                    }
                }
            },
            _ => {
                proof {
                    assert(spine_entry(cur) =~= Seq::<Seq<char>>::empty());
                    assert(ids.deep_view() =~= spec_spine(spine_el.children@.subrange(0, i + 1)));
                }
            },
        }
        i = i + 1;
    }
    proof {
        assert(spine_el.children@.subrange(0, n as int) =~= spine_el.children@);
    }
    Some(ids)
}

/// What the author of the package is: the text of the first `creator`
/// element of the metadata, if any.
pub open spec fn spec_author(metadata: XmlElement) -> Option<Seq<char>> {
    match spec_get_child(metadata.children@, "creator"@) {
        None => None,
        Some(c) => spec_get_text(c),
    }
}

/// What parsing a package document yields: title, optional author and
/// language from the metadata, the manifest, and the spine; or nothing
/// where the document is not well-formed XML or a required part is absent.
pub open spec fn spec_content_opf(text: Seq<char>) -> Option<OpfV> {
    match xml_tree_of(text) {
        None => None,
        Some(pkg) => match spec_get_child(pkg.children@, "metadata"@) {
            None => None,
            Some(metadata) => match spec_get_child(pkg.children@, "manifest"@) {
                None => None,
                Some(manifest_el) => match spec_get_child(pkg.children@, "spine"@) {
                    None => None,
                    Some(spine_el) => match spec_get_child(metadata.children@, "title"@) {
                        None => None,
                        Some(title_el) => match spec_get_text(title_el) {
                            None => None,
                            Some(title) => match spec_get_child(metadata.children@, "language"@) {
                                None => None,
                                Some(lang_el) => match spec_get_text(lang_el) {
                                    None => None,
                                    Some(language) => Some(
                                        OpfV {
                                            title,
                                            author: spec_author(metadata),
                                            language,
                                            manifest: spec_manifest(manifest_el.children@),
                                            spine: spec_spine(spine_el.children@),
                                        },
                                    ),
                                },
                            },
                        },
                    },
                },
            },
        },
    }
}

/// Parses a package document: the title is required, the author is the
/// first `creator` element if any, the language is required, and manifest
/// and spine are taken in document order.
pub fn parse_content_opf(text: &str) -> (r: Option<ContentOPF>)
    ensures
        match r {
            Some(opf) => spec_content_opf(text@) == Some(opf@),
            None => spec_content_opf(text@) is None,
        },
{
    let tree = match parse_xml_tree(text) {
        Ok(t) => t,
        Err(_) => {
            return None;
        },
    };
    let metadata = match get_child(&tree, "metadata") {
        Some(e) => e,
        None => {
            return None;
        },
    };
    let manifest_el = match get_child(&tree, "manifest") {
        Some(e) => e,
        None => {
            return None;
        },
    };
    let spine_el = match get_child(&tree, "spine") {
        Some(e) => e,
        None => {
            return None;
        },
    };
    let title_el = match get_child(metadata, "title") {
        Some(e) => e,
        None => {
            return None;
        },
    };
    let title = match get_text(title_el) {
        Some(s) => s,
        None => {
            return None;
        },
    };
    let author = match get_child(metadata, "creator") {
        Some(e) => get_text(e),
        None => None,
    };
    let language_el = match get_child(metadata, "language") {
        Some(e) => e,
        None => {
            return None;
        },
    };
    let language = match get_text(language_el) {
        Some(s) => s,
        None => {
            return None;
        },
    };
    let manifest = parse_manifest(manifest_el);
    let spine = match parse_spine(spine_el) {
        Some(s) => s,
        None => {
            return None;
        },
    };
    Some(ContentOPF { title, author, language, manifest, spine })
}

/// What locating the package document in `container.xml` yields: the first
/// capture of the rootfile pattern, as the regex engine finds it.
pub open spec fn spec_rootfile_path(text: Seq<char>) -> Option<Seq<char>> {
    regex_capture_of("rootfile full-path=\"(\\S*)\""@, text)
}

/// Locates the package document path in the container document, through a
/// permissive pattern match rather than strict schema validation.
pub fn locate_rootfile(container_text: &str) -> (r: Option<String>)
    ensures
        match r {
            Some(p) => spec_rootfile_path(container_text@) == Some(p@),
            None => spec_rootfile_path(container_text@) is None,
        },
{
    regex_capture_first("rootfile full-path=\"(\\S*)\"", container_text)
}

/// The first capture group of the first match of the pattern on the text,
/// as the `regex` crate finds it. The result depends on the two texts
/// alone.
pub uninterp spec fn regex_capture_of(pattern: Seq<char>, text: Seq<char>) -> Option<Seq<char>>;

/// Relies on `regex::Regex::new` and `regex::Regex::captures`: finds the
/// first match of the pattern in the text and hands back the text of its
/// first capture group.
#[verifier::external_body]
fn regex_capture_first(pattern: &str, text: &str) -> (r: Option<String>)
    ensures
        match r {
            Some(p) => regex_capture_of(pattern@, text@) == Some(p@),
            None => regex_capture_of(pattern@, text@) is None,
        },
{
    let re = match regex::Regex::new(pattern) {
        Ok(re) => re,
        Err(_) => return None,
    };
    re.captures(text).and_then(|c| c.get(1)).map(|m| m.as_str().to_string())
}

} // verus!
