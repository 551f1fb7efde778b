//! The library's own model of a parsed XML document: a tree of elements,
//! text nodes and CData nodes, with attributes in document order.
//!
//! Building the tree from raw text is delegated to the `xmltree` crate
//! behind a small trusted boundary; everything that reads the tree is
//! verified code in this module.

use vstd::prelude::*;
use vstd::string::StrSliceExecFns;
use crate::strutil::str_eq;

verus! {

/// One node of a parsed XML document.
pub enum XmlNode {
    Element(XmlElement),
    Text(String),
    CData(String),
    /// Comments and processing instructions, which carry no text content.
    Other,
}

/// One element: its tag name, its attributes in document order, and its
/// child nodes in document order.
pub struct XmlElement {
    pub name: String,
    pub attrs: Vec<(String, String)>,
    pub children: Vec<XmlNode>,
}

/// The first value bound to `key`, scanning the attribute list in order.
pub open spec fn attr_lookup(attrs: Seq<(String, String)>, key: Seq<char>) -> Option<Seq<char>>
    decreases attrs.len(),
{
    if attrs.len() == 0 {
        None
    } else if attrs[0].0@ == key {
        Some(attrs[0].1@)
    } else {
        attr_lookup(attrs.drop_first(), key)
    }
}

/// The first child element carrying the given tag name, as
/// `xmltree::Element::get_child` finds it.
pub open spec fn spec_get_child(children: Seq<XmlNode>, name: Seq<char>) -> Option<XmlElement>
    decreases children.len(),
{
    if children.len() == 0 {
        None
    } else {
        match children[0] {
            XmlNode::Element(e) => if e.name@ == name {
                Some(e)
            } else {
                spec_get_child(children.drop_first(), name)
            },
            _ => spec_get_child(children.drop_first(), name),
        }
    }
}

/// The contents of the direct text and CData children, in order.
pub open spec fn text_parts(children: Seq<XmlNode>) -> Seq<Seq<char>>
    decreases children.len(),
{
    if children.len() == 0 {
        Seq::empty()
    } else {
        (match children[0] {
            XmlNode::Text(s) => seq![s@],
            XmlNode::CData(s) => seq![s@],
            _ => Seq::<Seq<char>>::empty(),
        }) + text_parts(children.drop_first())
    }
}

/// All parts concatenated.
pub open spec fn concat_parts(parts: Seq<Seq<char>>) -> Seq<char>
    decreases parts.len(),
{
    if parts.len() == 0 {
        Seq::empty()
    } else {
        parts[0] + concat_parts(parts.drop_first())
    }
}

/// The inner text of an element, as `xmltree::Element::get_text`: the
/// concatenation of its direct text and CData children, or `None` if it
/// has none.
pub open spec fn spec_get_text(e: XmlElement) -> Option<Seq<char>> {
    if text_parts(e.children@).len() == 0 {
        None
    } else {
        Some(concat_parts(text_parts(e.children@)))
    }
}

/// The named anchor of an element: its `id` attribute, except that on an
/// `a` tag a `name` attribute takes precedence.
pub open spec fn spec_named_anchor(e: XmlElement) -> Option<Seq<char>> {
    if e.name@ == "a"@ && attr_lookup(e.attrs@, "name"@) is Some {
        attr_lookup(e.attrs@, "name"@)
    } else {
        attr_lookup(e.attrs@, "id"@)
    }
}

/// Looks an attribute up by key, in document order.
pub fn get_attr<'a>(e: &'a XmlElement, key: &str) -> (r: Option<&'a String>)
    ensures
        match r {
            Some(v) => attr_lookup(e.attrs@, key@) == Some(v@),
            None => attr_lookup(e.attrs@, key@) is None,
        },
{
    let n = e.attrs.len();
    let mut i: usize = 0;
    proof {
        assert(e.attrs@.skip(0) =~= e.attrs@);
    }
    while i < n
        invariant
            n == e.attrs.len(),
            i <= n,
            attr_lookup(e.attrs@, key@) == attr_lookup(e.attrs@.skip(i as int), key@),
        decreases n - i,
    {
        proof {
            let rest = e.attrs@.skip(i as int);
            assert(rest[0] == e.attrs@[i as int]);
            assert(rest.drop_first() =~= e.attrs@.skip(i + 1));
        }
        if str_eq(e.attrs[i].0.as_str(), key) {
            return Some(&e.attrs[i].1);
        }
        i = i + 1;
    }
    proof {
        assert(e.attrs@.skip(n as int) =~= Seq::<(String, String)>::empty());
    }
    None
}

/// Finds the first child element with the given tag name.
pub fn get_child<'a>(e: &'a XmlElement, name: &str) -> (r: Option<&'a XmlElement>)
    ensures
        match r {
            Some(c) => spec_get_child(e.children@, name@) == Some(*c),
            None => spec_get_child(e.children@, name@) is None,
        },
{
    let n = e.children.len();
    let mut i: usize = 0;
    proof {
        assert(e.children@.skip(0) =~= e.children@);
    }
    while i < n
        invariant
            n == e.children.len(),
            i <= n,
            spec_get_child(e.children@, name@) == spec_get_child(
                e.children@.skip(i as int),
                name@,
            ),
        decreases n - i,
    {
        proof {
            let rest = e.children@.skip(i as int);
            assert(rest[0] == e.children@[i as int]);
            assert(rest.drop_first() =~= e.children@.skip(i + 1));
        }
        match &e.children[i] {
            XmlNode::Element(c) => {
                if str_eq(c.name.as_str(), name) {
                    return Some(c);
                }
            },
            _ => {},
        }
        i = i + 1;
    }
    proof {
        assert(e.children@.skip(n as int) =~= Seq::<XmlNode>::empty());
    }
    None
}

proof fn lemma_text_parts_single(x: XmlNode)
    ensures
        x matches XmlNode::Text(s) ==> text_parts(seq![x]) == seq![s@],
        x matches XmlNode::CData(s) ==> text_parts(seq![x]) == seq![s@],
        !(x is Text) && !(x is CData) ==> text_parts(seq![x]) == Seq::<Seq<char>>::empty(),
{
    assert(seq![x][0] == x);
    assert(seq![x].drop_first() =~= Seq::<XmlNode>::empty());
    assert(text_parts(Seq::<XmlNode>::empty()) == Seq::<Seq<char>>::empty());
    match x {
        XmlNode::Text(s) => {
            assert(text_parts(seq![x]) =~= seq![s@]);
        },
        XmlNode::CData(s) => {
            assert(text_parts(seq![x]) =~= seq![s@]);
        },
        _ => {
            assert(text_parts(seq![x]) =~= Seq::<Seq<char>>::empty());
        },
    }
}

proof fn lemma_text_parts_snoc(children: Seq<XmlNode>, x: XmlNode)
    ensures
        text_parts(children.push(x)) == text_parts(children) + text_parts(seq![x]),
    decreases children.len(),
{
    lemma_text_parts_single(x);
    let p = children.push(x);
    if children.len() == 0 {
        assert(p.drop_first() =~= Seq::<XmlNode>::empty());
        assert(p[0] == x);
        assert(text_parts(Seq::<XmlNode>::empty()) == Seq::<Seq<char>>::empty());
        assert(text_parts(p) =~= text_parts(children) + text_parts(seq![x]));
    } else {
        assert(p[0] == children[0]);
        assert(p.drop_first() =~= children.drop_first().push(x));
        lemma_text_parts_snoc(children.drop_first(), x);
        assert(text_parts(p) =~= text_parts(children) + text_parts(seq![x]));
    }
}

proof fn lemma_concat_parts_snoc(parts: Seq<Seq<char>>, x: Seq<char>)
    ensures
        concat_parts(parts.push(x)) == concat_parts(parts) + x,
    decreases parts.len(),
{
    let p = parts.push(x);
    if parts.len() == 0 {
        assert(p.drop_first() =~= Seq::<Seq<char>>::empty());
        assert(p[0] == x);
        assert(concat_parts(Seq::<Seq<char>>::empty()) == Seq::<char>::empty());
        assert(concat_parts(p) =~= concat_parts(parts) + x);
    } else {
        assert(p[0] == parts[0]);
        assert(p.drop_first() =~= parts.drop_first().push(x));
        lemma_concat_parts_snoc(parts.drop_first(), x);
        assert(concat_parts(p) =~= concat_parts(parts) + x);
    }
}

/// Returns the inner text of an element, as `xmltree::Element::get_text`.
pub fn get_text(e: &XmlElement) -> (r: Option<String>)
    ensures
        match r {
            Some(s) => spec_get_text(*e) == Some(s@),
            None => spec_get_text(*e) is None,
        },
{
    let n = e.children.len();
    let mut acc = String::new();
    let mut found = false;
    let mut i: usize = 0;
    while i < n
        invariant
            n == e.children.len(),
            i <= n,
            found == (text_parts(e.children@.subrange(0, i as int)).len() > 0),
            acc@ == concat_parts(text_parts(e.children@.subrange(0, i as int))),
        decreases n - i,
    {
        proof {
            let pre = e.children@.subrange(0, i as int);
            assert(pre.push(e.children@[i as int]) =~= e.children@.subrange(0, i + 1));
            lemma_text_parts_snoc(pre, e.children@[i as int]);
            lemma_text_parts_single(e.children@[i as int]);
        }
        match &e.children[i] {
            XmlNode::Text(s) => {
                proof {
                    let pre = e.children@.subrange(0, i as int);
                    assert(text_parts(pre) + seq![s@] =~= text_parts(pre).push(s@));
                    lemma_concat_parts_snoc(text_parts(pre), s@);
                }
                vstd::string::StringExecFns::append(&mut acc, s.as_str());
                found = true;
            },
            XmlNode::CData(s) => {
                proof {
                    let pre = e.children@.subrange(0, i as int);
                    assert(text_parts(pre) + seq![s@] =~= text_parts(pre).push(s@));
                    lemma_concat_parts_snoc(text_parts(pre), s@);
                }
                vstd::string::StringExecFns::append(&mut acc, s.as_str());
                found = true;
            },
            _ => {
                proof {
                    let pre = e.children@.subrange(0, i as int);
                    assert(text_parts(pre) + Seq::<Seq<char>>::empty() =~= text_parts(pre));
                }
            },
        }
        i = i + 1;
    }
    proof {
        assert(e.children@.subrange(0, n as int) =~= e.children@);
    }
    if found {
        Some(acc)
    } else {
        None
    }
}

/// Returns the named anchor of an element, if it has one.
pub fn get_named_anchor<'a>(e: &'a XmlElement) -> (r: Option<&'a String>)
    ensures
        match r {
            Some(v) => spec_named_anchor(*e) == Some(v@),
            None => spec_named_anchor(*e) is None,
        },
{
    if str_eq(e.name.as_str(), "a") {
        let byname = get_attr(e, "name");
        match byname {
            Some(v) => {
                return Some(v);
            },
            None => {},
        }
    }
    get_attr(e, "id")
}

#[verifier::external_type_specification]
#[verifier::external_body]
pub struct ExXmltreeElement(xmltree::Element);

#[verifier::external_type_specification]
#[verifier::external_body]
pub struct ExXmltreeNode(xmltree::XMLNode);

/// What `xmltree::Element::parse` yields on this text: the tree converted
/// node for node into the library's own model, or, where the text is not
/// well-formed XML, the parser's description of the failure. The result
/// depends on the text alone.
pub uninterp spec fn xml_parse_of(s: Seq<char>) -> Result<XmlElement, Seq<char>>;

/// The parsed tree alone, where the text is well-formed XML.
pub open spec fn xml_tree_of(s: Seq<char>) -> Option<XmlElement> {
    match xml_parse_of(s) {
        Ok(e) => Some(e),
        Err(_) => None,
    }
}

/// Relies on `xmltree::Element::parse`: parses the text into a tree of
/// elements, attributes (in document order) and text nodes, failing on
/// malformed input with the parser's description.
#[verifier::external_body]
pub fn parse_xml_tree(text: &str) -> (r: Result<XmlElement, String>)
    ensures
        match r {
            Ok(e) => xml_parse_of(text@) == Ok::<XmlElement, Seq<char>>(e),
            Err(m) => xml_parse_of(text@) == Err::<XmlElement, Seq<char>>(m@),
        },
{
    match xmltree::Element::parse(text.as_bytes()) {
        Ok(e) => Ok(convert_element(e)),
        Err(err) => Err(format!("{}", err)),
    }
}

/// Relies on the public fields of `xmltree::Element`: moves the tag name,
/// the attribute pairs (in document order) and the children into the
/// library's own tree, one for one.
#[verifier::external_body]
fn convert_element(e: xmltree::Element) -> XmlElement {
    XmlElement {
        name: e.name,
        attrs: e.attributes.into_iter().collect(),
        children: e.children.into_iter().map(convert_node).collect(),
    }
}

/// Relies on the variants of `xmltree::XMLNode`: maps each to the library's
/// own node kind, one arm each, moving the fields.
#[verifier::external_body]
fn convert_node(n: xmltree::XMLNode) -> XmlNode {
    match n {
        xmltree::XMLNode::Element(e) => XmlNode::Element(convert_element(e)),
        xmltree::XMLNode::Text(s) => XmlNode::Text(s),
        xmltree::XMLNode::CData(s) => XmlNode::CData(s),
        _ => XmlNode::Other,
    }
}

} // verus!
