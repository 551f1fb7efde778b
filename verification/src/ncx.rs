//! The navigation parser: the NCX document's declared depth and its
//! ordered forest of navigation points.

use vstd::prelude::*;
use crate::xml::{
    XmlNode, XmlElement, attr_lookup, spec_get_child, spec_get_text, get_attr, get_child,
    get_text, parse_xml_tree, xml_tree_of,
};
use crate::strutil::{str_eq, parse_usize, parse_usize_spec};
use crate::errors::MalformattedEpubError;

verus! {

/// One table-of-contents entry: its id, optional label, optional play
/// order, nesting level (root is 1), source reference (a content path,
/// optionally suffixed with `#anchor`), and ordered children.
#[derive(Debug)]
pub struct NavPoint {
    pub id: String,
    pub label: Option<String>,
    pub play_order: Option<usize>,
    pub level: usize,
    pub src: String,
    pub children: Vec<NavPoint>,
}

/// The parsed navigation document: the declared maximum nesting depth and
/// the ordered forest of top-level navigation points.
#[derive(Debug)]
pub struct TocNcx {
    pub depth: usize,
    pub nav_points: Vec<NavPoint>,
}

/// The model of one navigation point.
pub struct NavPointV {
    pub id: Seq<char>,
    pub label: Option<Seq<char>>,
    pub play_order: Option<usize>,
    pub level: usize,
    pub src: Seq<char>,
    pub children: Seq<NavPointV>,
}

/// The model of the parsed navigation document.
pub struct TocV {
    pub depth: usize,
    pub nav_points: Seq<NavPointV>,
}

/// The model of a navigation point: its fields, with children modelled
/// recursively.
pub open spec fn nav_view(np: NavPoint) -> NavPointV
    decreases np,
{
    NavPointV {
        id: np.id@,
        label: np.label.deep_view(),
        play_order: np.play_order,
        level: np.level,
        src: np.src@,
        children: navs_view(np.children@),
    }
}

/// The models of a sequence of navigation points.
pub open spec fn navs_view(nps: Seq<NavPoint>) -> Seq<NavPointV>
    decreases nps,
{
    if nps.len() == 0 {
        Seq::empty()
    } else {
        seq![nav_view(nps[0])] + navs_view(nps.drop_first())
    }
}

impl View for NavPoint {
    type V = NavPointV;

    open spec fn view(&self) -> NavPointV {
        nav_view(*self)
    }
}

impl DeepView for NavPoint {
    type V = NavPointV;

    open spec fn deep_view(&self) -> NavPointV {
        nav_view(*self)
    }
}

impl View for TocNcx {
    type V = TocV;

    open spec fn view(&self) -> TocV {
        TocV { depth: self.depth, nav_points: navs_view(self.nav_points@) }
    }
}

/// The pre-order depth-first flattening of a navigation forest: each point
/// before its own children, siblings in order.
pub open spec fn flatten_navs(nps: Seq<NavPointV>) -> Seq<NavPointV>
    decreases nps,
{
    if nps.len() == 0 {
        Seq::empty()
    } else {
        (seq![nps[0]] + flatten_navs(nps[0].children)) + flatten_navs(nps.drop_first())
    }
}

/// The pre-order flattening of one subtree.
pub open spec fn flatten_nav(np: NavPointV) -> Seq<NavPointV> {
    seq![np] + flatten_navs(np.children)
}

/// The models of a concatenation are the concatenation of the models.
pub proof fn lemma_navs_view_concat(a: Seq<NavPoint>, b: Seq<NavPoint>)
    ensures
        navs_view(a + b) == navs_view(a) + navs_view(b),
    decreases a,
{
    if a.len() == 0 {
        assert(a + b =~= b);
        assert(navs_view(a) =~= Seq::<NavPointV>::empty());
        assert(navs_view(a) + navs_view(b) =~= navs_view(b));
    } else {
        assert((a + b)[0] == a[0]);
        assert((a + b).drop_first() =~= a.drop_first() + b);
        lemma_navs_view_concat(a.drop_first(), b);
        assert(navs_view(a + b) =~= navs_view(a) + navs_view(b));
    }
}

/// The flattening of a concatenation is the concatenation of the
/// flattenings.
pub proof fn lemma_flatten_concat(a: Seq<NavPointV>, b: Seq<NavPointV>)
    ensures
        flatten_navs(a + b) == flatten_navs(a) + flatten_navs(b),
    decreases a,
{
    if a.len() == 0 {
        assert(a + b =~= b);
        assert(flatten_navs(a) =~= Seq::<NavPointV>::empty());
        assert(flatten_navs(a) + flatten_navs(b) =~= flatten_navs(b));
    } else {
        assert((a + b)[0] == a[0]);
        assert((a + b).drop_first() =~= a.drop_first() + b);
        lemma_flatten_concat(a.drop_first(), b);
        assert(flatten_navs(a + b) =~= flatten_navs(a) + flatten_navs(b));
    }
}

impl TocNcx {
    /// Flattens the navigation forest by pre-order depth-first traversal:
    /// the universe of entries that spine content can be attributed to.
    pub fn get_flattened_nav_points<'a>(&'a self) -> (r: Vec<&'a NavPoint>)
        ensures
            r.deep_view() == flatten_navs(navs_view(self.nav_points@)),
    {
        let mut result: Vec<&NavPoint> = Vec::new();
        let n = self.nav_points.len();
        let mut i: usize = 0;
        proof {
            assert(navs_view(self.nav_points@.subrange(0, 0)) =~= Seq::<NavPointV>::empty());
            assert(flatten_navs(navs_view(self.nav_points@.subrange(0, 0)))
                =~= Seq::<NavPointV>::empty());
            assert(result.deep_view() =~= Seq::<NavPointV>::empty());
        }
        while i < n
            invariant
                n == self.nav_points.len(),
                i <= n,
                result.deep_view() == flatten_navs(navs_view(self.nav_points@.subrange(0, i as int))),
            decreases n - i,
        {
            self.add_dfs(&self.nav_points[i], &mut result);
            proof {
                lemma_navs_view_snoc(self.nav_points@.subrange(0, i as int), self.nav_points@[i as int]);
                assert(self.nav_points@.subrange(0, i as int).push(self.nav_points@[i as int])
                    =~= self.nav_points@.subrange(0, i + 1));
                lemma_flatten_concat(
                    navs_view(self.nav_points@.subrange(0, i as int)),
                    seq![nav_view(self.nav_points@[i as int])],
                );
                lemma_flatten_single(nav_view(self.nav_points@[i as int]));
            }
            i = i + 1;
        }
        proof {
            assert(self.nav_points@.subrange(0, n as int) =~= self.nav_points@);
        }
        result
    }

    /// Appends this subtree's points in pre-order: the point itself, then
    /// its children's subtrees in order.
    fn add_dfs<'a>(&self, nav_point: &'a NavPoint, result: &mut Vec<&'a NavPoint>)
        ensures
            final(result).deep_view() == old(result).deep_view() + flatten_nav(nav_view(
                *nav_point,
            )),
        decreases *nav_point,
    {
        result.push(nav_point);
        let n = nav_point.children.len();
        let mut i: usize = 0;
        proof {
            assert(result.deep_view() =~= old(result).deep_view() + seq![nav_view(*nav_point)]);
        }
        let ghost base = old(result).deep_view() + seq![nav_view(*nav_point)];
        while i < n
            invariant
                n == nav_point.children.len(),
                i <= n,
                result.deep_view() == base + flatten_navs(
                    navs_view(nav_point.children@.subrange(0, i as int)),
                ),
            decreases *nav_point, n - i,
        {
            proof {
                assert(flatten_navs(navs_view(nav_point.children@.subrange(0, 0)))
                    =~= Seq::<NavPointV>::empty());
            }
            self.add_dfs(&nav_point.children[i], result);
            proof {
                lemma_navs_view_snoc(
                    nav_point.children@.subrange(0, i as int),
                    nav_point.children@[i as int],
                );
                assert(nav_point.children@.subrange(0, i as int).push(
                    nav_point.children@[i as int],
                ) =~= nav_point.children@.subrange(0, i + 1));
                lemma_flatten_concat(
                    navs_view(nav_point.children@.subrange(0, i as int)),
                    seq![nav_view(nav_point.children@[i as int])],
                );
                lemma_flatten_single(nav_view(nav_point.children@[i as int]));
                assert(result.deep_view() =~= base + flatten_navs(
                    navs_view(nav_point.children@.subrange(0, i + 1)),
                ));
            }
            i = i + 1;
        }
        proof {
            assert(nav_point.children@.subrange(0, n as int) =~= nav_point.children@);
            assert(base + flatten_navs(navs_view(nav_point.children@)) =~= old(
                result,
            ).deep_view() + flatten_nav(nav_view(*nav_point)));
        }
    }
}

/// The label of a navigation point: the text under `navLabel/text`.
pub open spec fn nav_label(e: XmlElement) -> Option<Seq<char>> {
    match spec_get_child(e.children@, "navLabel"@) {
        None => None,
        Some(nl) => match spec_get_child(nl.children@, "text"@) {
            None => None,
            Some(t) => spec_get_text(t),
        },
    }
}

/// The play order of a navigation point: its `playOrder` attribute read as
/// a number; unparsable values count as absent.
pub open spec fn nav_play_order(e: XmlElement) -> Option<usize> {
    match attr_lookup(e.attrs@, "playOrder"@) {
        None => None,
        Some(po) => parse_usize_spec(po),
    }
}

/// The source of a navigation point: the `src` attribute of its `content`
/// child.
pub open spec fn nav_src(e: XmlElement) -> Option<Seq<char>> {
    match spec_get_child(e.children@, "content"@) {
        None => None,
        Some(c) => attr_lookup(c.attrs@, "src"@),
    }
}

/// What one child node contributes to a navigation forest: one point for a
/// `navPoint` element, nothing for anything else, and failure where a
/// `navPoint` misses its id or source or its own children fail.
pub open spec fn nav_entry(n: XmlNode, level: usize) -> Option<Seq<NavPointV>>
    decreases n,
{
    match n {
        XmlNode::Element(e) => {
            if e.name@ == "navPoint"@ {
                if level == usize::MAX {
                    None
                } else if attr_lookup(e.attrs@, "id"@) is None {
                    None
                } else if nav_src(e) is None {
                    None
                } else {
                    match spec_nav_points(e.children@, (level + 1) as usize) {
                        None => None,
                        Some(kids) => Some(
                            seq![
                                NavPointV {
                                    id: attr_lookup(e.attrs@, "id"@)->0,
                                    label: nav_label(e),
                                    play_order: nav_play_order(e),
                                    level: level,
                                    src: nav_src(e)->0,
                                    children: kids,
                                },
                            ],
                        ),
                    }
                }
            } else {
                Some(Seq::empty())
            }
        },
        _ => Some(Seq::empty()),
    }
}

/// The navigation forest that a sequence of child nodes yields: every
/// `navPoint` in document order, or failure where any of them fails.
pub open spec fn spec_nav_points(children: Seq<XmlNode>, level: usize) -> Option<Seq<NavPointV>>
    decreases children,
{
    if children.len() == 0 {
        Some(Seq::empty())
    } else {
        match (spec_nav_points(children.drop_last(), level), nav_entry(children.last(), level)) {
            (Some(init), Some(entry)) => Some(init + entry),
            _ => None,
        }
    }
}

/// A failed prefix fails the whole forest.
proof fn lemma_nav_points_prefix_none(children: Seq<XmlNode>, level: usize, k: int)
    requires
        0 <= k <= children.len(),
        spec_nav_points(children.subrange(0, k), level) is None,
    ensures
        spec_nav_points(children, level) is None,
    decreases children.len(),
{
    if k == children.len() {
        assert(children.subrange(0, k) =~= children);
    } else {
        assert(children.drop_last() =~= children.subrange(0, children.len() - 1));
        assert(children.subrange(0, children.len() - 1).subrange(0, k) =~= children.subrange(
            0,
            k,
        ));
        lemma_nav_points_prefix_none(children.subrange(0, children.len() - 1), level, k);
    }
}

/// Parses the `navPoint` children of an element into a navigation forest
/// at the given nesting level: each needs an id and a source; its label
/// and play order are optional; its children parse one level deeper. Any
/// failing `navPoint` fails the whole parse.
pub fn parse_nav_points(el: &XmlElement, level: usize) -> (r: Option<Vec<NavPoint>>)
    ensures
        match r {
            Some(v) => spec_nav_points(el.children@, level) == Some(navs_view(v@)),
            None => spec_nav_points(el.children@, level) is None,
        },
    decreases *el,
{
    let mut acc: Vec<NavPoint> = Vec::new();
    let n = el.children.len();
    let mut i: usize = 0;
    proof {
        assert(el.children@.subrange(0, 0) =~= Seq::<XmlNode>::empty());
        assert(navs_view(acc@) =~= Seq::<NavPointV>::empty());
    }
    while i < n
        invariant
            n == el.children.len(),
            i <= n,
            spec_nav_points(el.children@.subrange(0, i as int), level) == Some(navs_view(acc@)),
        decreases *el, n - i,
    {
        let ghost pre = el.children@.subrange(0, i as int);
        let ghost cur = el.children@[i as int];
        proof {
            assert(el.children@.subrange(0, i + 1).drop_last() =~= pre);
            assert(el.children@.subrange(0, i + 1).last() == cur);
        }
        match &el.children[i] {
            XmlNode::Element(e) => {
                if str_eq(e.name.as_str(), "navPoint") {
                    if level == usize::MAX {
                        proof {
                            lemma_nav_points_prefix_none(el.children@, level, i + 1);
                        }
                        return None;
                    }
                    let id = match get_attr(e, "id") {
                        Some(v) => v.clone(),
                        None => {
                            proof {
                                lemma_nav_points_prefix_none(el.children@, level, i + 1);
                            }
                            return None;
                        },
                    };
                    let src = match get_child(e, "content") {
                        Some(c) => match get_attr(c, "src") {
                            Some(s) => s.clone(),
                            None => {
                                proof {
                                    lemma_nav_points_prefix_none(el.children@, level, i + 1);
                                }
                                return None;
                            },
                        },
                        None => {
                            proof {
                                lemma_nav_points_prefix_none(el.children@, level, i + 1);
                            }
                            return None;
                        },
                    };
                    let play_order = match get_attr(e, "playOrder") {
                        Some(po) => parse_usize(po.as_str()),
                        None => None,
                    };
                    let label = match get_child(e, "navLabel") {
                        Some(nl) => match get_child(nl, "text") {
                            Some(t) => get_text(t),
                            None => None,
                        },
                        None => None,
                    };
                    let children = match parse_nav_points(e, level + 1) {
                        Some(k) => k,
                        None => {
                            proof {
                                lemma_nav_points_prefix_none(el.children@, level, i + 1);
                            }
                            return None;
                        },
                    };
                    let np = NavPoint { id, label, play_order, level, src, children };
                    proof {
                        assert(nav_entry(cur, level) =~~= Some(seq![nav_view(np)]));
                    }
                    let ghost oldacc = acc@;
                    acc.push(np);
                    proof {
                        assert(acc@ =~= oldacc.push(np));
                        lemma_navs_view_snoc(oldacc, np);
                        assert(navs_view(oldacc) + seq![nav_view(np)] == navs_view(acc@));
                        assert(spec_nav_points(el.children@.subrange(0, i + 1), level)
                            =~~= Some(navs_view(acc@)));
                    }
                } else {
                    proof {
                        assert(nav_entry(cur, level) =~~= Some(Seq::<NavPointV>::empty()));
                        assert(navs_view(acc@) + Seq::<NavPointV>::empty() =~= navs_view(acc@));
                    }
                }
            },
            _ => {
                proof {
                    assert(nav_entry(cur, level) =~~= Some(Seq::<NavPointV>::empty()));
                    assert(navs_view(acc@) + Seq::<NavPointV>::empty() =~= navs_view(acc@));
                }
            },
        }
        i = i + 1;
    }
    proof {
        assert(el.children@.subrange(0, n as int) =~= el.children@);
    }
    Some(acc)
}

/// What one child of `head` contributes to the list of declared depths: a
/// `meta` element named `dtb:depth` whose content parses as a number.
pub open spec fn depth_entry(n: XmlNode) -> Seq<usize> {
    match n {
        XmlNode::Element(e) => {
            if e.name@ == "meta"@ && attr_lookup(e.attrs@, "name"@) == Some("dtb:depth"@) {
                match attr_lookup(e.attrs@, "content"@) {
                    Some(c) => match parse_usize_spec(c) {
                        Some(d) => seq![d],
                        None => Seq::empty(),
                    },
                    None => Seq::empty(),
                }
            } else {
                Seq::empty()
            }
        },
        _ => Seq::empty(),
    }
}

/// All declared depths under `head`, in document order.
pub open spec fn spec_depths(children: Seq<XmlNode>) -> Seq<usize>
    decreases children.len(),
{
    if children.len() == 0 {
        Seq::empty()
    } else {
        spec_depths(children.drop_last()) + depth_entry(children.last())
    }
}

/// What parsing a navigation document yields: its single declared depth
/// and its navigation forest, or the description of what is malformatted.
pub open spec fn spec_parse_ncx(text: Seq<char>) -> Result<TocV, Seq<char>> {
    match xml_tree_of(text) {
        None => Err("Invalid XML"@),
        Some(ncx) => match spec_get_child(ncx.children@, "head"@) {
            None => Err("Missing head"@),
            Some(head) => {
                if spec_depths(head.children@).len() != 1 {
                    Err("Depth info missing or duplicated"@)
                } else {
                    match spec_get_child(ncx.children@, "navMap"@) {
                        None => Err("Missing navMap"@),
                        Some(nm) => match spec_nav_points(nm.children@, 1) {
                            None => Err("Could not parse NavPoints"@),
                            Some(nps) => Ok(
                                TocV { depth: spec_depths(head.children@)[0], nav_points: nps },
                            ),
                        },
                    }
                }
            },
        },
    }
}

/// Parses a navigation document: the single `dtb:depth` meta value under
/// `head` (zero or several is a failure), then the `navMap` into the
/// navigation forest, nesting levels starting at 1.
pub fn parse_ncx(text: &str) -> (r: Result<TocNcx, MalformattedEpubError>)
    ensures
        match r {
            Ok(toc) => spec_parse_ncx(text@) == Ok::<TocV, Seq<char>>(toc@),
            Err(e) => e matches MalformattedEpubError::MalformattedTocNcx(m) && spec_parse_ncx(
                text@,
            ) == Err::<TocV, Seq<char>>(m@),
        },
{
    let ncx = match parse_xml_tree(text) {
        Ok(t) => t,
        Err(_) => {
            return Err(
                MalformattedEpubError::MalformattedTocNcx(String::from_str("Invalid XML")),
            );
        },
    };
    let head = match get_child(&ncx, "head") {
        Some(h) => h,
        None => {
            return Err(
                MalformattedEpubError::MalformattedTocNcx(String::from_str("Missing head")),
            );
        },
    };
    let mut depths: Vec<usize> = Vec::new();
    let n = head.children.len();
    let mut i: usize = 0;
    proof {
        assert(head.children@.subrange(0, 0) =~= Seq::<XmlNode>::empty());
        assert(depths@ =~= spec_depths(head.children@.subrange(0, 0)));
    }
    while i < n
        invariant
            n == head.children.len(),
            i <= n,
            depths@ == spec_depths(head.children@.subrange(0, i as int)),
        decreases n - i,
    {
        let ghost pre = head.children@.subrange(0, i as int);
        let ghost cur = head.children@[i as int];
        proof {
            assert(head.children@.subrange(0, i + 1).drop_last() =~= pre);
            assert(head.children@.subrange(0, i + 1).last() == cur);
        }
        match &head.children[i] {
            XmlNode::Element(e) => {
                let is_depth_meta = if str_eq(e.name.as_str(), "meta") {
                    match get_attr(e, "name") {
                        Some(v) => str_eq(v.as_str(), "dtb:depth"),
                        None => false,
                    }
                } else {
                    false
                };
                if is_depth_meta {
                    match get_attr(e, "content") {
                        Some(c) => match parse_usize(c.as_str()) {
                            Some(d) => {
                                depths.push(d);
                                proof {
                                    assert(depth_entry(cur) =~= seq![d]);
                                    assert(depths@ =~= spec_depths(
                                        head.children@.subrange(0, i + 1),
                                    ));
                                }
                            },
                            None => {
                                proof {
                                    assert(depth_entry(cur) =~= Seq::<usize>::empty());
                                    assert(depths@ =~= spec_depths(
                                        head.children@.subrange(0, i + 1),
                                    ));
                                }
                            },
                        },
                        None => {
                            proof {
                                assert(depth_entry(cur) =~= Seq::<usize>::empty());
                                assert(depths@ =~= spec_depths(head.children@.subrange(0, i + 1)));
                            }
                        },
                    }
                } else {
                    proof {
                        assert(depth_entry(cur) =~= Seq::<usize>::empty());
                        assert(depths@ =~= spec_depths(head.children@.subrange(0, i + 1)));
                    }
                }
            },
            _ => {
                proof {
                    assert(depth_entry(cur) =~= Seq::<usize>::empty());
                    assert(depths@ =~= spec_depths(head.children@.subrange(0, i + 1)));
                }
            },
        }
        i = i + 1;
    }
    proof {
        assert(head.children@.subrange(0, n as int) =~= head.children@);
    }
    if depths.len() != 1 {
        return Err(
            MalformattedEpubError::MalformattedTocNcx(
                String::from_str("Depth info missing or duplicated"),
            ),
        );
    }
    let depth = depths[0];
    let nav_map = match get_child(&ncx, "navMap") {
        Some(nm) => nm,
        None => {
            return Err(
                MalformattedEpubError::MalformattedTocNcx(String::from_str("Missing navMap")),
            );
        },
    };
    let nav_points = match parse_nav_points(nav_map, 1) {
        Some(nps) => nps,
        None => {
            return Err(
                MalformattedEpubError::MalformattedTocNcx(
                    String::from_str("Could not parse NavPoints"),
                ),
            );
        },
    };
    Ok(TocNcx { depth, nav_points })
}

/// The flattening of a single-point forest is the flattening of its
/// subtree.
pub proof fn lemma_flatten_single(np: NavPointV)
    ensures
        flatten_navs(seq![np]) == flatten_nav(np),
{
    assert(seq![np][0] == np);
    assert(seq![np].drop_first() =~= Seq::<NavPointV>::empty());
    assert(flatten_navs(Seq::<NavPointV>::empty()) == Seq::<NavPointV>::empty());
    assert(flatten_navs(seq![np]) =~= flatten_nav(np));
}

/// Appending one point to a forest appends its model.
pub proof fn lemma_navs_view_snoc(nps: Seq<NavPoint>, x: NavPoint)
    ensures
        navs_view(nps.push(x)) == navs_view(nps) + seq![nav_view(x)],
    decreases nps,
{
    let p = nps.push(x);
    if nps.len() == 0 {
        assert(p[0] == x);
        assert(p.drop_first() =~= Seq::<NavPoint>::empty());
        assert(navs_view(Seq::<NavPoint>::empty()) == Seq::<NavPointV>::empty());
        assert(navs_view(p) =~= navs_view(nps) + seq![nav_view(x)]);
    } else {
        assert(p[0] == nps[0]);
        assert(p.drop_first() =~= nps.drop_first().push(x));
        lemma_navs_view_snoc(nps.drop_first(), x);
        assert(navs_view(p) =~= navs_view(nps) + seq![nav_view(x)]);
    }
}

} // verus!
