//! The anchor-bounded text extractor: given one content document, an
//! optional start anchor and an optional stop anchor, the plain text
//! strictly between them.
//!
//! The specification views the document as its pre-order event stream:
//! an `Enter` event for each element, a `Text` event for each text node.
//! Extraction takes the stream after the first element carrying the start
//! anchor, and collects trimmed text up to the first element carrying the
//! stop anchor.

use vstd::prelude::*;
use crate::xml::{XmlNode, XmlElement, spec_named_anchor, get_named_anchor, parse_xml_tree,
    xml_parse_of};
use crate::strutil::{str_eq, str_trim, trim_spec, join_spec, join_strings};
use crate::errors::XmlParseError;

verus! {

/// One event of the pre-order document walk.
pub enum EventV {
    Enter(XmlElement),
    Text(String),
}

/// The pre-order event streams of a sequence of nodes, concatenated.
pub open spec fn events_of(nodes: Seq<XmlNode>) -> Seq<EventV>
    decreases nodes,
{
    if nodes.len() == 0 {
        Seq::empty()
    } else {
        (match nodes[0] {
            XmlNode::Element(e) => seq![EventV::Enter(e)] + events_of(e.children@),
            XmlNode::Text(s) => seq![EventV::Text(s)],
            _ => Seq::empty(),
        }) + events_of(nodes.drop_first())
    }
}

/// The pre-order event stream of one node.
pub open spec fn node_events(n: XmlNode) -> Seq<EventV> {
    match n {
        XmlNode::Element(e) => seq![EventV::Enter(e)] + events_of(e.children@),
        XmlNode::Text(s) => seq![EventV::Text(s)],
        _ => Seq::empty(),
    }
}

/// The pre-order event stream of a whole document.
pub open spec fn doc_events(root: XmlElement) -> Seq<EventV> {
    seq![EventV::Enter(root)] + events_of(root.children@)
}

/// The stream that remains after the first element whose named anchor is
/// `start`: its own subtree and everything following it. Empty where no
/// element carries the anchor.
pub open spec fn after_start(evs: Seq<EventV>, start: Seq<char>) -> Seq<EventV>
    decreases evs.len(),
{
    if evs.len() == 0 {
        Seq::empty()
    } else {
        match evs[0] {
            EventV::Enter(e) => {
                if spec_named_anchor(e) == Some(start) {
                    evs.drop_first()
                } else {
                    after_start(evs.drop_first(), start)
                }
            },
            _ => after_start(evs.drop_first(), start),
        }
    }
}

/// The trimmed text fragments of the stream, in order, up to (and not
/// including) the first element whose named anchor is `stop`.
pub open spec fn collect_texts(evs: Seq<EventV>, stop: Option<Seq<char>>) -> Seq<Seq<char>>
    decreases evs.len(),
{
    if evs.len() == 0 {
        Seq::empty()
    } else {
        match evs[0] {
            EventV::Enter(e) => {
                if stop is Some && spec_named_anchor(e) == stop {
                    Seq::empty()
                } else {
                    collect_texts(evs.drop_first(), stop)
                }
            },
            EventV::Text(s) => seq![trim_spec(s@)] + collect_texts(evs.drop_first(), stop),
        }
    }
}

/// What extraction yields on a parsed document: the collected fragments
/// joined with a single space.
pub open spec fn spec_extract(
    root: XmlElement,
    start: Option<Seq<char>>,
    stop: Option<Seq<char>>,
) -> Seq<char> {
    let evs = doc_events(root);
    let tail = match start {
        Some(a) => after_start(evs, a),
        None => evs,
    };
    join_spec(collect_texts(tail, stop), " "@)
}

/// What `html_to_text` yields: the extraction on the parsed document, or,
/// where the text is not well-formed XML, the parser's description of the
/// failure.
pub open spec fn spec_html_to_text(
    text: Seq<char>,
    start: Option<Seq<char>>,
    stop: Option<Seq<char>>,
) -> Result<Seq<char>, Seq<char>> {
    match xml_parse_of(text) {
        Err(m) => Err(m),
        Ok(root) => Ok(spec_extract(root, start, stop)),
    }
}

/// The events of a stack of nodes still to visit, top of the stack first.
pub open spec fn stack_events(st: Seq<&XmlNode>) -> Seq<EventV>
    decreases st.len(),
{
    if st.len() == 0 {
        Seq::empty()
    } else {
        node_events(*st.last()) + stack_events(st.drop_last())
    }
}

proof fn lemma_stack_events_push(st: Seq<&XmlNode>, x: &XmlNode)
    ensures
        stack_events(st.push(x)) == node_events(*x) + stack_events(st),
{
    assert(st.push(x).last() == x);
    assert(st.push(x).drop_last() =~= st);
}

/// Pushes the children of `e` onto the stack so that the first child is on
/// top: the stack then carries the children's events before what it held.
fn push_children_rev<'a>(stack: &mut Vec<&'a XmlNode>, e: &'a XmlElement)
    ensures
        stack_events(final(stack)@) == events_of(e.children@) + stack_events(old(stack)@),
{
    let ghost base = stack_events(stack@);
    let mut j = e.children.len();
    proof {
        assert(e.children@.skip(j as int) =~= Seq::<XmlNode>::empty());
        assert(events_of(e.children@.skip(j as int)) + base =~= base);
    }
    while j > 0
        invariant
            j <= e.children.len(),
            stack_events(stack@) == events_of(e.children@.skip(j as int)) + base,
        decreases j,
    {
        j = j - 1;
        let ghost st0 = stack@;
        stack.push(&e.children[j]);
        proof {
            assert(stack@ =~= st0.push(&e.children@[j as int]));
            lemma_stack_events_push(st0, &e.children@[j as int]);
            let rest = e.children@.skip(j as int);
            assert(rest[0] == e.children@[j as int]);
            assert(rest.drop_first() =~= e.children@.skip(j + 1));
            assert(events_of(rest) == node_events(rest[0]) + events_of(rest.drop_first()))
                by {
                assert((match rest[0] {
                    XmlNode::Element(el) => seq![EventV::Enter(el)] + events_of(el.children@),
                    XmlNode::Text(s) => seq![EventV::Text(s)],
                    _ => Seq::<EventV>::empty(),
                }) == node_events(rest[0]));
            }
            assert(stack_events(stack@) =~= events_of(e.children@.skip(j as int)) + base);
        }
    }
    proof {
        assert(e.children@.skip(0) =~= e.children@);
    }
}

proof fn lemma_after_start_step(n: XmlNode, rest: Seq<EventV>, s: Seq<char>)
    ensures
        n matches XmlNode::Element(e) ==> (if spec_named_anchor(e) == Some(s) {
            after_start(node_events(n) + rest, s) == events_of(e.children@) + rest
        } else {
            after_start(node_events(n) + rest, s) == after_start(events_of(e.children@) + rest, s)
        }),
        n matches XmlNode::Text(t) ==> after_start(node_events(n) + rest, s) == after_start(
            rest,
            s,
        ),
        n is CData || n is Other ==> after_start(node_events(n) + rest, s) == after_start(
            rest,
            s,
        ),
{
    match n {
        XmlNode::Element(e) => {
            let evs = node_events(n) + rest;
            assert(evs[0] == EventV::Enter(e));
            assert(evs.drop_first() =~= events_of(e.children@) + rest);
        },
        XmlNode::Text(t) => {
            let evs = node_events(n) + rest;
            assert(evs[0] == EventV::Text(t));
            assert(evs.drop_first() =~= rest);
        },
        _ => {
            assert(node_events(n) + rest =~= rest);
        },
    }
}

proof fn lemma_collect_step(n: XmlNode, rest: Seq<EventV>, stop: Option<Seq<char>>)
    ensures
        n matches XmlNode::Element(e) ==> (if stop is Some && spec_named_anchor(e) == stop {
            collect_texts(node_events(n) + rest, stop) == Seq::<Seq<char>>::empty()
        } else {
            collect_texts(node_events(n) + rest, stop) == collect_texts(
                events_of(e.children@) + rest,
                stop,
            )
        }),
        n matches XmlNode::Text(t) ==> collect_texts(node_events(n) + rest, stop) == seq![
            trim_spec(t@),
        ] + collect_texts(rest, stop),
        n is CData || n is Other ==> collect_texts(node_events(n) + rest, stop) == collect_texts(
            rest,
            stop,
        ),
{
    match n {
        XmlNode::Element(e) => {
            let evs = node_events(n) + rest;
            assert(evs[0] == EventV::Enter(e));
            assert(evs.drop_first() =~= events_of(e.children@) + rest);
        },
        XmlNode::Text(t) => {
            let evs = node_events(n) + rest;
            assert(evs[0] == EventV::Text(t));
            assert(evs.drop_first() =~= rest);
        },
        _ => {
            assert(node_events(n) + rest =~= rest);
        },
    }
}

/// Discards events until an element carrying the start anchor is found;
/// the stack then holds that element's subtree and everything after it,
/// or nothing where no element carries the anchor.
fn find_start<'a>(stack: &mut Vec<&'a XmlNode>, start: &str)
    ensures
        stack_events(final(stack)@) == after_start(stack_events(old(stack)@), start@),
{
    let ghost target = after_start(stack_events(stack@), start@);
    loop
        invariant_except_break
            after_start(stack_events(stack@), start@) == target,
        ensures
            stack_events(stack@) == target,
        decreases stack_events(stack@).len(), stack@.len(),
    {
        let ghost st0 = stack@;
        let top = match stack.pop() {
            Some(t) => t,
            None => {
                proof {
                    assert(stack_events(stack@) =~= Seq::<EventV>::empty());
                }
                break;
            },
        };
        proof {
            assert(st0.drop_last() =~= stack@);
            assert(stack_events(st0) == node_events(*st0.last()) + stack_events(stack@));
            lemma_after_start_step(*top, stack_events(stack@), start@);
        }
        match top {
            XmlNode::Element(e) => {
                push_children_rev(stack, e);
                let found = match get_named_anchor(e) {
                    Some(a) => str_eq(a.as_str(), start),
                    None => false,
                };
                if found {
                    break;
                }
            },
            _ => {},
        }
    }
}

/// Collects trimmed text fragments in encounter order, stopping before an
/// element carrying the stop anchor.
fn collect_until<'a>(stack: &mut Vec<&'a XmlNode>, stop_anchor: Option<&str>, texts: &mut Vec<
    String,
>)
    ensures
        final(texts).deep_view() == old(texts).deep_view() + collect_texts(
            stack_events(old(stack)@),
            stop_anchor.deep_view(),
        ),
{
    let ghost stopv = stop_anchor.deep_view();
    let ghost target = texts.deep_view() + collect_texts(stack_events(stack@), stopv);
    loop
        invariant_except_break
            texts.deep_view() + collect_texts(stack_events(stack@), stopv) == target,
        invariant
            stopv == stop_anchor.deep_view(),
        ensures
            texts.deep_view() == target,
        decreases stack_events(stack@).len(), stack@.len(),
    {
        let ghost st0 = stack@;
        let top = match stack.pop() {
            Some(t) => t,
            None => {
                proof {
                    assert(stack_events(stack@) =~= Seq::<EventV>::empty());
                    assert(texts.deep_view() + Seq::<Seq<char>>::empty() =~= texts.deep_view());
                }
                break;
            },
        };
        proof {
            assert(st0.drop_last() =~= stack@);
            assert(stack_events(st0) == node_events(*st0.last()) + stack_events(stack@));
            lemma_collect_step(*top, stack_events(stack@), stopv);
        }
        match top {
            XmlNode::Element(e) => {
                let stopped = match stop_anchor {
                    Some(stop) => match get_named_anchor(e) {
                        Some(a) => str_eq(a.as_str(), stop),
                        None => false,
                    },
                    None => false,
                };
                if stopped {
                    proof {
                        assert(texts.deep_view() + Seq::<Seq<char>>::empty()
                            =~= texts.deep_view());
                    }
                    break;
                }
                push_children_rev(stack, e);
            },
            XmlNode::Text(s) => {
                let t = str_trim(s.as_str());
                let ghost txts0 = texts.deep_view();
                texts.push(t);
                proof {
                    assert(texts.deep_view() =~= txts0.push(trim_spec(s@)));
                    assert(txts0.push(trim_spec(s@)) + collect_texts(stack_events(stack@), stopv)
                        =~= txts0 + (seq![trim_spec(s@)] + collect_texts(
                        stack_events(stack@),
                        stopv,
                    )));
                }
            },
            _ => {},
        }
    }
}

/// Extracts the plain text of one parsed document between the optional
/// anchors: collection starts at the element carrying the start anchor
/// (inclusive of its subtree) and ends before the element carrying the
/// stop anchor; fragments are trimmed and joined with a single space.
fn extract_from_node(root_node: &XmlNode, start_anchor: Option<&str>, stop_anchor: Option<&str>)
    -> (r: String)
    ensures
        r@ == join_spec(
            collect_texts(
                match start_anchor.deep_view() {
                    Some(a) => after_start(node_events(*root_node), a),
                    None => node_events(*root_node),
                },
                stop_anchor.deep_view(),
            ),
            " "@,
        ),
{
    let mut stack: Vec<&XmlNode> = Vec::new();
    stack.push(root_node);
    proof {
        assert(stack@.last() == root_node);
        assert(stack@.drop_last() =~= Seq::<&XmlNode>::empty());
        assert(stack_events(Seq::<&XmlNode>::empty()) == Seq::<EventV>::empty());
        assert(node_events(*root_node) + Seq::<EventV>::empty() =~= node_events(*root_node));
        assert(stack_events(stack@) =~= node_events(*root_node));
    }
    match start_anchor {
        Some(a) => {
            find_start(&mut stack, a);
        },
        None => {},
    }
    let mut texts: Vec<String> = Vec::new();
    collect_until(&mut stack, stop_anchor, &mut texts);
    proof {
        assert(Seq::<Seq<char>>::empty() + collect_texts(
            stack_events(stack@),
            stop_anchor.deep_view(),
        ) =~= collect_texts(stack_events(stack@), stop_anchor.deep_view()));
    }
    join_strings(&texts, " ")
}

/// Every text node of a sequence of nodes, in pre-order, trimmed.
pub open spec fn tree_texts(nodes: Seq<XmlNode>) -> Seq<Seq<char>>
    decreases nodes,
{
    if nodes.len() == 0 {
        Seq::empty()
    } else {
        (match nodes[0] {
            XmlNode::Text(s) => seq![trim_spec(s@)],
            XmlNode::Element(e) => tree_texts(e.children@),
            _ => Seq::empty(),
        }) + tree_texts(nodes.drop_first())
    }
}

proof fn lemma_collect_none_concat(a: Seq<EventV>, b: Seq<EventV>)
    ensures
        collect_texts(a + b, None) == collect_texts(a, None) + collect_texts(b, None),
    decreases a.len(),
{
    if a.len() == 0 {
        assert(a + b =~= b);
        assert(collect_texts(a, None) =~= Seq::<Seq<char>>::empty());
        assert(collect_texts(a, None) + collect_texts(b, None) =~= collect_texts(b, None));
    } else {
        assert((a + b)[0] == a[0]);
        assert((a + b).drop_first() =~= a.drop_first() + b);
        lemma_collect_none_concat(a.drop_first(), b);
        assert(collect_texts(a + b, None) =~= collect_texts(a, None) + collect_texts(b, None));
    }
}

proof fn lemma_collect_none_events(nodes: Seq<XmlNode>)
    ensures
        collect_texts(events_of(nodes), None) == tree_texts(nodes),
    decreases nodes,
{
    if nodes.len() > 0 {
        assert(events_of(nodes) == node_events(nodes[0]) + events_of(nodes.drop_first())) by {
            assert((match nodes[0] {
                XmlNode::Element(el) => seq![EventV::Enter(el)] + events_of(el.children@),
                XmlNode::Text(s) => seq![EventV::Text(s)],
                _ => Seq::<EventV>::empty(),
            }) == node_events(nodes[0]));
        }
        lemma_collect_none_concat(node_events(nodes[0]), events_of(nodes.drop_first()));
        lemma_collect_none_events(nodes.drop_first());
        match nodes[0] {
            XmlNode::Element(e) => {
                let ne = node_events(nodes[0]);
                assert(ne[0] == EventV::Enter(e));
                assert(ne.drop_first() =~= events_of(e.children@));
                lemma_collect_none_events(e.children@);
                assert(collect_texts(ne, None) == tree_texts(e.children@));
            },
            XmlNode::Text(s) => {
                let ne = node_events(nodes[0]);
                assert(ne[0] == EventV::Text(s));
                assert(ne.drop_first() =~= Seq::<EventV>::empty());
                assert(collect_texts(Seq::<EventV>::empty(), None) =~= Seq::<Seq<char>>::empty());
                assert(collect_texts(ne, None) =~= seq![trim_spec(s@)]);
            },
            _ => {
                assert(node_events(nodes[0]) =~= Seq::<EventV>::empty());
                assert(collect_texts(Seq::<EventV>::empty(), None) =~= Seq::<Seq<char>>::empty());
            },
        }
        assert(collect_texts(events_of(nodes), None) =~= tree_texts(nodes));
    }
}

/// Absence of both anchors is the identity case: extraction with neither
/// anchor yields every text node of the document, trimmed, joined with a
/// single space.
pub proof fn lemma_extract_full_document(root: XmlElement)
    ensures
        spec_extract(root, None, None) == join_spec(tree_texts(root.children@), " "@),
{
    let evs = doc_events(root);
    assert(evs[0] == EventV::Enter(root));
    assert(evs.drop_first() =~= events_of(root.children@));
    lemma_collect_none_events(root.children@);
    assert(collect_texts(evs, None) == collect_texts(events_of(root.children@), None));
}

/// An element event carrying the named anchor `x`.
pub open spec fn enter_anchored(ev: EventV, x: Seq<char>) -> bool {
    ev matches EventV::Enter(e) && spec_named_anchor(e) == Some(x)
}

proof fn lemma_after_start_at(evs: Seq<EventV>, x: Seq<char>, k: int)
    requires
        0 <= k < evs.len(),
        enter_anchored(evs[k], x),
        forall|j: int| 0 <= j < k ==> !enter_anchored(#[trigger] evs[j], x),
    ensures
        after_start(evs, x) == evs.skip(k + 1),
    decreases k,
{
    if k == 0 {
        assert(evs.drop_first() =~= evs.skip(1));
    } else {
        assert(!enter_anchored(evs[0], x));
        let t = evs.drop_first();
        assert(enter_anchored(t[k - 1], x));
        assert(forall|j: int| 0 <= j < k - 1 ==> !enter_anchored(#[trigger] t[j], x)) by {
            assert(forall|j: int| 0 <= j < k - 1 ==> t[j] == evs[j + 1]);
        }
        lemma_after_start_at(t, x, k - 1);
        assert(t.skip(k) =~= evs.skip(k + 1));
    }
}

proof fn lemma_collect_take(evs: Seq<EventV>, x: Seq<char>, k: int)
    requires
        0 <= k < evs.len(),
        enter_anchored(evs[k], x),
        forall|j: int| 0 <= j < k ==> !enter_anchored(#[trigger] evs[j], x),
    ensures
        collect_texts(evs, Some(x)) == collect_texts(evs.take(k), None),
    decreases k,
{
    if k == 0 {
        assert(collect_texts(evs, Some(x)) =~= Seq::<Seq<char>>::empty());
        assert(evs.take(0) =~= Seq::<EventV>::empty());
        assert(collect_texts(evs.take(0), None) =~= Seq::<Seq<char>>::empty());
    } else {
        assert(!enter_anchored(evs[0], x));
        let t = evs.drop_first();
        assert(enter_anchored(t[k - 1], x));
        assert(forall|j: int| 0 <= j < k - 1 ==> !enter_anchored(#[trigger] t[j], x)) by {
            assert(forall|j: int| 0 <= j < k - 1 ==> t[j] == evs[j + 1]);
        }
        lemma_collect_take(t, x, k - 1);
        assert(evs.take(k)[0] == evs[0]);
        assert(evs.take(k).drop_first() =~= t.take(k - 1));
        match evs[0] {
            EventV::Enter(e) => {
                assert(collect_texts(evs, Some(x)) == collect_texts(t, Some(x)));
                assert(collect_texts(evs.take(k), None) == collect_texts(t.take(k - 1), None));
            },
            EventV::Text(s) => {
                assert(collect_texts(evs, Some(x)) == seq![trim_spec(s@)] + collect_texts(
                    t,
                    Some(x),
                ));
                assert(collect_texts(evs.take(k), None) == seq![trim_spec(s@)] + collect_texts(
                    t.take(k - 1),
                    None,
                ));
            },
        }
    }
}

/// Anchor extraction is a partition: for a document split across three
/// anchors in document order, each carried by exactly one element, the
/// fragments collected from the first anchor to the second, followed by
/// those from the second to the third, are exactly those from the first
/// to the third.
pub proof fn lemma_extract_partition(
    root: XmlElement,
    a: Seq<char>,
    b: Seq<char>,
    c: Seq<char>,
    pa: int,
    pb: int,
    pc: int,
)
    requires
        0 <= pa < pb < pc < doc_events(root).len(),
        enter_anchored(doc_events(root)[pa], a),
        forall|j: int|
            0 <= j < doc_events(root).len() && j != pa ==> !enter_anchored(
                #[trigger] doc_events(root)[j],
                a,
            ),
        enter_anchored(doc_events(root)[pb], b),
        forall|j: int|
            0 <= j < doc_events(root).len() && j != pb ==> !enter_anchored(
                #[trigger] doc_events(root)[j],
                b,
            ),
        enter_anchored(doc_events(root)[pc], c),
        forall|j: int|
            0 <= j < doc_events(root).len() && j != pc ==> !enter_anchored(
                #[trigger] doc_events(root)[j],
                c,
            ),
    ensures
        collect_texts(after_start(doc_events(root), a), Some(b)) + collect_texts(
            after_start(doc_events(root), b),
            Some(c),
        ) == collect_texts(after_start(doc_events(root), a), Some(c)),
{
    let evs = doc_events(root);
    lemma_after_start_at(evs, a, pa);
    lemma_after_start_at(evs, b, pb);
    let sa = evs.skip(pa + 1);
    let sb = evs.skip(pb + 1);
    assert(forall|m: int| 0 <= m < sa.len() ==> #[trigger] sa[m] == evs[m + pa + 1]);
    assert(forall|m: int| 0 <= m < sb.len() ==> #[trigger] sb[m] == evs[m + pb + 1]);
    assert(enter_anchored(sa[pb - pa - 1], b));
    assert(forall|j: int| 0 <= j < pb - pa - 1 ==> !enter_anchored(#[trigger] sa[j], b));
    lemma_collect_take(sa, b, pb - pa - 1);
    assert(sa.take(pb - pa - 1) =~= evs.subrange(pa + 1, pb));
    assert(enter_anchored(sb[pc - pb - 1], c));
    assert(forall|j: int| 0 <= j < pc - pb - 1 ==> !enter_anchored(#[trigger] sb[j], c));
    lemma_collect_take(sb, c, pc - pb - 1);
    assert(sb.take(pc - pb - 1) =~= evs.subrange(pb + 1, pc));
    assert(enter_anchored(sa[pc - pa - 1], c));
    assert(forall|j: int| 0 <= j < pc - pa - 1 ==> !enter_anchored(#[trigger] sa[j], c));
    lemma_collect_take(sa, c, pc - pa - 1);
    assert(sa.take(pc - pa - 1) =~= evs.subrange(pa + 1, pc));
    lemma_collect_none_concat(evs.subrange(pa + 1, pb), evs.subrange(pb, pc));
    lemma_collect_none_concat(evs.subrange(pb, pb + 1), evs.subrange(pb + 1, pc));
    assert(evs.subrange(pa + 1, pc) =~= evs.subrange(pa + 1, pb) + evs.subrange(pb, pc));
    assert(evs.subrange(pb, pc) =~= evs.subrange(pb, pb + 1) + evs.subrange(pb + 1, pc));
    assert(evs.subrange(pb, pb + 1)[0] == evs[pb]);
    assert(evs.subrange(pb, pb + 1).drop_first() =~= Seq::<EventV>::empty());
    assert(collect_texts(Seq::<EventV>::empty(), None) =~= Seq::<Seq<char>>::empty());
    assert(collect_texts(evs.subrange(pb, pb + 1), None) =~= Seq::<Seq<char>>::empty());
    assert(collect_texts(evs.subrange(pa + 1, pb), None) + collect_texts(
        evs.subrange(pb + 1, pc),
        None,
    ) =~= collect_texts(evs.subrange(pa + 1, pc), None));
}

/// The nested plain text of one node, as the original whole-document
/// extraction: a text node yields its trimmed content; an element joins
/// its children's nonempty results with a single space.
pub open spec fn all_text_node(n: XmlNode) -> Seq<char>
    decreases n,
{
    match n {
        XmlNode::Element(e) => join_spec(nonempty_texts(e.children@), " "@),
        XmlNode::Text(s) => trim_spec(s@),
        _ => Seq::empty(),
    }
}

/// The nonempty nested texts of a sequence of nodes, in order.
pub open spec fn nonempty_texts(nodes: Seq<XmlNode>) -> Seq<Seq<char>>
    decreases nodes,
{
    if nodes.len() == 0 {
        Seq::empty()
    } else {
        nonempty_texts(nodes.drop_last()) + (if all_text_node(nodes.last()).len() > 0 {
            seq![all_text_node(nodes.last())]
        } else {
            Seq::<Seq<char>>::empty()
        })
    }
}

/// Collects the plain text of one node and everything below it: text
/// nodes trimmed, each element's nonempty child results joined with a
/// single space.
pub fn get_all_text(xml_node: &XmlNode) -> (r: String)
    ensures
        r@ == all_text_node(*xml_node),
    decreases *xml_node,
{
    match xml_node {
        XmlNode::Element(e) => {
            let mut texts: Vec<String> = Vec::new();
            let n = e.children.len();
            let ghost kids = e.children@;
            proof {
                assert(kids.subrange(0, 0) =~= Seq::<XmlNode>::empty());
                assert(texts.deep_view() =~= nonempty_texts(kids.subrange(0, 0)));
            }
            let mut i: usize = 0;
            while i < n
                invariant
                    *xml_node == XmlNode::Element(*e),
                    n == e.children.len(),
                    kids == e.children@,
                    i <= n,
                    texts.deep_view() == nonempty_texts(kids.subrange(0, i as int)),
                decreases *xml_node, n - i,
            {
                proof {
                    assert(kids.subrange(0, i + 1).drop_last() =~= kids.subrange(0, i as int));
                    assert(kids.subrange(0, i + 1).last() == kids[i as int]);
                    assert(*xml_node is Element);
                    assert((*xml_node)->Element_0 == *e);
                    assert(decreases_to!(*xml_node => *e));
                    assert(decreases_to!(*e => e.children@[i as int]));
                }
                let s = get_all_text(&e.children[i]);
                if s.as_str().unicode_len() > 0 {
                    let ghost t0 = texts.deep_view();
                    texts.push(s);
                    proof {
                        assert(texts.deep_view() =~= t0.push(all_text_node(kids[i as int])));
                        assert(t0 + seq![all_text_node(kids[i as int])] =~= texts.deep_view());
                    }
                } else {
                    proof {
                        assert(texts.deep_view() + Seq::<Seq<char>>::empty()
                            =~= texts.deep_view());
                    }
                }
                i = i + 1;
            }
            proof {
                assert(kids.subrange(0, n as int) =~= kids);
            }
            join_strings(&texts, " ")
        },
        XmlNode::Text(s) => str_trim(s.as_str()),
        _ => String::new(),
    }
}

/// Converts one content document to plain text between the optional
/// anchors: the walk starts at the element carrying the start anchor (its
/// own subtree included) and stops before the element carrying the stop
/// anchor; every text node on the way contributes its trimmed content,
/// and the fragments are joined with a single space.
pub fn html_to_text(full_text: &str, start_anchor: Option<&str>, stop_anchor: Option<&str>) -> (r:
    Result<String, XmlParseError>)
    ensures
        match r {
            Ok(s) => spec_html_to_text(
                full_text@,
                start_anchor.deep_view(),
                stop_anchor.deep_view(),
            ) == Ok::<Seq<char>, Seq<char>>(s@),
            Err(e) => spec_html_to_text(
                full_text@,
                start_anchor.deep_view(),
                stop_anchor.deep_view(),
            ) == Err::<Seq<char>, Seq<char>>(e@),
        },
{
    let root = match parse_xml_tree(full_text) {
        Ok(t) => t,
        Err(m) => {
            return Err(XmlParseError { message: m });
        },
    };
    let root_node = XmlNode::Element(root);
    let r = extract_from_node(&root_node, start_anchor, stop_anchor);
    proof {
        let rootv = xml_parse_of(full_text@)->Ok_0;
        assert(node_events(root_node) =~= doc_events(rootv));
    }
    Ok(r)
}

} // verus!
