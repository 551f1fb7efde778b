//! The reconciliation engine: walking the spine in reading order, matching
//! each spine item against the navigation forest, partitioning content
//! between the preface and the navigation points, and rebuilding the
//! nested chapter tree.

use vstd::prelude::*;
use crate::archive::{zip_open, zip_read, zip_parse, zip_entries};
use crate::errors::{ParseError, MalformattedEpubError, EpubErrV, ParseErrV};
use crate::ncx::{
    NavPoint, TocNcx, NavPointV, TocV, navs_view, nav_view, flatten_navs, flatten_nav, parse_ncx,
    spec_parse_ncx, lemma_flatten_concat, lemma_flatten_single, lemma_navs_view_snoc,
    lemma_navs_view_concat,
};
use crate::package::{
    ContentOPF, OpfV, ItemV, Manifest, view_items, manifest_lookup, manifest_get,
    parse_content_opf, spec_content_opf, locate_rootfile, spec_rootfile_path,
};
use crate::strutil::{
    str_eq, str_contains, contains_sub, join_spec, join_strings, dir_of, join_dir, path_dir,
    path_join,
};
use crate::types::{Book, Chapter, BookV, ChapterV, chapters_view, lemma_chapters_view_snoc};
use crate::util::{html_to_text, spec_html_to_text};
use vstd::string::StrSliceExecFns;
use vstd::string::StringExecFns;

verus! {

/// The index of the first `#` in the source reference, or its length.
pub open spec fn hash_idx(s: Seq<char>) -> int
    decreases s.len(),
{
    if s.len() == 0 {
        0
    } else if s[0] == '#' {
        0
    } else {
        1 + hash_idx(s.drop_first())
    }
}

/// The content-file part of a source reference: everything before the
/// first `#`.
pub open spec fn src_file(s: Seq<char>) -> Seq<char> {
    s.take(hash_idx(s))
}

/// The anchor part of a source reference: the segment between the first
/// `#` and the next `#` or the end, or nothing where there is no `#`.
pub open spec fn src_anchor(s: Seq<char>) -> Option<Seq<char>> {
    if hash_idx(s) == s.len() {
        None
    } else {
        Some(src_file(s.skip(hash_idx(s) + 1)))
    }
}

proof fn lemma_hash_idx_at(s: Seq<char>, k: int)
    requires
        0 <= k <= s.len(),
        forall|j: int| 0 <= j < k ==> s[j] != '#',
        k == s.len() || s[k] == '#',
    ensures
        hash_idx(s) == k,
    decreases k,
{
    if k == 0 {
    } else {
        assert(s[0] != '#');
        let t = s.drop_first();
        assert(forall|j: int| 0 <= j < k - 1 ==> t[j] == s[j + 1] && #[trigger] t[j] != '#');
        lemma_hash_idx_at(t, k - 1);
    }
}

/// Splits a source reference at its first `#` into the content-file part
/// and the optional anchor part.
pub fn split_src(src: &str) -> (r: (String, Option<String>))
    ensures
        r.0@ == src_file(src@),
        r.1.deep_view() == src_anchor(src@),
{
    let n = src.unicode_len();
    let mut k: usize = 0;
    loop
        invariant
            n == src@.len(),
            k <= n,
            forall|j: int| 0 <= j < k ==> src@[j] != '#',
        ensures
            k <= n,
            forall|j: int| 0 <= j < k ==> src@[j] != '#',
            k == n || src@[k as int] == '#',
        decreases n - k,
    {
        if k < n {
            if src.get_char(k) == '#' {
                break;
            } else {
                k = k + 1;
            }
        } else {
            break;
        }
    }
    proof {
        lemma_hash_idx_at(src@, k as int);
    }
    let file = String::from_str(src.substring_char(0, k));
    if k == n {
        (file, None)
    } else {
        let rest = src.substring_char(k + 1, n);
        let m = rest.unicode_len();
        let mut t: usize = 0;
        loop
            invariant
                m == rest@.len(),
                rest@ == src@.skip(k + 1),
                t <= m,
                forall|j: int| 0 <= j < t ==> rest@[j] != '#',
            ensures
                t <= m,
                forall|j: int| 0 <= j < t ==> rest@[j] != '#',
                t == m || rest@[t as int] == '#',
            decreases m - t,
        {
            if t < m {
                if rest.get_char(t) == '#' {
                    break;
                } else {
                    t = t + 1;
                }
            } else {
                break;
            }
        }
        proof {
            lemma_hash_idx_at(rest@, t as int);
        }
        let anchor = String::from_str(rest.substring_char(0, t));
        (file, Some(anchor))
    }
}

/// The decoded content files: each href of the manifest pool paired with
/// its text.
pub open spec fn pool_view(pool: Seq<(String, String)>) -> Seq<(Seq<char>, Seq<char>)> {
    pool.map_values(|p: (String, String)| (p.0@, p.1@))
}

/// The text of the content file with this href: the first entry of the
/// pool that carries it.
pub open spec fn pool_lookup(pool: Seq<(Seq<char>, Seq<char>)>, file: Seq<char>) -> Option<
    Seq<char>,
>
    decreases pool.len(),
{
    if pool.len() == 0 {
        None
    } else if pool[0].0 == file {
        Some(pool[0].1)
    } else {
        pool_lookup(pool.drop_first(), file)
    }
}

/// Finds the text of the content file with this href.
fn pool_get<'a>(pool: &'a Vec<(String, String)>, file: &str) -> (r: Option<&'a String>)
    ensures
        match r {
            Some(s) => pool_lookup(pool_view(pool@), file@) == Some(s@),
            None => pool_lookup(pool_view(pool@), file@) is None,
        },
{
    let n = pool.len();
    let mut i: usize = 0;
    proof {
        assert(pool_view(pool@).skip(0) =~= pool_view(pool@));
    }
    while i < n
        invariant
            n == pool.len(),
            i <= n,
            pool_view(pool@).len() == n,
            pool_lookup(pool_view(pool@), file@) == pool_lookup(
                pool_view(pool@).skip(i as int),
                file@,
            ),
        decreases n - i,
    {
        proof {
            let pv = pool_view(pool@);
            assert(pv.skip(i as int)[0] == pv[i as int]);
            assert(pv.skip(i as int).drop_first() =~= pv.skip(i + 1));
            assert(pv[i as int] == (pool@[i as int].0@, pool@[i as int].1@));
        }
        if str_eq(pool[i].0.as_str(), file) {
            return Some(&pool[i].1);
        }
        i = i + 1;
    }
    proof {
        assert(pool_view(pool@).skip(n as int) =~= Seq::<(Seq<char>, Seq<char>)>::empty());
    }
    None
}

/// The stop anchor for extracting one reading-order entry: the next
/// entry's anchor if and only if it refers to the same content file.
pub open spec fn stop_anchor_for(src: Seq<char>, next: Option<Seq<char>>) -> Option<Seq<char>> {
    match next {
        Some(nx) => if src_file(nx) == src_file(src) {
            src_anchor(nx)
        } else {
            None
        },
        None => None,
    }
}

/// What extracting one reading-order entry yields: the text of its content
/// file from its own anchor up to the stop anchor; a file absent from the
/// pool or malformed content fails.
pub open spec fn spec_src_to_text(
    src: Seq<char>,
    next: Option<Seq<char>>,
    pool: Seq<(Seq<char>, Seq<char>)>,
) -> Result<Seq<char>, EpubErrV> {
    match pool_lookup(pool, src_file(src)) {
        None => Err(
            EpubErrV::TocNcx("File "@ + src_file(src) + " in TOC, but not in Manifest"@),
        ),
        Some(text) => match spec_html_to_text(text, src_anchor(src), stop_anchor_for(src, next)) {
            Err(m) => Err(EpubErrV::Html(src_file(src), m)),
            Ok(t) => Ok(t),
        },
    }
}

/// The matching state while walking the spine: the preface source list,
/// the ordered (source, flattened position) assignment list, the most
/// recently matched position, and whether any match has happened yet.
pub struct WalkV {
    pub preface: Seq<Seq<char>>,
    pub assigns: Seq<(Seq<char>, int)>,
    pub last: int,
    pub passed: bool,
}

/// The flattened positions whose source contains the href as a substring,
/// in pre-order. An anchor-carrying source still matches its anchor-free
/// href.
pub open spec fn match_idxs(srcs: Seq<Seq<char>>, href: Seq<char>) -> Seq<int>
    decreases srcs.len(),
{
    if srcs.len() == 0 {
        Seq::empty()
    } else {
        match_idxs(srcs.drop_last(), href) + (if contains_sub(srcs.last(), href) {
            seq![srcs.len() - 1]
        } else {
            Seq::<int>::empty()
        })
    }
}

/// One spine item's effect on the matching state: no match sends its href
/// to the preface or to the most recently matched point; matches append
/// each matched point's own source, in match order.
pub open spec fn walk_step(st: WalkV, href: Seq<char>, flat_srcs: Seq<Seq<char>>) -> WalkV {
    let ms = match_idxs(flat_srcs, href);
    if ms.len() == 0 {
        if st.passed {
            WalkV {
                preface: st.preface,
                assigns: st.assigns.push((href, st.last)),
                last: st.last,
                passed: st.passed,
            }
        } else {
            WalkV {
                preface: st.preface.push(href),
                assigns: st.assigns,
                last: st.last,
                passed: st.passed,
            }
        }
    } else {
        WalkV {
            preface: st.preface,
            assigns: st.assigns + ms.map_values(|m: int| (flat_srcs[m], m)),
            last: ms.last(),
            passed: true,
        }
    }
}

/// The matching state after the first `k` spine items: each resolved
/// through the manifest to its href, an unresolvable id failing the walk.
pub open spec fn spec_walk(
    spine: Seq<Seq<char>>,
    manifest: Seq<ItemV>,
    flat_srcs: Seq<Seq<char>>,
    k: int,
) -> Result<WalkV, EpubErrV>
    decreases k,
{
    if k <= 0 {
        Ok(WalkV { preface: Seq::empty(), assigns: Seq::empty(), last: 0, passed: false })
    } else {
        match spec_walk(spine, manifest, flat_srcs, k - 1) {
            Err(e) => Err(e),
            Ok(st) => match manifest_lookup(manifest, spine[k - 1]) {
                None => Err(EpubErrV::ContentOpf),
                Some(it) => Ok(walk_step(st, it.href, flat_srcs)),
            },
        }
    }
}

proof fn lemma_walk_err_propagates(
    spine: Seq<Seq<char>>,
    manifest: Seq<ItemV>,
    flat_srcs: Seq<Seq<char>>,
    k: int,
    n: int,
)
    requires
        0 <= k <= n,
        spec_walk(spine, manifest, flat_srcs, k) is Err,
    ensures
        spec_walk(spine, manifest, flat_srcs, n) == spec_walk(spine, manifest, flat_srcs, k),
    decreases n - k,
{
    if k < n {
        lemma_walk_err_propagates(spine, manifest, flat_srcs, k + 1, n);
    }
}

/// The per-point accumulators after extracting the first `k` assignment
/// entries: entry `i`'s chunk, bounded by entry `i + 1`, appended to its
/// point's accumulator.
pub open spec fn spec_fill(
    assigns: Seq<(Seq<char>, int)>,
    pool: Seq<(Seq<char>, Seq<char>)>,
    nflat: int,
    k: int,
) -> Result<Seq<Seq<Seq<char>>>, EpubErrV>
    decreases k,
{
    if k <= 0 {
        Ok(Seq::new(nflat as nat, |i: int| Seq::<Seq<char>>::empty()))
    } else {
        match spec_fill(assigns, pool, nflat, k - 1) {
            Err(e) => Err(e),
            Ok(cs) => {
                let src = assigns[k - 1].0;
                let np = assigns[k - 1].1;
                let next = if k < assigns.len() {
                    Some(assigns[k].0)
                } else {
                    None
                };
                match spec_src_to_text(src, next, pool) {
                    Err(e) => Err(e),
                    Ok(chunk) => Ok(cs.update(np, cs[np].push(chunk))),
                }
            },
        }
    }
}

proof fn lemma_fill_err_propagates(
    assigns: Seq<(Seq<char>, int)>,
    pool: Seq<(Seq<char>, Seq<char>)>,
    nflat: int,
    k: int,
    n: int,
)
    requires
        0 <= k <= n,
        spec_fill(assigns, pool, nflat, k) is Err,
    ensures
        spec_fill(assigns, pool, nflat, n) == spec_fill(assigns, pool, nflat, k),
    decreases n - k,
{
    if k < n {
        lemma_fill_err_propagates(assigns, pool, nflat, k + 1, n);
    }
}

proof fn lemma_fill_len(
    assigns: Seq<(Seq<char>, int)>,
    pool: Seq<(Seq<char>, Seq<char>)>,
    nflat: int,
    k: int,
)
    requires
        nflat >= 0,
        k <= assigns.len(),
        forall|t: int| 0 <= t < assigns.len() ==> 0 <= #[trigger] assigns[t].1 < nflat,
        spec_fill(assigns, pool, nflat, k) is Ok,
    ensures
        spec_fill(assigns, pool, nflat, k)->Ok_0.len() == nflat,
    decreases k,
{
    if k > 0 {
        lemma_fill_len(assigns, pool, nflat, k - 1);
    }
}

/// The preface chunks after extracting the first `k` preface sources:
/// each bounded by the next preface source, the last by the first
/// assignment entry.
pub open spec fn spec_preface_fill(
    preface: Seq<Seq<char>>,
    first_assign: Option<Seq<char>>,
    pool: Seq<(Seq<char>, Seq<char>)>,
    k: int,
) -> Result<Seq<Seq<char>>, EpubErrV>
    decreases k,
{
    if k <= 0 {
        Ok(Seq::empty())
    } else {
        match spec_preface_fill(preface, first_assign, pool, k - 1) {
            Err(e) => Err(e),
            Ok(cs) => {
                let next = if k < preface.len() {
                    Some(preface[k])
                } else {
                    first_assign
                };
                match spec_src_to_text(preface[k - 1], next, pool) {
                    Err(e) => Err(e),
                    Ok(chunk) => Ok(cs.push(chunk)),
                }
            },
        }
    }
}

proof fn lemma_preface_fill_err_propagates(
    preface: Seq<Seq<char>>,
    first_assign: Option<Seq<char>>,
    pool: Seq<(Seq<char>, Seq<char>)>,
    k: int,
    n: int,
)
    requires
        0 <= k <= n,
        spec_preface_fill(preface, first_assign, pool, k) is Err,
    ensures
        spec_preface_fill(preface, first_assign, pool, n) == spec_preface_fill(
            preface,
            first_assign,
            pool,
            k,
        ),
    decreases n - k,
{
    if k < n {
        lemma_preface_fill_err_propagates(preface, first_assign, pool, k + 1, n);
    }
}

/// The chapter built from one navigation point: its label (or an empty
/// title), its own chunks at its flattened position joined by newlines,
/// and its children converted at the following positions.
pub open spec fn chapter_of(np: NavPointV, contents: Seq<Seq<Seq<char>>>, base: int) -> ChapterV
    decreases np,
{
    ChapterV {
        title: match np.label {
            Some(l) => l,
            None => Seq::empty(),
        },
        text: join_spec(contents[base], "\n"@),
        subchapters: chapters_of(np.children, contents, base + 1),
    }
}

/// The chapters built from a navigation forest, each subtree occupying
/// its flattened span of positions.
pub open spec fn chapters_of(nps: Seq<NavPointV>, contents: Seq<Seq<Seq<char>>>, base: int) -> Seq<
    ChapterV,
>
    decreases nps,
{
    if nps.len() == 0 {
        Seq::empty()
    } else {
        seq![chapter_of(nps[0], contents, base)] + chapters_of(
            nps.drop_first(),
            contents,
            base + flatten_nav(nps[0]).len(),
        )
    }
}

/// Appending one point to a forest appends its chapter, at the offset
/// past the forest's flattened span.
proof fn lemma_chapters_of_snoc(
    nps: Seq<NavPointV>,
    np: NavPointV,
    contents: Seq<Seq<Seq<char>>>,
    base: int,
)
    ensures
        chapters_of(nps.push(np), contents, base) == chapters_of(nps, contents, base) + seq![
            chapter_of(np, contents, base + flatten_navs(nps).len()),
        ],
    decreases nps,
{
    let p = nps.push(np);
    if nps.len() == 0 {
        assert(p[0] == np);
        assert(p.drop_first() =~= Seq::<NavPointV>::empty());
        assert(chapters_of(Seq::<NavPointV>::empty(), contents, base + flatten_nav(np).len())
            == Seq::<ChapterV>::empty());
        assert(flatten_navs(nps) =~= Seq::<NavPointV>::empty());
        assert(chapters_of(p, contents, base) =~= chapters_of(nps, contents, base) + seq![
            chapter_of(np, contents, base),
        ]);
    } else {
        assert(p[0] == nps[0]);
        assert(p.drop_first() =~= nps.drop_first().push(np));
        lemma_chapters_of_snoc(nps.drop_first(), np, contents, base + flatten_nav(nps[0]).len());
        assert(flatten_navs(nps) == (seq![nps[0]] + flatten_navs(nps[0].children)) + flatten_navs(
            nps.drop_first(),
        ));
        assert(flatten_nav(nps[0]).len() + flatten_navs(nps.drop_first()).len() == flatten_navs(
            nps,
        ).len());
        assert(chapters_of(p, contents, base) =~= chapters_of(nps, contents, base) + seq![
            chapter_of(np, contents, base + flatten_navs(nps).len()),
        ]);
    }
}

/// The chapter forest mirrors the navigation forest: the same number of
/// entries at the top level, and recursively the same shape at every
/// nesting level.
pub open spec fn shape_matches(chs: Seq<ChapterV>, nps: Seq<NavPointV>) -> bool
    decreases nps,
{
    &&& chs.len() == nps.len()
    &&& forall|i: int|
        0 <= i < nps.len() ==> shape_matches(
            #[trigger] chs[i].subchapters,
            nps[i].children,
        )
}

/// No chapter is synthesized or dropped relative to the navigation tree:
/// the chapter forest built from a navigation forest has its shape, at
/// every nesting level.
pub proof fn lemma_chapters_shape(nps: Seq<NavPointV>, contents: Seq<Seq<Seq<char>>>, base: int)
    ensures
        shape_matches(chapters_of(nps, contents, base), nps),
    decreases nps,
{
    if nps.len() > 0 {
        lemma_chapters_shape(nps[0].children, contents, base + 1);
        lemma_chapters_shape(nps.drop_first(), contents, base + flatten_nav(nps[0]).len());
        let chs = chapters_of(nps, contents, base);
        let rest = chapters_of(nps.drop_first(), contents, base + flatten_nav(nps[0]).len());
        assert(chs.len() == nps.len());
        assert forall|i: int| 0 <= i < nps.len() implies shape_matches(
            #[trigger] chs[i].subchapters,
            nps[i].children,
        ) by {
            if i == 0 {
                assert(chs[0] == chapter_of(nps[0], contents, base));
            } else {
                assert(chs[i] == rest[i - 1]);
                assert(nps.drop_first()[i - 1] == nps[i]);
            }
        }
    }
}

/// Reconciliation is total: each spine item the walk consumes is
/// attributed to exactly one of the preface and the chapter assignment
/// list — either its href joins the preface sources, or at least one
/// assignment entry is recorded for it; nothing is silently dropped.
pub proof fn lemma_walk_total(
    spine: Seq<Seq<char>>,
    manifest: Seq<ItemV>,
    flat_srcs: Seq<Seq<char>>,
    i: int,
)
    requires
        0 <= i,
        spec_walk(spine, manifest, flat_srcs, i + 1) is Ok,
    ensures
        spec_walk(spine, manifest, flat_srcs, i) is Ok,
        ({
            let st0 = spec_walk(spine, manifest, flat_srcs, i)->Ok_0;
            let st1 = spec_walk(spine, manifest, flat_srcs, i + 1)->Ok_0;
            ||| (st1.preface.len() == st0.preface.len() + 1 && st1.assigns == st0.assigns)
            ||| (st1.assigns.len() > st0.assigns.len() && st1.preface == st0.preface)
        }),
{
    let st0 = spec_walk(spine, manifest, flat_srcs, i)->Ok_0;
    match manifest_lookup(manifest, spine[i]) {
        None => {},
        Some(it) => {
            let ms = match_idxs(flat_srcs, it.href);
            if ms.len() == 0 {
                if st0.passed {
                    assert(st0.assigns.push((it.href, st0.last)).len() == st0.assigns.len() + 1);
                }
            } else {
                assert(ms.map_values(|m: int| (flat_srcs[m], m)).len() == ms.len());
                assert((st0.assigns + ms.map_values(|m: int| (flat_srcs[m], m))).len()
                    == st0.assigns.len() + ms.len());
            }
        },
    }
}

proof fn lemma_walk_prefix_ok(
    spine: Seq<Seq<char>>,
    manifest: Seq<ItemV>,
    flat_srcs: Seq<Seq<char>>,
    k: int,
    n: int,
)
    requires
        0 <= k <= n,
        spec_walk(spine, manifest, flat_srcs, n) is Ok,
    ensures
        spec_walk(spine, manifest, flat_srcs, k) is Ok,
    decreases n - k,
{
    if k < n {
        lemma_walk_prefix_ok(spine, manifest, flat_srcs, k + 1, n);
    }
}

/// What reconciliation yields on the parsed archive data: the preface
/// text and the chapter forest, or the most specific failure. A
/// navigation forest with no points at all is rejected.
pub open spec fn spec_reconcile(
    opf: OpfV,
    nav: TocV,
    pool: Seq<(Seq<char>, Seq<char>)>,
) -> Result<(Seq<char>, Seq<ChapterV>), EpubErrV> {
    let flat = flatten_navs(nav.nav_points);
    if flat.len() == 0 {
        Err(EpubErrV::TocNcx("No nav points"@))
    } else {
        let flat_srcs = flat.map_values(|np: NavPointV| np.src);
        match spec_walk(opf.spine, opf.manifest, flat_srcs, opf.spine.len() as int) {
            Err(e) => Err(e),
            Ok(st) => match spec_fill(st.assigns, pool, flat.len() as int, st.assigns.len() as int) {
                Err(e) => Err(e),
                Ok(contents) => {
                    let first_assign = if st.assigns.len() > 0 {
                        Some(st.assigns[0].0)
                    } else {
                        None
                    };
                    match spec_preface_fill(st.preface, first_assign, pool, st.preface.len() as int) {
                        Err(e) => Err(e),
                        Ok(pref) => Ok(
                            (join_spec(pref, "\n"@), chapters_of(nav.nav_points, contents, 0)),
                        ),
                    }
                },
            },
        }
    }
}

/// A successful reconciliation yields a chapter forest whose shape is
/// isomorphic to the navigation forest's shape, at every nesting level.
pub proof fn lemma_reconcile_shape(
    opf: OpfV,
    nav: TocV,
    pool: Seq<(Seq<char>, Seq<char>)>,
)
    requires
        spec_reconcile(opf, nav, pool) is Ok,
    ensures
        shape_matches(spec_reconcile(opf, nav, pool)->Ok_0.1, nav.nav_points),
{
    let flat = flatten_navs(nav.nav_points);
    let flat_srcs = flat.map_values(|np: NavPointV| np.src);
    let st = spec_walk(opf.spine, opf.manifest, flat_srcs, opf.spine.len() as int)->Ok_0;
    let contents = spec_fill(st.assigns, pool, flat.len() as int, st.assigns.len() as int)->Ok_0;
    lemma_chapters_shape(nav.nav_points, contents, 0);
}

/// In a successful reconciliation every spine item is attributed to
/// exactly one of the preface and the chapter assignment list: at each
/// step of the walk, either the preface grows by that item's href, or at
/// least one assignment entry is recorded for it.
pub proof fn lemma_reconcile_total(
    opf: OpfV,
    nav: TocV,
    pool: Seq<(Seq<char>, Seq<char>)>,
    i: int,
)
    requires
        spec_reconcile(opf, nav, pool) is Ok,
        0 <= i < opf.spine.len(),
    ensures
        ({
            let flat_srcs = flatten_navs(nav.nav_points).map_values(|np: NavPointV| np.src);
            let st0 = spec_walk(opf.spine, opf.manifest, flat_srcs, i)->Ok_0;
            let st1 = spec_walk(opf.spine, opf.manifest, flat_srcs, i + 1)->Ok_0;
            &&& spec_walk(opf.spine, opf.manifest, flat_srcs, i) is Ok
            &&& spec_walk(opf.spine, opf.manifest, flat_srcs, i + 1) is Ok
            &&& {
                ||| (st1.preface.len() == st0.preface.len() + 1 && st1.assigns == st0.assigns)
                ||| (st1.assigns.len() > st0.assigns.len() && st1.preface == st0.preface)
            }
        }),
{
    let flat_srcs = flatten_navs(nav.nav_points).map_values(|np: NavPointV| np.src);
    lemma_walk_prefix_ok(opf.spine, opf.manifest, flat_srcs, i + 1, opf.spine.len() as int);
    lemma_walk_total(opf.spine, opf.manifest, flat_srcs, i);
}

/// The parsed archive: the content-file pool, the package document
/// directory, the package data, and the navigation tree.
pub struct EpubArchive {
    pub manifest_html_files: Vec<(String, String)>,
    pub content_opf_dir: String,
    pub content_opf: ContentOPF,
    pub navigation: TocNcx,
}

/// The model of a parsed archive.
pub struct ArchiveV {
    pub pool: Seq<(Seq<char>, Seq<char>)>,
    pub dir: Seq<char>,
    pub opf: OpfV,
    pub nav: TocV,
}

impl View for EpubArchive {
    type V = ArchiveV;

    open spec fn view(&self) -> ArchiveV {
        ArchiveV {
            pool: pool_view(self.manifest_html_files@),
            dir: self.content_opf_dir@,
            opf: self.content_opf@,
            nav: self.navigation@,
        }
    }
}

/// The assignment list a vector of (source, position) pairs stands for.
pub open spec fn assigns_view(a: Seq<(String, usize)>) -> Seq<(Seq<char>, int)> {
    a.map_values(|p: (String, usize)| (p.0@, p.1 as int))
}

/// Converts one navigation point into a chapter: its title is its label
/// (or empty), its text is its own accumulated chunks joined by newline,
/// and its subchapters are its children converted in order at the
/// following flattened positions. Returns the chapter and the position
/// just past this subtree.
pub fn convert_np_to_chapter(nav_point: &NavPoint, contents: &Vec<Vec<String>>, base: usize) -> (r:
    (Chapter, usize))
    requires
        base + flatten_nav(nav_point.deep_view()).len() <= contents@.len(),
    ensures
        r.0@ == chapter_of(nav_point.deep_view(), contents.deep_view(), base as int),
        r.1 == base + flatten_nav(nav_point.deep_view()).len(),
    decreases *nav_point,
{
    let title = match &nav_point.label {
        Some(l) => l.clone(),
        None => String::new(),
    };
    proof {
        assert(contents.deep_view()[base as int] == contents@[base as int].deep_view());
    }
    let text = join_strings(&contents[base], "\n");
    let mut subchapters: Vec<Chapter> = Vec::new();
    let n = nav_point.children.len();
    let ghost kids = nav_point.children@;
    let ghost cdv = contents.deep_view();
    proof {
        assert(navs_view(kids.subrange(0, 0)) =~= Seq::<NavPointV>::empty());
        assert(flatten_navs(navs_view(kids.subrange(0, 0))) =~= Seq::<NavPointV>::empty());
        assert(chapters_view(subchapters@) =~= Seq::<ChapterV>::empty());
        assert(chapters_of(navs_view(kids.subrange(0, 0)), cdv, base + 1)
            =~= Seq::<ChapterV>::empty());
        assert(kids.subrange(0, n as int) =~= kids);
        assert(flatten_nav(nav_point.deep_view()).len() >= 1);
    }
    let clen = contents.len();
    let mut off: usize = base + 1;
    let mut i: usize = 0;
    while i < n
        invariant
            n == nav_point.children.len(),
            kids == nav_point.children@,
            cdv == contents.deep_view(),
            i <= n,
            base + 1 <= off,
            off as int == base + 1 + flatten_navs(navs_view(kids.subrange(0, i as int))).len(),
            base + 1 + flatten_navs(navs_view(kids)).len() <= contents@.len(),
            chapters_view(subchapters@) == chapters_of(navs_view(kids.subrange(0, i as int)), cdv, base + 1),
        decreases *nav_point, n - i,
    {
        proof {
            assert(kids =~= kids.subrange(0, i as int) + kids.subrange(i as int, n as int));
            lemma_navs_view_concat(kids.subrange(0, i as int), kids.subrange(i as int, n as int));
            lemma_flatten_concat(
                navs_view(kids.subrange(0, i as int)),
                navs_view(kids.subrange(i as int, n as int)),
            );
            let rest = kids.subrange(i as int, n as int);
            assert(rest[0] == kids[i as int]);
            assert(rest.drop_first() =~= kids.subrange(i + 1, n as int));
            assert(flatten_navs(navs_view(rest)).len() >= flatten_nav(
                nav_view(kids[i as int]),
            ).len()) by {
                assert(navs_view(rest)[0] == nav_view(rest[0]));
            }
        }
        let (ch, noff) = convert_np_to_chapter(&nav_point.children[i], contents, off);
        let ghost subs0 = subchapters@;
        subchapters.push(ch);
        off = noff;
        proof {
            assert(subchapters@ =~= subs0.push(ch));
            lemma_chapters_view_snoc(subs0, ch);
            lemma_navs_view_snoc(kids.subrange(0, i as int), kids[i as int]);
            assert(kids.subrange(0, i as int).push(kids[i as int]) =~= kids.subrange(0, i + 1));
            assert(navs_view(kids.subrange(0, i as int)) + seq![nav_view(kids[i as int])]
                =~= navs_view(kids.subrange(0, i as int)).push(nav_view(kids[i as int])));
            lemma_chapters_of_snoc(
                navs_view(kids.subrange(0, i as int)),
                nav_view(kids[i as int]),
                cdv,
                base + 1,
            );
            lemma_flatten_concat(
                navs_view(kids.subrange(0, i as int)),
                seq![nav_view(kids[i as int])],
            );
            lemma_flatten_single(nav_view(kids[i as int]));
            assert(chapters_view(subchapters@) =~= chapters_of(
                navs_view(kids.subrange(0, i + 1)),
                cdv,
                base + 1,
            ));
        }
        i = i + 1;
    }
    let ch = Chapter { title, text, subchapters };
    proof {
        assert(kids.subrange(0, n as int) =~= kids);
        assert(nav_point.deep_view().children == navs_view(kids));
        assert(ch@ =~~= chapter_of(nav_point.deep_view(), cdv, base as int));
    }
    (ch, off)
}

/// The decoded content-file pool that the manifest yields: every item of
/// media type `application/xhtml+xml`, in manifest order, paired with the
/// text of its entry; an entry that cannot be read fails the pool.
pub open spec fn spec_pool(
    items: Seq<ItemV>,
    dir: Seq<char>,
    entries: Map<Seq<char>, Seq<char>>,
) -> Option<Seq<(Seq<char>, Seq<char>)>>
    decreases items.len(),
{
    if items.len() == 0 {
        Some(Seq::empty())
    } else {
        match spec_pool(items.drop_last(), dir, entries) {
            None => None,
            Some(p) => {
                let it = items.last();
                if it.media_type == "application/xhtml+xml"@ {
                    if entries.contains_key(join_dir(dir, it.href)) {
                        Some(p.push((it.href, entries[join_dir(dir, it.href)])))
                    } else {
                        None
                    }
                } else {
                    Some(p)
                }
            },
        }
    }
}

proof fn lemma_pool_prefix_none(
    items: Seq<ItemV>,
    dir: Seq<char>,
    entries: Map<Seq<char>, Seq<char>>,
    k: int,
)
    requires
        0 <= k <= items.len(),
        spec_pool(items.subrange(0, k), dir, entries) is None,
    ensures
        spec_pool(items, dir, entries) is None,
    decreases items.len(),
{
    if k == items.len() {
        assert(items.subrange(0, k) =~= items);
    } else {
        assert(items.drop_last() =~= items.subrange(0, items.len() - 1));
        assert(items.subrange(0, items.len() - 1).subrange(0, k) =~= items.subrange(0, k));
        lemma_pool_prefix_none(items.subrange(0, items.len() - 1), dir, entries, k);
    }
}

/// What opening and parsing the archive yields, before reconciliation:
/// the content pool, the package directory, the package data and the
/// navigation tree, or the most specific failure.
pub open spec fn spec_archive(bytes: Seq<u8>) -> Result<ArchiveV, ParseErrV> {
    match zip_parse(bytes) {
        None => Err(ParseErrV::Zip),
        Some(entries) => {
            if !entries.contains_key("META-INF/container.xml"@) {
                Err(ParseErrV::Zip)
            } else {
                match spec_rootfile_path(entries["META-INF/container.xml"@]) {
                    None => Err(ParseErrV::Epub(EpubErrV::Container)),
                    Some(path) => {
                        if !entries.contains_key(path) {
                            Err(ParseErrV::Zip)
                        } else {
                            match spec_content_opf(entries[path]) {
                                None => Err(ParseErrV::Epub(EpubErrV::ContentOpf)),
                                Some(opf) => match manifest_lookup(opf.manifest, "ncx"@) {
                                    None => Err(ParseErrV::Epub(EpubErrV::ContentOpf)),
                                    Some(it) => {
                                        if !entries.contains_key(
                                            join_dir(dir_of(path), it.href),
                                        ) {
                                            Err(ParseErrV::Zip)
                                        } else {
                                            match spec_parse_ncx(
                                                entries[join_dir(dir_of(path), it.href)],
                                            ) {
                                                Err(m) => Err(ParseErrV::Epub(EpubErrV::TocNcx(m))),
                                                Ok(nav) => match spec_pool(
                                                    opf.manifest,
                                                    dir_of(path),
                                                    entries,
                                                ) {
                                                    None => Err(ParseErrV::Zip),
                                                    Some(pool) => Ok(
                                                        ArchiveV {
                                                            pool,
                                                            dir: dir_of(path),
                                                            opf,
                                                            nav,
                                                        },
                                                    ),
                                                },
                                            }
                                        }
                                    },
                                },
                            }
                        }
                    },
                }
            }
        },
    }
}

impl EpubArchive {
    /// Opens the archive and parses its structural documents: locates the
    /// package document through `container.xml`, parses it, locates and
    /// parses the navigation document through the manifest entry with id
    /// `ncx`, and reads every content file of media type
    /// `application/xhtml+xml` into the pool.
    #[verifier::loop_isolation(false)]
    pub fn new(bytes: &[u8]) -> (r: Result<EpubArchive, ParseError>)
        ensures
            match r {
                Ok(a) => spec_archive(bytes@) == Ok::<ArchiveV, ParseErrV>(a@),
                Err(e) => spec_archive(bytes@) == Err::<ArchiveV, ParseErrV>(e@),
            },
    {
        let mut zip = match zip_open(bytes) {
            Ok(z) => z,
            Err(k) => {
                return Err(ParseError::ZipError(k));
            },
        };
        let ghost entries = zip_entries(zip);
        let container_text = match zip_read(&mut zip, "META-INF/container.xml") {
            Ok(t) => t,
            Err(k) => {
                return Err(ParseError::ZipError(k));
            },
        };
        let content_opf_path = match locate_rootfile(container_text.as_str()) {
            Some(p) => p,
            None => {
                return Err(
                    ParseError::EpubError(MalformattedEpubError::MalformattedContainer),
                );
            },
        };
        let content_opf_dir = path_dir(content_opf_path.as_str());
        let content_opf_text = match zip_read(&mut zip, content_opf_path.as_str()) {
            Ok(t) => t,
            Err(k) => {
                return Err(ParseError::ZipError(k));
            },
        };
        let content_opf = match parse_content_opf(content_opf_text.as_str()) {
            Some(o) => o,
            None => {
                return Err(
                    ParseError::EpubError(MalformattedEpubError::MalformattedContentOpf),
                );
            },
        };
        let ncx_href = match manifest_get(&content_opf.manifest, "ncx") {
            Some(it) => it.href.clone(),
            None => {
                return Err(
                    ParseError::EpubError(MalformattedEpubError::MalformattedContentOpf),
                );
            },
        };
        let ncx_path = path_join(content_opf_dir.as_str(), ncx_href.as_str());
        let ncx_text = match zip_read(&mut zip, ncx_path.as_str()) {
            Ok(t) => t,
            Err(k) => {
                return Err(ParseError::ZipError(k));
            },
        };
        let navigation = match parse_ncx(ncx_text.as_str()) {
            Ok(n) => n,
            Err(e) => {
                return Err(ParseError::EpubError(e));
            },
        };
        let ghost manv = view_items(content_opf.manifest@);
        let mut pool: Vec<(String, String)> = Vec::new();
        let nm = content_opf.manifest.len();
        proof {
            assert(manv.subrange(0, 0) =~= Seq::<ItemV>::empty());
            assert(pool_view(pool@) =~= Seq::<(Seq<char>, Seq<char>)>::empty());
        }
        let mut i: usize = 0;
        while i < nm
            invariant
                i <= nm,
                zip_entries(zip) == entries,
                spec_pool(manv.subrange(0, i as int), content_opf_dir@, entries) == Some(
                    pool_view(pool@),
                ),
            decreases nm - i,
        {
            proof {
                assert(manv.subrange(0, i + 1).drop_last() =~= manv.subrange(0, i as int));
                assert(manv.subrange(0, i + 1).last() == manv[i as int]);
                assert(manv[i as int] == content_opf.manifest@[i as int]@);
            }
            let it = &content_opf.manifest[i];
            if str_eq(it.media_type.as_str(), "application/xhtml+xml") {
                let full = path_join(content_opf_dir.as_str(), it.href.as_str());
                match zip_read(&mut zip, full.as_str()) {
                    Ok(c) => {
                        let ghost p0 = pool@;
                        pool.push((it.href.clone(), c));
                        proof {
                            assert(pool_view(pool@) =~= pool_view(p0).push(
                                (manv[i as int].href, entries[full@]),
                            ));
                        }
                    },
                    Err(k) => {
                        proof {
                            assert(spec_pool(
                                manv.subrange(0, i + 1),
                                content_opf_dir@,
                                entries,
                            ) is None);
                            lemma_pool_prefix_none(manv, content_opf_dir@, entries, i + 1);
                        }
                        return Err(ParseError::ZipError(k));
                    },
                }
            } else {
                proof {
                    assert(spec_pool(manv.subrange(0, i + 1), content_opf_dir@, entries)
                        == Some(pool_view(pool@)));
                }
            }
            i = i + 1;
        }
        proof {
            assert(manv.subrange(0, nm as int) =~= manv);
        }
        let archive = EpubArchive {
            manifest_html_files: pool,
            content_opf_dir,
            content_opf,
            navigation,
        };
        proof {
            assert(spec_archive(bytes@) =~~= Ok::<ArchiveV, ParseErrV>(archive@));
        }
        Ok(archive)
    }

    /// The title of the parsed package document.
    pub fn get_title(&self) -> (r: &str)
        ensures
            r@ == self@.opf.title,
    {
        self.content_opf.title.as_str()
    }

    /// Extracts the text of one reading-order entry: from its source's
    /// anchor to the end of the file, or to the next entry's anchor where
    /// that entry refers to the same content file.
    pub fn src_to_text(&self, src: &str, next_src: Option<&str>) -> (r: Result<String, ParseError>)
        ensures
            match r {
                Ok(s) => spec_src_to_text(src@, next_src.deep_view(), self@.pool) == Ok::<
                    Seq<char>,
                    EpubErrV,
                >(s@),
                Err(e) => e matches ParseError::EpubError(ee) && spec_src_to_text(
                    src@,
                    next_src.deep_view(),
                    self@.pool,
                ) == Err::<Seq<char>, EpubErrV>(ee@),
            },
    {
        let (file, anchor) = split_src(src);
        let stop: Option<String> = match next_src {
            Some(nx) => {
                let (nfile, nanchor) = split_src(nx);
                if str_eq(nfile.as_str(), file.as_str()) {
                    nanchor
                } else {
                    None
                }
            },
            None => None,
        };
        let full_text = match pool_get(&self.manifest_html_files, file.as_str()) {
            Some(t) => t,
            None => {
                let mut msg = String::from_str("File ");
                msg.append(file.as_str());
                msg.append(" in TOC, but not in Manifest");
                return Err(
                    ParseError::EpubError(MalformattedEpubError::MalformattedTocNcx(msg)),
                );
            },
        };
        let start_ref: Option<&str> = match &anchor {
            Some(a) => Some(a.as_str()),
            None => None,
        };
        let stop_ref: Option<&str> = match &stop {
            Some(a) => Some(a.as_str()),
            None => None,
        };
        proof {
            assert(start_ref.deep_view() =~= src_anchor(src@));
            assert(stop_ref.deep_view() =~= stop_anchor_for(src@, next_src.deep_view()));
        }
        match html_to_text(full_text.as_str(), start_ref, stop_ref) {
            Ok(t) => Ok(t),
            Err(e) => Err(
                ParseError::EpubError(
                    MalformattedEpubError::MalformattedHTML(file, e.message),
                ),
            ),
        }
    }

    /// The reconciliation walk: partitions reading-order content between
    /// the preface and the navigation points, extracts each entry's text,
    /// and rebuilds the nested chapter tree.
    pub fn item_refs_to_chapters(&self) -> (r: Result<(String, Vec<Chapter>), ParseError>)
        ensures
            match r {
                Ok(pc) => spec_reconcile(self@.opf, self@.nav, self@.pool) == Ok::<
                    (Seq<char>, Seq<ChapterV>),
                    EpubErrV,
                >((pc.0@, chapters_view(pc.1@))),
                Err(e) => e matches ParseError::EpubError(ee) && spec_reconcile(
                    self@.opf,
                    self@.nav,
                    self@.pool,
                ) == Err::<(Seq<char>, Seq<ChapterV>), EpubErrV>(ee@),
            },
    {
        let ghost flat = flatten_navs(self@.nav.nav_points);
        let ghost fsrcs = flat.map_values(|np: NavPointV| np.src);
        let ghost spinev = self.content_opf.spine.deep_view();
        let ghost manv = view_items(self.content_opf.manifest@);
        let ghost poolv = self@.pool;
        let flattened = self.navigation.get_flattened_nav_points();
        let nflat = flattened.len();
        proof {
            assert(flattened.deep_view().len() == flattened@.len());
        }
        if nflat == 0 {
            return Err(
                ParseError::EpubError(
                    MalformattedEpubError::MalformattedTocNcx(String::from_str("No nav points")),
                ),
            );
        }
        proof {
            assert(fsrcs.len() == nflat);
            assert(forall|j: int|
                0 <= j < nflat ==> #[trigger] flattened.deep_view()[j] == flattened@[
                    j
                ].deep_view());
            assert(forall|j: int| 0 <= j < nflat ==> #[trigger] fsrcs[j] == flat[j].src);
        }
        let mut preface_sources: Vec<String> = Vec::new();
        let mut assigns: Vec<(String, usize)> = Vec::new();
        let mut last: usize = 0;
        let mut passed = false;
        let ns = self.content_opf.spine.len();
        proof {
            assert(spinev.len() == ns);
            assert(preface_sources.deep_view() =~= Seq::<Seq<char>>::empty());
            assert(assigns_view(assigns@) =~= Seq::<(Seq<char>, int)>::empty());
        }
        let mut i: usize = 0;
        while i < ns
            invariant
                ns == self.content_opf.spine.len(),
                i <= ns,
                nflat == flattened.len(),
                nflat > 0,
                flat == flatten_navs(self@.nav.nav_points),
                fsrcs == flat.map_values(|np: NavPointV| np.src),
                fsrcs.len() == nflat,
                flattened.deep_view() == flat,
                spinev == self.content_opf.spine.deep_view(),
                manv == view_items(self.content_opf.manifest@),
                last < nflat,
                forall|t: int|
                    0 <= t < assigns@.len() ==> 0 <= #[trigger] assigns_view(assigns@)[t].1
                        < nflat,
                spec_walk(spinev, manv, fsrcs, i as int) == Ok::<WalkV, EpubErrV>(
                    WalkV {
                        preface: preface_sources.deep_view(),
                        assigns: assigns_view(assigns@),
                        last: last as int,
                        passed: passed,
                    },
                ),
            decreases ns - i,
        {
            let ghost st0 = WalkV {
                preface: preface_sources.deep_view(),
                assigns: assigns_view(assigns@),
                last: last as int,
                passed: passed,
            };
            proof {
                assert(spinev[i as int] == self.content_opf.spine@[i as int]@);
            }
            let id = &self.content_opf.spine[i];
            let item = match manifest_get(&self.content_opf.manifest, id.as_str()) {
                Some(it) => it,
                None => {
                    proof {
                        lemma_walk_err_propagates(spinev, manv, fsrcs, i + 1, ns as int);
                    }
                    return Err(
                        ParseError::EpubError(MalformattedEpubError::MalformattedContentOpf),
                    );
                },
            };
            let ghost href = item@.href;
            let mut ms: Vec<usize> = Vec::new();
            proof {
                assert(fsrcs.subrange(0, 0) =~= Seq::<Seq<char>>::empty());
                assert(ms@.map_values(|u: usize| u as int) =~= match_idxs(
                    fsrcs.subrange(0, 0),
                    href,
                ));
            }
            let mut j: usize = 0;
            while j < nflat
                invariant
                    nflat == flattened.len(),
                    j <= nflat,
                    fsrcs.len() == nflat,
                    flattened.deep_view() == flat,
                    fsrcs == flat.map_values(|np: NavPointV| np.src),
                    href == item@.href,
                    ms@.map_values(|u: usize| u as int) == match_idxs(
                        fsrcs.subrange(0, j as int),
                        href,
                    ),
                    forall|t: int| 0 <= t < ms@.len() ==> #[trigger] ms@[t] < nflat,
                decreases nflat - j,
            {
                proof {
                    assert(fsrcs.subrange(0, j + 1).drop_last() =~= fsrcs.subrange(0, j as int));
                    assert(fsrcs.subrange(0, j + 1).last() == fsrcs[j as int]);
                    assert(flattened.deep_view()[j as int] == flattened@[j as int].deep_view());
                    assert(fsrcs[j as int] == flat[j as int].src);
                }
                let matched = str_contains(flattened[j].src.as_str(), item.href.as_str());
                if matched {
                    let ghost ms0 = ms@;
                    ms.push(j);
                    proof {
                        assert(ms@.map_values(|u: usize| u as int) =~= ms0.map_values(
                            |u: usize| u as int,
                        ).push(j as int));
                    }
                }
                j = j + 1;
            }
            proof {
                assert(fsrcs.subrange(0, nflat as int) =~= fsrcs);
            }
            let ghost msv = match_idxs(fsrcs, href);
            if ms.len() == 0 {
                proof {
                    assert(msv.len() == 0);
                }
                if passed {
                    let ghost a0 = assigns@;
                    assigns.push((item.href.clone(), last));
                    proof {
                        assert(assigns_view(assigns@) =~= assigns_view(a0).push(
                            (href, last as int),
                        ));
                        assert(walk_step(st0, href, fsrcs) =~~= WalkV {
                            preface: preface_sources.deep_view(),
                            assigns: assigns_view(assigns@),
                            last: last as int,
                            passed: passed,
                        });
                    }
                } else {
                    let ghost p0 = preface_sources.deep_view();
                    preface_sources.push(item.href.clone());
                    proof {
                        assert(preface_sources.deep_view() =~= p0.push(href));
                        assert(walk_step(st0, href, fsrcs) =~~= WalkV {
                            preface: preface_sources.deep_view(),
                            assigns: assigns_view(assigns@),
                            last: last as int,
                            passed: passed,
                        });
                    }
                }
            } else {
                let nm = ms.len();
                let ghost mapped = msv.map_values(|m: int| (fsrcs[m], m));
                proof {
                    assert(msv.len() == nm);
                    assert(mapped.subrange(0, 0) =~= Seq::<(Seq<char>, int)>::empty());
                    assert(assigns_view(assigns@) + mapped.subrange(0, 0)
                        =~= assigns_view(assigns@));
                }
                let ghost abase = assigns_view(assigns@);
                let mut t: usize = 0;
                while t < nm
                    invariant
                        nm == ms.len(),
                        t <= nm,
                        nflat == flattened.len(),
                        flattened.deep_view() == flat,
                        fsrcs == flat.map_values(|np: NavPointV| np.src),
                        fsrcs.len() == nflat,
                        msv.len() == nm,
                        msv == ms@.map_values(|u: usize| u as int),
                        forall|u: int| 0 <= u < ms@.len() ==> #[trigger] ms@[u] < nflat,
                        mapped == msv.map_values(|m: int| (fsrcs[m], m)),
                        assigns_view(assigns@) == abase + mapped.subrange(0, t as int),
                        t > 0 ==> last as int == msv[t - 1],
                        t == 0 ==> last as int == st0.last,
                        last < nflat,
                    decreases nm - t,
                {
                    let m = ms[t];
                    proof {
                        assert(msv[t as int] == m as int);
                        assert(flattened.deep_view()[m as int] == flattened@[m as int].deep_view());
                        assert(fsrcs[m as int] == flat[m as int].src);
                    }
                    let ghost a0 = assigns@;
                    assigns.push((flattened[m].src.clone(), m));
                    last = m;
                    proof {
                        assert(assigns_view(assigns@) =~= assigns_view(a0).push(
                            (fsrcs[m as int], m as int),
                        ));
                        assert(mapped[t as int] == (fsrcs[msv[t as int]], msv[t as int]));
                        assert(mapped.subrange(0, t as int).push(mapped[t as int])
                            =~= mapped.subrange(0, t + 1));
                        assert(assigns_view(assigns@) =~= abase + mapped.subrange(0, t + 1));
                    }
                    t = t + 1;
                }
                passed = true;
                proof {
                    assert(mapped.subrange(0, nm as int) =~= mapped);
                    assert(msv.last() == msv[nm - 1]);
                    assert(walk_step(st0, href, fsrcs) =~~= WalkV {
                        preface: preface_sources.deep_view(),
                        assigns: assigns_view(assigns@),
                        last: last as int,
                        passed: passed,
                    });
                }
            }
            proof {
                assert(manifest_lookup(manv, spinev[i as int]) == Some(item@));
                assert(spec_walk(spinev, manv, fsrcs, i + 1) == Ok::<WalkV, EpubErrV>(
                    WalkV {
                        preface: preface_sources.deep_view(),
                        assigns: assigns_view(assigns@),
                        last: last as int,
                        passed: passed,
                    },
                ));
            }
            i = i + 1;
        }
        let ghost wst = WalkV {
            preface: preface_sources.deep_view(),
            assigns: assigns_view(assigns@),
            last: last as int,
            passed: passed,
        };
        let ghost assignsv = assigns_view(assigns@);
        let ghost prefacev = preface_sources.deep_view();
        proof {
            assert(spinev == self@.opf.spine);
            assert(manv == self@.opf.manifest);
            assert(spinev.len() == ns);
        }
        // the per-point accumulators, one per flattened position
        let mut contents: Vec<Vec<String>> = Vec::new();
        while contents.len() < nflat
            invariant
                contents.deep_view().len() == contents@.len(),
                forall|x: int|
                    0 <= x < contents@.len() ==> #[trigger] contents.deep_view()[x]
                        == Seq::<Seq<char>>::empty(),
                contents@.len() <= nflat,
            decreases nflat - contents@.len(),
        {
            let ghost c0 = contents@;
            let ghost dv0 = contents.deep_view();
            contents.push(Vec::new());
            proof {
                assert(contents@.drop_last() =~= c0);
                assert(contents@[contents@.len() - 1].deep_view() =~= Seq::<Seq<char>>::empty());
                assert forall|x: int| 0 <= x < contents@.len() implies #[trigger] contents.deep_view()[x]
                    == Seq::<Seq<char>>::empty() by {
                    assert(contents.deep_view()[x] == contents@[x].deep_view());
                    if x < contents@.len() - 1 {
                        assert(contents@[x] == c0[x]);
                        assert(dv0[x] == c0[x].deep_view());
                        assert(dv0[x] == Seq::<Seq<char>>::empty());
                    }
                }
            }
        }
        proof {
            assert(contents.deep_view() =~= Seq::new(
                nflat as nat,
                |x: int| Seq::<Seq<char>>::empty(),
            ));
            assert(spec_fill(assignsv, poolv, nflat as int, 0) == Ok::<
                Seq<Seq<Seq<char>>>,
                EpubErrV,
            >(contents.deep_view()));
        }
        let na = assigns.len();
        proof {
            assert(assignsv.len() == na);
        }
        let mut k: usize = 0;
        while k < na
            invariant
                na == assigns.len(),
                k <= na,
                nflat == flattened.len(),
                assignsv == assigns_view(assigns@),
                poolv == self@.pool,
                contents@.len() == nflat,
                flat == flatten_navs(self@.nav.nav_points),
                nflat == flat.len(),
                nflat > 0,
                fsrcs == flat.map_values(|np: NavPointV| np.src),
                spec_walk(self@.opf.spine, self@.opf.manifest, fsrcs, self@.opf.spine.len() as int)
                    == Ok::<WalkV, EpubErrV>(wst),
                wst.assigns == assignsv,
                wst.preface == prefacev,
                forall|u: int|
                    0 <= u < assignsv.len() ==> 0 <= #[trigger] assignsv[u].1 < nflat,
                spec_fill(assignsv, poolv, nflat as int, k as int) == Ok::<
                    Seq<Seq<Seq<char>>>,
                    EpubErrV,
                >(contents.deep_view()),
            decreases na - k,
        {
            proof {
                assert(assignsv[k as int] == (assigns@[k as int].0@, assigns@[k as int].1 as int));
                if k + 1 < na {
                    assert(assignsv[k + 1] == (assigns@[k + 1].0@, assigns@[k + 1].1 as int));
                }
            }
            let ghost nextv: Option<Seq<char>> = if k + 1 < assignsv.len() {
                Some(assignsv[k + 1].0)
            } else {
                None
            };
            let next: Option<&str> = if k + 1 < na {
                Some(assigns[k + 1].0.as_str())
            } else {
                None
            };
            proof {
                assert(next.deep_view() == nextv);
                assert(assigns@[k as int].0@ == assignsv[k as int].0);
            }
            let chunk = match self.src_to_text(assigns[k].0.as_str(), next) {
                Ok(c) => c,
                Err(e) => {
                    proof {
                        assert(spec_fill(assignsv, poolv, nflat as int, k + 1) is Err);
                        lemma_fill_err_propagates(assignsv, poolv, nflat as int, k + 1, na as int);
                    }
                    return Err(e);
                },
            };
            let np = assigns[k].1;
            let ghost c0 = contents.deep_view();
            contents[np].push(chunk);
            proof {
                assert(contents.deep_view() =~~= c0.update(
                    np as int,
                    c0[np as int].push(chunk@),
                ));
            }
            k = k + 1;
        }
        let ghost contentsv = contents.deep_view();
        // the preface chunks, each bounded by the next preface source or
        // the first assignment entry
        let first_assign: Option<&str> = if assigns.len() > 0 {
            Some(assigns[0].0.as_str())
        } else {
            None
        };
        let ghost firstv = first_assign.deep_view();
        proof {
            if assigns@.len() > 0 {
                assert(assignsv[0] == (assigns@[0].0@, assigns@[0].1 as int));
            }
            assert(firstv == (if wst.assigns.len() > 0 {
                Some(wst.assigns[0].0)
            } else {
                Option::<Seq<char>>::None
            }));
        }
        let mut preface_content: Vec<String> = Vec::new();
        let npf = preface_sources.len();
        proof {
            assert(prefacev.len() == npf);
            assert(preface_content.deep_view() =~= Seq::<Seq<char>>::empty());
        }
        let mut q: usize = 0;
        while q < npf
            invariant
                npf == preface_sources.len(),
                q <= npf,
                prefacev == preface_sources.deep_view(),
                poolv == self@.pool,
                firstv == first_assign.deep_view(),
                flat == flatten_navs(self@.nav.nav_points),
                nflat == flat.len(),
                nflat > 0,
                fsrcs == flat.map_values(|np: NavPointV| np.src),
                spec_walk(self@.opf.spine, self@.opf.manifest, fsrcs, self@.opf.spine.len() as int)
                    == Ok::<WalkV, EpubErrV>(wst),
                wst.assigns == assignsv,
                wst.preface == prefacev,
                assignsv.len() == na,
                contentsv == contents.deep_view(),
                spec_fill(assignsv, poolv, nflat as int, na as int) == Ok::<
                    Seq<Seq<Seq<char>>>,
                    EpubErrV,
                >(contentsv),
                firstv == (if wst.assigns.len() > 0 {
                    Some(wst.assigns[0].0)
                } else {
                    Option::<Seq<char>>::None
                }),
                spec_preface_fill(prefacev, firstv, poolv, q as int) == Ok::<
                    Seq<Seq<char>>,
                    EpubErrV,
                >(preface_content.deep_view()),
            decreases npf - q,
        {
            proof {
                assert(prefacev[q as int] == preface_sources@[q as int]@);
                if q + 1 < npf {
                    assert(prefacev[q + 1] == preface_sources@[q + 1]@);
                }
            }
            let ghost nextv: Option<Seq<char>> = if q + 1 < prefacev.len() {
                Some(prefacev[q + 1])
            } else {
                firstv
            };
            let next: Option<&str> = if q + 1 < npf {
                Some(preface_sources[q + 1].as_str())
            } else {
                first_assign
            };
            proof {
                assert(next.deep_view() == nextv);
            }
            let chunk = match self.src_to_text(preface_sources[q].as_str(), next) {
                Ok(c) => c,
                Err(e) => {
                    proof {
                        assert(spec_preface_fill(prefacev, firstv, poolv, q + 1) is Err);
                        lemma_preface_fill_err_propagates(
                            prefacev,
                            firstv,
                            poolv,
                            q + 1,
                            npf as int,
                        );
                    }
                    return Err(e);
                },
            };
            let ghost pc0 = preface_content.deep_view();
            preface_content.push(chunk);
            proof {
                assert(preface_content.deep_view() =~= pc0.push(chunk@));
            }
            q = q + 1;
        }
        // rebuild the nested chapter tree
        let nroots = self.navigation.nav_points.len();
        let ghost roots = self.navigation.nav_points@;
        proof {
            assert(navs_view(roots) == self@.nav.nav_points);
            assert(navs_view(roots.subrange(0, 0)) =~= Seq::<NavPointV>::empty());
            assert(flatten_navs(navs_view(roots.subrange(0, 0))) =~= Seq::<NavPointV>::empty());
            assert(chapters_of(navs_view(roots.subrange(0, 0)), contentsv, 0)
                =~= Seq::<ChapterV>::empty());
            assert(chapters_view(Seq::<Chapter>::empty()) =~= Seq::<ChapterV>::empty());
            lemma_fill_len(assignsv, poolv, nflat as int, na as int);
            assert(roots.subrange(0, nroots as int) =~= roots);
        }
        let mut chapters: Vec<Chapter> = Vec::new();
        let mut base: usize = 0;
        let mut c: usize = 0;
        while c < nroots
            invariant
                nroots == self.navigation.nav_points.len(),
                roots == self.navigation.nav_points@,
                c <= nroots,
                contentsv == contents.deep_view(),
                contents@.len() == nflat,
                flat == flatten_navs(navs_view(roots)),
                nflat == flat.len(),
                base as int == flatten_navs(navs_view(roots.subrange(0, c as int))).len(),
                chapters_view(chapters@) == chapters_of(
                    navs_view(roots.subrange(0, c as int)),
                    contentsv,
                    0,
                ),
            decreases nroots - c,
        {
            proof {
                assert(roots =~= roots.subrange(0, c as int) + roots.subrange(
                    c as int,
                    nroots as int,
                ));
                lemma_navs_view_concat(
                    roots.subrange(0, c as int),
                    roots.subrange(c as int, nroots as int),
                );
                lemma_flatten_concat(
                    navs_view(roots.subrange(0, c as int)),
                    navs_view(roots.subrange(c as int, nroots as int)),
                );
                let rest = roots.subrange(c as int, nroots as int);
                assert(rest[0] == roots[c as int]);
                assert(rest.drop_first() =~= roots.subrange(c + 1, nroots as int));
                assert(navs_view(rest)[0] == nav_view(rest[0]));
                assert(flatten_navs(navs_view(rest)).len() >= flatten_nav(
                    nav_view(roots[c as int]),
                ).len());
            }
            let (ch, nbase) = convert_np_to_chapter(&self.navigation.nav_points[c], &contents, base);
            let ghost chs0 = chapters@;
            chapters.push(ch);
            proof {
                assert(chapters@ =~= chs0.push(ch));
                lemma_chapters_view_snoc(chs0, ch);
                lemma_navs_view_snoc(roots.subrange(0, c as int), roots[c as int]);
                assert(roots.subrange(0, c as int).push(roots[c as int]) =~= roots.subrange(
                    0,
                    c + 1,
                ));
                assert(navs_view(roots.subrange(0, c as int)) + seq![nav_view(roots[c as int])]
                    =~= navs_view(roots.subrange(0, c as int)).push(nav_view(roots[c as int])));
                lemma_chapters_of_snoc(
                    navs_view(roots.subrange(0, c as int)),
                    nav_view(roots[c as int]),
                    contentsv,
                    0,
                );
                lemma_flatten_concat(
                    navs_view(roots.subrange(0, c as int)),
                    seq![nav_view(roots[c as int])],
                );
                lemma_flatten_single(nav_view(roots[c as int]));
                assert(chapters_view(chapters@) =~= chapters_of(
                    navs_view(roots.subrange(0, c + 1)),
                    contentsv,
                    0,
                ));
            }
            base = nbase;
            c = c + 1;
        }
        let preface_text = join_strings(&preface_content, "\n");
        proof {
            assert(roots.subrange(0, nroots as int) =~= roots);
        }
        Ok((preface_text, chapters))
    }

    /// Converts the parsed archive to a book: the reconciliation result
    /// together with the package title and author.
    pub fn to_book(&self) -> (r: Result<Book, ParseError>)
        ensures
            match r {
                Ok(b) => spec_reconcile(self@.opf, self@.nav, self@.pool) matches Ok(pc) && b@
                    == (BookV {
                    title: self@.opf.title,
                    author: self@.opf.author,
                    preface_content: pc.0,
                    chapters: pc.1,
                }),
                Err(e) => e matches ParseError::EpubError(ee) && spec_reconcile(
                    self@.opf,
                    self@.nav,
                    self@.pool,
                ) == Err::<(Seq<char>, Seq<ChapterV>), EpubErrV>(ee@),
            },
    {
        let (preface_content, chapters) = match self.item_refs_to_chapters() {
            Ok(pc) => pc,
            Err(e) => {
                return Err(e);
            },
        };
        let author = match &self.content_opf.author {
            Some(a) => Some(a.clone()),
            None => None,
        };
        Ok(
            Book {
                title: self.content_opf.title.clone(),
                author,
                preface_content,
                chapters,
            },
        )
    }
}

} // verus!
