//! The path router: a trie keyed by literal and parametric path segments,
//! holding one handler per HTTP method at each node.
//!
//! The trie is an arena: nodes are numbered, a parent always carries a lower
//! number than its children, and edges record `(parent, segment, child)`.
//! Registration walks the segments of a pattern, growing the arena where a
//! segment has no edge yet, and stores the handler at the node reached.
//! Lookup walks the segments of a request path, preferring an edge whose
//! label equals the segment and falling back to the node's parametric edge
//! (label starting with `:`), binding the segment's text to the parameter
//! name.  A node carries at most one parametric label: a registration that
//! would put a second, differently named one under the same node is rejected
//! at registration time, leaving the router unchanged.  Empty segments are
//! dropped on both sides, so `/a//b` and `/a/b` name the same route.  After
//! mounting, the router is only ever read.

use vstd::prelude::*;
use vstd::pervasive::VecAdditionalExecFns;
use crate::method::Method;
use crate::strutil::{Sep, pairs_view, split_nonempty, split_nonempty_str, str_eq};

verus! {

/// The nonempty `/`-separated segments of a path.
pub open spec fn path_segs(p: Seq<char>) -> Seq<Seq<char>> {
    split_nonempty(p, Sep::Slash)
}

/// Whether a registered segment is a parameter capture.
pub open spec fn is_param(key: Seq<char>) -> bool {
    key.len() > 0 && key[0] == ':'
}

/// One trie edge, at the specification level.
#[verifier::ext_equal]
pub struct EdgeV {
    pub parent: int,
    pub key: Seq<char>,
    pub child: int,
}

/// The router's mathematical model: an arena of `n_nodes` nodes, its labelled
/// edges, and one optional handler per node and method.
#[verifier::ext_equal]
pub struct RouterV<H> {
    pub n_nodes: int,
    pub edges: Seq<EdgeV>,
    pub h_get: Seq<Option<H>>,
    pub h_post: Seq<Option<H>>,
    pub h_put: Seq<Option<H>>,
    pub h_delete: Seq<Option<H>>,
}

/// The model of a router with a single root node and no routes.
pub open spec fn empty_router<H>() -> RouterV<H> {
    RouterV {
        n_nodes: 1,
        edges: Seq::empty(),
        h_get: seq![None],
        h_post: seq![None],
        h_put: seq![None],
        h_delete: seq![None],
    }
}

/// Well-formedness: one slot sequence entry per node, every edge between
/// existing nodes with the parent strictly below the child, no two edges out
/// of one node with the same label, and no node with two incoming edges —
/// the arena is a tree rooted at node `0`.
pub open spec fn wf_v<H>(r: RouterV<H>) -> bool {
    &&& r.n_nodes >= 1
    &&& r.h_get.len() == r.n_nodes
    &&& r.h_post.len() == r.n_nodes
    &&& r.h_put.len() == r.n_nodes
    &&& r.h_delete.len() == r.n_nodes
    &&& forall|j: int|
        0 <= j < r.edges.len() ==> 0 <= #[trigger] r.edges[j].parent < r.edges[j].child
            < r.n_nodes
    &&& forall|i: int, j: int|
        0 <= i < j < r.edges.len() ==> !(#[trigger] r.edges[i].parent == #[trigger] r.edges[j].parent
            && r.edges[i].key == r.edges[j].key)
    &&& forall|i: int, j: int|
        0 <= i < j < r.edges.len() ==> (#[trigger] r.edges[i].child) != (#[trigger] r.edges[j].child)
}

/// The handler stored at node `n` for method `m`, if any.
pub open spec fn slot<H>(r: RouterV<H>, n: int, m: Method) -> Option<H> {
    let col = match m {
        Method::GET => r.h_get,
        Method::POST => r.h_post,
        Method::PUT => r.h_put,
        Method::DELETE => r.h_delete,
    };
    if 0 <= n < col.len() {
        col[n]
    } else {
        None
    }
}

/// `r` with the handler at node `n` for method `m` replaced by `h`.
pub open spec fn set_slot<H>(r: RouterV<H>, n: int, m: Method, h: H) -> RouterV<H> {
    match m {
        Method::GET => RouterV { h_get: r.h_get.update(n, Some(h)), ..r },
        Method::POST => RouterV { h_post: r.h_post.update(n, Some(h)), ..r },
        Method::PUT => RouterV { h_put: r.h_put.update(n, Some(h)), ..r },
        Method::DELETE => RouterV { h_delete: r.h_delete.update(n, Some(h)), ..r },
    }
}

/// `r` with a fresh node and an edge from `n` to it labelled `key`.
pub open spec fn grow<H>(r: RouterV<H>, n: int, key: Seq<char>) -> RouterV<H> {
    RouterV {
        n_nodes: r.n_nodes + 1,
        edges: r.edges.push(EdgeV { parent: n, key: key, child: r.n_nodes }),
        h_get: r.h_get.push(None),
        h_post: r.h_post.push(None),
        h_put: r.h_put.push(None),
        h_delete: r.h_delete.push(None),
    }
}

/// Index of the first edge out of `n` labelled exactly `seg`.
pub open spec fn find_edge(es: Seq<EdgeV>, n: int, seg: Seq<char>) -> Option<int>
    decreases es.len(),
{
    if es.len() == 0 {
        None
    } else if es[0].parent == n && es[0].key == seg {
        Some(0int)
    } else {
        match find_edge(es.skip(1), n, seg) {
            Some(i) => Some(i + 1),
            None => None,
        }
    }
}

/// Index of the first parametric edge out of `n`.
pub open spec fn find_param_edge(es: Seq<EdgeV>, n: int) -> Option<int>
    decreases es.len(),
{
    if es.len() == 0 {
        None
    } else if es[0].parent == n && is_param(es[0].key) {
        Some(0int)
    } else {
        match find_param_edge(es.skip(1), n) {
            Some(i) => Some(i + 1),
            None => None,
        }
    }
}

proof fn lemma_find_edge_props(es: Seq<EdgeV>, n: int, seg: Seq<char>)
    ensures
        match find_edge(es, n, seg) {
            Some(i) => 0 <= i < es.len() && es[i].parent == n && es[i].key == seg && forall|t: int|
                0 <= t < i ==> !(#[trigger] es[t].parent == n && es[t].key == seg),
            None => forall|t: int|
                0 <= t < es.len() ==> !(#[trigger] es[t].parent == n && es[t].key == seg),
        },
    decreases es.len(),
{
    if es.len() == 0 {
    } else if es[0].parent == n && es[0].key == seg {
    } else {
        lemma_find_edge_props(es.skip(1), n, seg);
        match find_edge(es, n, seg) {
            Some(i) => {
                assert(es.skip(1)[i - 1] == es[i]);
                assert forall|t: int| 0 <= t < i implies !(#[trigger] es[t].parent == n
                    && es[t].key == seg) by {
                    if t > 0 {
                        assert(es.skip(1)[t - 1] == es[t]);
                    }
                }
            },
            None => {
                assert forall|t: int| 0 <= t < es.len() implies !(#[trigger] es[t].parent == n
                    && es[t].key == seg) by {
                    if t > 0 {
                        assert(es.skip(1)[t - 1] == es[t]);
                    }
                }
            },
        }
    }
}

proof fn lemma_find_edge_some(es: Seq<EdgeV>, n: int, seg: Seq<char>, i: int)
    requires
        0 <= i < es.len(),
        es[i].parent == n && es[i].key == seg,
        forall|t: int| 0 <= t < i ==> !(#[trigger] es[t].parent == n && es[t].key == seg),
    ensures
        find_edge(es, n, seg) == Some(i),
    decreases es.len(),
{
    if i == 0 {
    } else {
        assert forall|t: int| 0 <= t < i - 1 implies !(#[trigger] es.skip(1)[t].parent == n
            && es.skip(1)[t].key == seg) by {
            assert(es.skip(1)[t] == es[t + 1]);
        }
        assert(es.skip(1)[i - 1] == es[i]);
        lemma_find_edge_some(es.skip(1), n, seg, i - 1);
    }
}

proof fn lemma_find_edge_none(es: Seq<EdgeV>, n: int, seg: Seq<char>)
    requires
        forall|t: int| 0 <= t < es.len() ==> !(#[trigger] es[t].parent == n && es[t].key == seg),
    ensures
        find_edge(es, n, seg) == None::<int>,
    decreases es.len(),
{
    if es.len() == 0 {
    } else {
        assert forall|t: int| 0 <= t < es.skip(1).len() implies !(#[trigger] es.skip(1)[t].parent
            == n && es.skip(1)[t].key == seg) by {
            assert(es.skip(1)[t] == es[t + 1]);
        }
        lemma_find_edge_none(es.skip(1), n, seg);
    }
}

proof fn lemma_find_param_edge_some(es: Seq<EdgeV>, n: int, i: int)
    requires
        0 <= i < es.len(),
        es[i].parent == n && is_param(es[i].key),
        forall|t: int| 0 <= t < i ==> !(#[trigger] es[t].parent == n && is_param(es[t].key)),
    ensures
        find_param_edge(es, n) == Some(i),
    decreases es.len(),
{
    if i == 0 {
    } else {
        assert forall|t: int| 0 <= t < i - 1 implies !(#[trigger] es.skip(1)[t].parent == n
            && is_param(es.skip(1)[t].key)) by {
            assert(es.skip(1)[t] == es[t + 1]);
        }
        assert(es.skip(1)[i - 1] == es[i]);
        lemma_find_param_edge_some(es.skip(1), n, i - 1);
    }
}

proof fn lemma_find_param_edge_none(es: Seq<EdgeV>, n: int)
    requires
        forall|t: int| 0 <= t < es.len() ==> !(#[trigger] es[t].parent == n && is_param(es[t].key)),
    ensures
        find_param_edge(es, n) == None::<int>,
    decreases es.len(),
{
    if es.len() == 0 {
    } else {
        assert forall|t: int| 0 <= t < es.skip(1).len() implies !(#[trigger] es.skip(1)[t].parent
            == n && is_param(es.skip(1)[t].key)) by {
            assert(es.skip(1)[t] == es[t + 1]);
        }
        lemma_find_param_edge_none(es.skip(1), n);
    }
}

proof fn lemma_find_param_edge_props(es: Seq<EdgeV>, n: int)
    ensures
        match find_param_edge(es, n) {
            Some(i) => 0 <= i < es.len() && es[i].parent == n && is_param(es[i].key),
            None => forall|t: int|
                0 <= t < es.len() ==> !(#[trigger] es[t].parent == n && is_param(es[t].key)),
        },
    decreases es.len(),
{
    if es.len() == 0 {
    } else if es[0].parent == n && is_param(es[0].key) {
    } else {
        lemma_find_param_edge_props(es.skip(1), n);
        match find_param_edge(es, n) {
            Some(i) => {
                assert(es.skip(1)[i - 1] == es[i]);
            },
            None => {
                assert forall|t: int| 0 <= t < es.len() implies !(#[trigger] es[t].parent == n
                    && is_param(es[t].key)) by {
                    if t > 0 {
                        assert(es.skip(1)[t - 1] == es[t]);
                    }
                }
            },
        }
    }
}

/// Growing a fresh child under a node without an equally-labelled edge keeps
/// the arena well-formed.
proof fn lemma_grow_wf<H>(r: RouterV<H>, n: int, key: Seq<char>)
    requires
        wf_v(r),
        0 <= n < r.n_nodes,
        find_edge(r.edges, n, key) is None,
    ensures
        wf_v(grow(r, n, key)),
{
    lemma_find_edge_props(r.edges, n, key);
    let r1 = grow(r, n, key);
    assert forall|i: int, j: int| 0 <= i < j < r1.edges.len() implies !(#[trigger] r1.edges[
        i
    ].parent == #[trigger] r1.edges[j].parent && r1.edges[i].key == r1.edges[j].key) by {
        if j == r.edges.len() {
            assert(r1.edges[i] == r.edges[i]);
        }
    }
    assert forall|i: int, j: int| 0 <= i < j < r1.edges.len() implies (#[trigger] r1.edges[
        i
    ].child) != (#[trigger] r1.edges[j].child) by {
        if j == r.edges.len() {
            assert(r1.edges[i] == r.edges[i]);
            assert(0 <= r.edges[i].parent < r.edges[i].child < r.n_nodes);
        }
    }
}

/// Whether node `y` can be reached from node `x` by following edges
/// downwards (`x` itself counts as reached).
pub open spec fn reach<H>(r: RouterV<H>, x: int, y: int) -> bool
    decreases y,
{
    if y < 0 {
        false
    } else if y <= x {
        y == x
    } else {
        exists|i: int|
            0 <= i < r.edges.len() && #[trigger] r.edges[i].child == y && 0 <= r.edges[i].parent
                < y && reach(r, x, r.edges[i].parent)
    }
}

proof fn lemma_reach_ge<H>(r: RouterV<H>, x: int, y: int)
    requires
        reach(r, x, y),
    ensures
        y >= x,
    decreases y,
{
    if y < 0 {
    } else if y <= x {
    } else {
    }
}

proof fn lemma_reach_from_neg<H>(r: RouterV<H>, y: int)
    ensures
        !reach(r, -1, y),
    decreases y,
{
    if y >= 0 && reach(r, -1, y) {
        let i = choose|i: int|
            0 <= i < r.edges.len() && #[trigger] r.edges[i].child == y && 0 <= r.edges[i].parent
                < y && reach(r, -1, r.edges[i].parent);
        lemma_reach_from_neg(r, r.edges[i].parent);
        assert(false);
    }
}

/// Reachability extends backwards across one edge.
proof fn lemma_reach_prepend<H>(r: RouterV<H>, j: int, y: int)
    requires
        wf_v(r),
        0 <= j < r.edges.len(),
        reach(r, r.edges[j].child, y),
    ensures
        reach(r, r.edges[j].parent, y),
    decreases y,
{
    let a = r.edges[j].parent;
    let b = r.edges[j].child;
    assert(0 <= a < b < r.n_nodes);
    if y == b {
        assert(reach(r, a, a));
        assert(reach(r, a, y)) by {
            assert(0 <= j < r.edges.len() && r.edges[j].child == y && 0 <= r.edges[j].parent < y
                && reach(r, a, r.edges[j].parent));
        }
    } else {
        lemma_reach_ge(r, b, y);
        let i = choose|i: int|
            0 <= i < r.edges.len() && #[trigger] r.edges[i].child == y && 0 <= r.edges[i].parent
                < y && reach(r, b, r.edges[i].parent);
        lemma_reach_prepend(r, j, r.edges[i].parent);
        assert(reach(r, a, y)) by {
            assert(0 <= i < r.edges.len() && r.edges[i].child == y && 0 <= r.edges[i].parent < y
                && reach(r, a, r.edges[i].parent));
        }
    }
}

/// The handler registered under exactly the pattern `ss` for method `m`,
/// reached from node `n` by following only literally matching edges: the
/// router's route set, keyed by method and pattern segments.
pub open spec fn route_at<H>(r: RouterV<H>, n: int, ss: Seq<Seq<char>>, m: Method) -> Option<H>
    decreases ss.len(),
{
    if ss.len() == 0 {
        slot(r, n, m)
    } else {
        match find_edge(r.edges, n, ss[0]) {
            Some(i) => route_at(r, r.edges[i].child, ss.skip(1), m),
            None => None,
        }
    }
}

/// Resolution of the segments `qs` for method `m`, starting at node `n` with
/// the parameter bindings `acc` already collected: the handler found and the
/// bindings, in traversal order, or nothing.  A literal edge is preferred at
/// every step; otherwise the first parametric edge is taken and the segment's
/// text is bound to the parameter's name (the label without its `:`).
pub open spec fn spec_lookup<H>(
    r: RouterV<H>,
    n: int,
    qs: Seq<Seq<char>>,
    m: Method,
    acc: Seq<(Seq<char>, Seq<char>)>,
) -> Option<(H, Seq<(Seq<char>, Seq<char>)>)>
    decreases qs.len(),
{
    if qs.len() == 0 {
        match slot(r, n, m) {
            Some(h) => Some((h, acc)),
            None => None,
        }
    } else {
        match find_edge(r.edges, n, qs[0]) {
            Some(i) => spec_lookup(r, r.edges[i].child, qs.skip(1), m, acc),
            None => match find_param_edge(r.edges, n) {
                Some(i) => spec_lookup(
                    r,
                    r.edges[i].child,
                    qs.skip(1),
                    m,
                    acc.push((r.edges[i].key.skip(1), qs[0])),
                ),
                None => None,
            },
        }
    }
}

/// Registration of the segments `ss` for method `m` starting at node `n`:
/// walk existing edges, grow a fresh chain where a segment is missing, and
/// replace the handler at the node reached.
pub open spec fn spec_insert<H>(
    r: RouterV<H>,
    n: int,
    ss: Seq<Seq<char>>,
    m: Method,
    h: H,
) -> RouterV<H>
    decreases ss.len(),
{
    if ss.len() == 0 {
        set_slot(r, n, m, h)
    } else {
        match find_edge(r.edges, n, ss[0]) {
            Some(i) => spec_insert(r, r.edges[i].child, ss.skip(1), m, h),
            None => spec_insert(grow(r, n, ss[0]), r.n_nodes, ss.skip(1), m, h),
        }
    }
}

/// Insertion preserves well-formedness and only appends edges.  Every new
/// edge starts at the insertion node or deeper — on a node past the old
/// arena or one reachable from the insertion node — and the only slots that
/// change are for the inserted method, in that same territory.
proof fn lemma_insert_grows<H>(r: RouterV<H>, n: int, ss: Seq<Seq<char>>, m: Method, h: H)
    requires
        wf_v(r),
        0 <= n < r.n_nodes,
    ensures
        ({
            let r2 = spec_insert(r, n, ss, m, h);
            &&& wf_v(r2)
            &&& r2.n_nodes >= r.n_nodes
            &&& r2.edges.len() >= r.edges.len()
            &&& forall|j: int| 0 <= j < r.edges.len() ==> #[trigger] r2.edges[j] == r.edges[j]
            &&& forall|j: int|
                r.edges.len() <= j < r2.edges.len() ==> #[trigger] r2.edges[j].parent >= n
            &&& forall|j: int|
                r.edges.len() <= j < r2.edges.len() ==> (#[trigger] r2.edges[j].parent)
                    >= r.n_nodes || reach(r, n, r2.edges[j].parent)
            &&& forall|y: int, mm: Method|
                #[trigger] slot(r2, y, mm) != slot(r, y, mm) ==> mm == m && (y >= r.n_nodes
                    || reach(r, n, y))
        }),
    decreases ss.len(),
{
    let r2 = spec_insert(r, n, ss, m, h);
    if ss.len() == 0 {
        assert(reach(r, n, n));
    } else {
        lemma_find_edge_props(r.edges, n, ss[0]);
        match find_edge(r.edges, n, ss[0]) {
            Some(i) => {
                let c = r.edges[i].child;
                lemma_insert_grows(r, c, ss.skip(1), m, h);
                assert forall|j: int|
                    r.edges.len() <= j < r2.edges.len() implies (#[trigger] r2.edges[j].parent)
                        >= r.n_nodes || reach(r, n, r2.edges[j].parent) by {
                    if r2.edges[j].parent < r.n_nodes {
                        lemma_reach_prepend(r, i, r2.edges[j].parent);
                    }
                }
                assert forall|y: int, mm: Method|
                    #[trigger] slot(r2, y, mm) != slot(r, y, mm) implies mm == m && (y
                        >= r.n_nodes || reach(r, n, y)) by {
                    if y < r.n_nodes {
                        lemma_reach_prepend(r, i, y);
                    }
                }
            },
            None => {
                let r1 = grow(r, n, ss[0]);
                let fresh = r.n_nodes;
                let k = r.edges.len() as int;
                lemma_grow_wf(r, n, ss[0]);
                lemma_insert_grows(r1, fresh, ss.skip(1), m, h);
                assert(reach(r, n, n));
                assert forall|y: int, mm: Method| #[trigger] slot(r1, y, mm) == slot(
                    r,
                    y,
                    mm,
                ) by {}
                assert forall|j: int|
                    r.edges.len() <= j < r2.edges.len() implies (#[trigger] r2.edges[j].parent)
                        >= r.n_nodes || reach(r, n, r2.edges[j].parent) by {
                    if j == k {
                        assert(r2.edges[j] == r1.edges[j]);
                    } else {
                        if r2.edges[j].parent < r1.n_nodes {
                            lemma_reach_ge(r1, fresh, r2.edges[j].parent);
                        }
                    }
                }
                assert forall|y: int, mm: Method|
                    #[trigger] slot(r2, y, mm) != slot(r, y, mm) implies mm == m && (y
                        >= r.n_nodes || reach(r, n, y)) by {
                    assert(slot(r1, y, mm) == slot(r, y, mm));
                    if y < r1.n_nodes && reach(r1, fresh, y) {
                        lemma_reach_ge(r1, fresh, y);
                    }
                }
            },
        }
    }
}

/// After registering `ss` for `m` from node `n`, resolving `ss` for `m` from
/// `n` finds exactly the registered handler, with no new bindings.
proof fn lemma_insert_resolves<H>(
    r: RouterV<H>,
    n: int,
    ss: Seq<Seq<char>>,
    m: Method,
    h: H,
    acc: Seq<(Seq<char>, Seq<char>)>,
)
    requires
        wf_v(r),
        0 <= n < r.n_nodes,
    ensures
        spec_lookup(spec_insert(r, n, ss, m, h), n, ss, m, acc) == Some((h, acc)),
{
    lemma_insert_route_resolves(r, n, ss, m, h);
    lemma_route_resolves(spec_insert(r, n, ss, m, h), n, ss, m, h, acc);
}

/// A resolution that starts outside the modified territory is unchanged.
/// `r2` extends `r` only with edges hanging on nodes past the old arena,
/// below `av`, or at or below `n_low`, and only with slot changes in the
/// same territory; a walk that starts above `n_low` and outside `av`'s
/// subtree never sees the difference.
proof fn lemma_route_at_frame<H>(
    r: RouterV<H>,
    r2: RouterV<H>,
    av: int,
    n_low: int,
    x: int,
    qs: Seq<Seq<char>>,
    m2: Method,
)
    requires
        wf_v(r),
        0 <= x < r.n_nodes,
        n_low < x,
        r2.edges.len() >= r.edges.len(),
        forall|j: int| 0 <= j < r.edges.len() ==> #[trigger] r2.edges[j] == r.edges[j],
        forall|j: int|
            r.edges.len() <= j < r2.edges.len() ==> (#[trigger] r2.edges[j].parent) >= r.n_nodes
                || reach(r, av, r2.edges[j].parent) || r2.edges[j].parent <= n_low,
        forall|y: int, mm: Method|
            #[trigger] slot(r2, y, mm) != slot(r, y, mm) ==> y >= r.n_nodes || reach(r, av, y)
                || y <= n_low,
        !reach(r, av, x),
        forall|j: int|
            0 <= j < r.edges.len() && (#[trigger] r.edges[j].child) == av ==> r.edges[j].parent
                <= n_low,
    ensures
        route_at(r2, x, qs, m2) == route_at(r, x, qs, m2),
    decreases qs.len(),
{
    if qs.len() == 0 {
        assert(slot(r2, x, m2) == slot(r, x, m2));
    } else {
        lemma_find_edge_props(r.edges, x, qs[0]);
        match find_edge(r.edges, x, qs[0]) {
            Some(i) => {
                assert(r2.edges[i] == r.edges[i]);
                assert forall|t: int| 0 <= t < i implies !(#[trigger] r2.edges[t].parent == x
                    && r2.edges[t].key == qs[0]) by {
                    assert(r2.edges[t] == r.edges[t]);
                }
                lemma_find_edge_some(r2.edges, x, qs[0], i);
                let ch = r.edges[i].child;
                assert(0 <= x < ch < r.n_nodes);
                assert(!reach(r, av, ch)) by {
                    if reach(r, av, ch) {
                        lemma_reach_ge(r, av, ch);
                        if ch == av {
                            assert(r.edges[i].parent <= n_low);
                        } else {
                            let e = choose|e: int|
                                0 <= e < r.edges.len() && #[trigger] r.edges[e].child == ch && 0
                                    <= r.edges[e].parent < ch && reach(r, av, r.edges[e].parent);
                            assert(e == i);
                            assert(reach(r, av, x));
                        }
                    }
                }
                lemma_route_at_frame(r, r2, av, n_low, ch, qs.skip(1), m2);
            },
            None => {
                assert forall|t: int| 0 <= t < r2.edges.len() implies !(#[trigger] r2.edges[
                    t
                ].parent == x && r2.edges[t].key == qs[0]) by {
                    if t < r.edges.len() {
                        assert(r2.edges[t] == r.edges[t]);
                    } else {
                        if r2.edges[t].parent == x {
                            assert(reach(r, av, x));
                        }
                    }
                }
                lemma_find_edge_none(r2.edges, x, qs[0]);
            },
        }
    }
}

/// After registering `ss` for `m` from `n`, the route set at `n` carries the
/// registered handler under exactly that method and pattern.
proof fn lemma_insert_route_resolves<H>(r: RouterV<H>, n: int, ss: Seq<Seq<char>>, m: Method, h: H)
    requires
        wf_v(r),
        0 <= n < r.n_nodes,
    ensures
        route_at(spec_insert(r, n, ss, m, h), n, ss, m) == Some(h),
    decreases ss.len(),
{
    let r2 = spec_insert(r, n, ss, m, h);
    if ss.len() == 0 {
        assert(slot(r2, n, m) == Some(h));
    } else {
        lemma_find_edge_props(r.edges, n, ss[0]);
        match find_edge(r.edges, n, ss[0]) {
            Some(i) => {
                let c = r.edges[i].child;
                lemma_insert_grows(r, c, ss.skip(1), m, h);
                assert(r2.edges[i] == r.edges[i]);
                assert forall|t: int| 0 <= t < i implies !(#[trigger] r2.edges[t].parent == n
                    && r2.edges[t].key == ss[0]) by {
                    assert(r2.edges[t] == r.edges[t]);
                }
                lemma_find_edge_some(r2.edges, n, ss[0], i);
                lemma_insert_route_resolves(r, c, ss.skip(1), m, h);
            },
            None => {
                let r1 = grow(r, n, ss[0]);
                let fresh = r.n_nodes;
                let k = r.edges.len() as int;
                lemma_grow_wf(r, n, ss[0]);
                lemma_insert_grows(r1, fresh, ss.skip(1), m, h);
                assert(r1.edges[k].parent == n && r1.edges[k].key == ss[0]);
                assert(r2.edges[k] == r1.edges[k]);
                assert forall|t: int| 0 <= t < k implies !(#[trigger] r2.edges[t].parent == n
                    && r2.edges[t].key == ss[0]) by {
                    assert(r2.edges[t] == r1.edges[t]);
                    assert(r1.edges[t] == r.edges[t]);
                }
                lemma_find_edge_some(r2.edges, n, ss[0], k);
                assert(r2.edges[k].child == fresh);
                lemma_insert_route_resolves(r1, fresh, ss.skip(1), m, h);
            },
        }
    }
}

/// A chain grown from a bare node holds nothing but the registered route:
/// every other method or segment sequence misses.
proof fn lemma_chain_route_misses<H>(
    r0: RouterV<H>,
    n0: int,
    ss: Seq<Seq<char>>,
    m: Method,
    h: H,
    qs: Seq<Seq<char>>,
    m2: Method,
)
    requires
        wf_v(r0),
        0 <= n0 < r0.n_nodes,
        forall|j: int| 0 <= j < r0.edges.len() ==> (#[trigger] r0.edges[j].parent) != n0,
        slot(r0, n0, m2) is None,
        !(m2 == m && qs == ss),
    ensures
        route_at(spec_insert(r0, n0, ss, m, h), n0, qs, m2) is None,
    decreases ss.len(),
{
    let r2 = spec_insert(r0, n0, ss, m, h);
    if ss.len() == 0 {
        assert(r2 == set_slot(r0, n0, m, h));
        if qs.len() == 0 {
            assert(qs =~= ss);
            assert(m2 != m);
            assert(slot(r2, n0, m2) == slot(r0, n0, m2));
        } else {
            assert forall|t: int| 0 <= t < r2.edges.len() implies !(#[trigger] r2.edges[t].parent
                == n0 && r2.edges[t].key == qs[0]) by {}
            lemma_find_edge_none(r2.edges, n0, qs[0]);
        }
    } else {
        lemma_find_edge_props(r0.edges, n0, ss[0]);
        let r1 = grow(r0, n0, ss[0]);
        let fresh = r0.n_nodes;
        let k = r0.edges.len() as int;
        lemma_grow_wf(r0, n0, ss[0]);
        lemma_insert_grows(r1, fresh, ss.skip(1), m, h);
        assert(r1.edges[k].parent == n0 && r1.edges[k].key == ss[0] && r1.edges[k].child == fresh);
        assert(r2.edges[k] == r1.edges[k]);
        if qs.len() == 0 {
            assert(slot(r1, n0, m2) == slot(r0, n0, m2));
            assert(slot(r2, n0, m2) == slot(r1, n0, m2)) by {
                if slot(r2, n0, m2) != slot(r1, n0, m2) {
                    assert(reach(r1, fresh, n0));
                    lemma_reach_ge(r1, fresh, n0);
                }
            }
        } else {
            if qs[0] == ss[0] {
                assert forall|t: int| 0 <= t < k implies !(#[trigger] r2.edges[t].parent == n0
                    && r2.edges[t].key == qs[0]) by {
                    assert(r2.edges[t] == r1.edges[t]);
                    assert(r1.edges[t] == r0.edges[t]);
                }
                lemma_find_edge_some(r2.edges, n0, qs[0], k);
                assert forall|j: int| 0 <= j < r1.edges.len() implies (#[trigger] r1.edges[
                    j
                ].parent) != fresh by {
                    if j < k {
                        assert(r1.edges[j] == r0.edges[j]);
                        assert(0 <= r0.edges[j].parent < r0.edges[j].child < r0.n_nodes);
                    }
                }
                assert(slot(r1, fresh, m2) is None);
                assert(!(m2 == m && qs.skip(1) == ss.skip(1))) by {
                    if m2 == m && qs.skip(1) == ss.skip(1) {
                        assert forall|t: int| 0 <= t < qs.len() implies qs[t] == ss[t] by {
                            if t > 0 {
                                assert(qs.skip(1)[t - 1] == qs[t]);
                                assert(ss.skip(1)[t - 1] == ss[t]);
                            }
                        }
                        assert(qs =~= ss);
                    }
                }
                lemma_chain_route_misses(r1, fresh, ss.skip(1), m, h, qs.skip(1), m2);
            } else {
                assert forall|t: int| 0 <= t < r2.edges.len() implies !(#[trigger] r2.edges[
                    t
                ].parent == n0 && r2.edges[t].key == qs[0]) by {
                    if t < k {
                        assert(r2.edges[t] == r1.edges[t]);
                        assert(r1.edges[t] == r0.edges[t]);
                    } else if t == k {
                    } else {
                        assert(r2.edges[t].parent >= fresh);
                    }
                }
                lemma_find_edge_none(r2.edges, n0, qs[0]);
            }
        }
    }
}

/// Registration changes the route set at exactly one key: the inserted
/// method and pattern now carry the new handler, and every other method and
/// pattern resolves exactly as before.
proof fn lemma_insert_route_at<H>(
    r: RouterV<H>,
    n: int,
    ss: Seq<Seq<char>>,
    m: Method,
    h: H,
    ss2: Seq<Seq<char>>,
    m2: Method,
)
    requires
        wf_v(r),
        0 <= n < r.n_nodes,
    ensures
        route_at(spec_insert(r, n, ss, m, h), n, ss2, m2) == (if m2 == m && ss2 == ss {
            Some(h)
        } else {
            route_at(r, n, ss2, m2)
        }),
    decreases ss2.len(),
{
    let r2 = spec_insert(r, n, ss, m, h);
    if m2 == m && ss2 == ss {
        lemma_insert_route_resolves(r, n, ss, m, h);
    } else if ss.len() == 0 {
        // Only the slot for `m` at `n` changes.
        assert(r2 == set_slot(r, n, m, h));
        if ss2.len() == 0 {
            assert(ss2 =~= ss);
            assert(m2 != m);
            assert(slot(r2, n, m2) == slot(r, n, m2));
        } else {
            assert(r2.edges == r.edges);
            lemma_find_edge_props(r.edges, n, ss2[0]);
            match find_edge(r.edges, n, ss2[0]) {
                Some(i2) => {
                    let c2 = r.edges[i2].child;
                    assert(0 <= n < c2 < r.n_nodes);
                    lemma_reach_from_neg(r, c2);
                    assert forall|j: int|
                        0 <= j < r.edges.len() && (#[trigger] r.edges[j].child) == -1 implies r.edges[
                        j
                    ].parent <= n by {
                        assert(0 <= r.edges[j].parent < r.edges[j].child);
                    }
                    assert forall|y: int, mm: Method|
                        #[trigger] slot(r2, y, mm) != slot(r, y, mm) implies y >= r.n_nodes
                            || reach(r, -1int, y) || y <= n by {}
                    lemma_route_at_frame(r, r2, -1, n, c2, ss2.skip(1), m2);
                },
                None => {},
            }
        }
    } else {
        lemma_find_edge_props(r.edges, n, ss[0]);
        match find_edge(r.edges, n, ss[0]) {
            Some(i) => {
                let c = r.edges[i].child;
                assert(0 <= n < c < r.n_nodes);
                lemma_insert_grows(r, c, ss.skip(1), m, h);
                if ss2.len() == 0 {
                    assert(slot(r2, n, m2) == slot(r, n, m2)) by {
                        if slot(r2, n, m2) != slot(r, n, m2) {
                            assert(reach(r, c, n));
                            lemma_reach_ge(r, c, n);
                        }
                    }
                } else {
                    lemma_find_edge_props(r.edges, n, ss2[0]);
                    match find_edge(r.edges, n, ss2[0]) {
                        Some(i2) => {
                            assert(r2.edges[i2] == r.edges[i2]);
                            assert forall|t: int|
                                0 <= t < i2 implies !(#[trigger] r2.edges[t].parent == n
                                && r2.edges[t].key == ss2[0]) by {
                                assert(r2.edges[t] == r.edges[t]);
                            }
                            lemma_find_edge_some(r2.edges, n, ss2[0], i2);
                            let c2 = r.edges[i2].child;
                            if ss2[0] == ss[0] {
                                assert(i2 == i && c2 == c);
                                assert(!(m2 == m && ss2.skip(1) == ss.skip(1))) by {
                                    if m2 == m && ss2.skip(1) == ss.skip(1) {
                                        assert forall|t: int|
                                            0 <= t < ss2.len() implies ss2[t] == ss[t] by {
                                            if t > 0 {
                                                assert(ss2.skip(1)[t - 1] == ss2[t]);
                                                assert(ss.skip(1)[t - 1] == ss[t]);
                                            }
                                        }
                                        assert(ss2 =~= ss);
                                    }
                                }
                                lemma_insert_route_at(r, c, ss.skip(1), m, h, ss2.skip(1), m2);
                            } else {
                                assert(c2 != c) by {
                                    if c2 == c {
                                        assert(i2 == i);
                                    }
                                }
                                assert(!reach(r, c, c2)) by {
                                    if reach(r, c, c2) {
                                        lemma_reach_ge(r, c, c2);
                                        let e = choose|e: int|
                                            0 <= e < r.edges.len() && #[trigger] r.edges[e].child
                                                == c2 && 0 <= r.edges[e].parent < c2 && reach(
                                                r,
                                                c,
                                                r.edges[e].parent,
                                            );
                                        assert(e == i2);
                                        assert(reach(r, c, n));
                                        lemma_reach_ge(r, c, n);
                                    }
                                }
                                assert forall|j: int|
                                    0 <= j < r.edges.len() && (#[trigger] r.edges[j].child) == c
                                        implies r.edges[j].parent <= n by {
                                    assert(j == i);
                                }
                                lemma_route_at_frame(r, r2, c, n, c2, ss2.skip(1), m2);
                            }
                        },
                        None => {
                            assert forall|t: int|
                                0 <= t < r2.edges.len() implies !(#[trigger] r2.edges[t].parent
                                == n && r2.edges[t].key == ss2[0]) by {
                                if t < r.edges.len() {
                                    assert(r2.edges[t] == r.edges[t]);
                                } else {
                                    if r2.edges[t].parent < r.n_nodes {
                                        assert(reach(r, c, r2.edges[t].parent));
                                        lemma_reach_ge(r, c, r2.edges[t].parent);
                                    }
                                }
                            }
                            lemma_find_edge_none(r2.edges, n, ss2[0]);
                        },
                    }
                }
            },
            None => {
                let r1 = grow(r, n, ss[0]);
                let fresh = r.n_nodes;
                let k = r.edges.len() as int;
                lemma_grow_wf(r, n, ss[0]);
                lemma_insert_grows(r1, fresh, ss.skip(1), m, h);
                assert(r1.edges[k].parent == n && r1.edges[k].key == ss[0] && r1.edges[k].child
                    == fresh);
                assert(r2.edges[k] == r1.edges[k]);
                assert forall|y: int, mm: Method| #[trigger] slot(r1, y, mm) == slot(
                    r,
                    y,
                    mm,
                ) by {}
                if ss2.len() == 0 {
                    assert(slot(r2, n, m2) == slot(r, n, m2)) by {
                        if slot(r2, n, m2) != slot(r1, n, m2) {
                            assert(reach(r1, fresh, n));
                            lemma_reach_ge(r1, fresh, n);
                        }
                    }
                } else {
                    lemma_find_edge_props(r.edges, n, ss2[0]);
                    if ss2[0] == ss[0] {
                        assert forall|t: int|
                            0 <= t < k implies !(#[trigger] r2.edges[t].parent == n
                            && r2.edges[t].key == ss2[0]) by {
                            assert(r2.edges[t] == r1.edges[t]);
                            assert(r1.edges[t] == r.edges[t]);
                        }
                        lemma_find_edge_some(r2.edges, n, ss2[0], k);
                        assert forall|j: int|
                            0 <= j < r1.edges.len() implies (#[trigger] r1.edges[j].parent)
                                != fresh by {
                            if j < k {
                                assert(r1.edges[j] == r.edges[j]);
                                assert(0 <= r.edges[j].parent < r.edges[j].child < r.n_nodes);
                            }
                        }
                        assert(slot(r1, fresh, m2) is None);
                        assert(!(m2 == m && ss2.skip(1) == ss.skip(1))) by {
                            if m2 == m && ss2.skip(1) == ss.skip(1) {
                                assert forall|t: int| 0 <= t < ss2.len() implies ss2[t] == ss[t] by {
                                    if t > 0 {
                                        assert(ss2.skip(1)[t - 1] == ss2[t]);
                                        assert(ss.skip(1)[t - 1] == ss[t]);
                                    }
                                }
                                assert(ss2 =~= ss);
                            }
                        }
                        lemma_chain_route_misses(r1, fresh, ss.skip(1), m, h, ss2.skip(1), m2);
                        // On the old side the pattern's first segment has no
                        // edge, so the old resolution misses too.
                        assert(route_at(r, n, ss2, m2) is None);
                    } else {
                        match find_edge(r.edges, n, ss2[0]) {
                            Some(i2) => {
                                assert(r2.edges[i2] == r1.edges[i2]);
                                assert(r1.edges[i2] == r.edges[i2]);
                                assert forall|t: int|
                                    0 <= t < i2 implies !(#[trigger] r2.edges[t].parent == n
                                    && r2.edges[t].key == ss2[0]) by {
                                    assert(r2.edges[t] == r1.edges[t]);
                                    assert(r1.edges[t] == r.edges[t]);
                                }
                                lemma_find_edge_some(r2.edges, n, ss2[0], i2);
                                let c2 = r.edges[i2].child;
                                assert(0 <= n < c2 < r.n_nodes);
                                lemma_reach_from_neg(r, c2);
                                assert forall|j: int|
                                    r.edges.len() <= j < r2.edges.len() implies (
                                #[trigger] r2.edges[j].parent) >= r.n_nodes || reach(
                                    r,
                                    -1int,
                                    r2.edges[j].parent,
                                ) || r2.edges[j].parent <= n by {
                                    if j > k && r2.edges[j].parent < r1.n_nodes {
                                        assert(reach(r1, fresh, r2.edges[j].parent));
                                        lemma_reach_ge(r1, fresh, r2.edges[j].parent);
                                    }
                                }
                                assert forall|y: int, mm: Method|
                                    #[trigger] slot(r2, y, mm) != slot(r, y, mm) implies y
                                        >= r.n_nodes || reach(r, -1int, y) || y <= n by {
                                    assert(slot(r1, y, mm) == slot(r, y, mm));
                                    if y < r1.n_nodes && reach(r1, fresh, y) {
                                        lemma_reach_ge(r1, fresh, y);
                                    }
                                }
                                assert forall|j: int|
                                    0 <= j < r.edges.len() && (#[trigger] r.edges[j].child) == -1
                                        implies r.edges[j].parent <= n by {
                                    assert(0 <= r.edges[j].parent < r.edges[j].child);
                                }
                                lemma_route_at_frame(r, r2, -1, n, c2, ss2.skip(1), m2);
                            },
                            None => {
                                assert forall|t: int|
                                    0 <= t < r2.edges.len() implies !(#[trigger] r2.edges[
                                    t
                                ].parent == n && r2.edges[t].key == ss2[0]) by {
                                    if t < k {
                                        assert(r2.edges[t] == r1.edges[t]);
                                        assert(r1.edges[t] == r.edges[t]);
                                    } else if t == k {
                                    } else {
                                        assert(r2.edges[t].parent >= fresh);
                                    }
                                }
                                lemma_find_edge_none(r2.edges, n, ss2[0]);
                            },
                        }
                    }
                }
            },
        }
    }
}

/// The route set after a registration: the new handler stands under exactly
/// the registered method and path segments; every other method and pattern
/// resolves to what it did before.  Together with `lemma_route_resolves`,
/// this pins how the mounted route set grows, one registration at a time.
pub proof fn lemma_insert_route_set<H>(r: RouterV<H>, m: Method, path: Seq<char>, h: H)
    requires
        wf_v(r),
    ensures
        forall|m2: Method, ss2: Seq<Seq<char>>|
            #[trigger] route_at(spec_insert(r, 0, path_segs(path), m, h), 0, ss2, m2) == (if m2
                == m && ss2 == path_segs(path) {
                Some(h)
            } else {
                route_at(r, 0, ss2, m2)
            }),
{
    assert forall|m2: Method, ss2: Seq<Seq<char>>|
        #[trigger] route_at(spec_insert(r, 0, path_segs(path), m, h), 0, ss2, m2) == (if m2 == m
            && ss2 == path_segs(path) {
            Some(h)
        } else {
            route_at(r, 0, ss2, m2)
        }) by {
        lemma_insert_route_at(r, 0, path_segs(path), m, h, ss2, m2);
    }
}

/// A pattern present in the route set resolves: the full lookup of its own
/// segments finds its handler and binds nothing, whatever else is mounted.
pub proof fn lemma_route_resolves<H>(
    r: RouterV<H>,
    n: int,
    ss: Seq<Seq<char>>,
    m: Method,
    h: H,
    acc: Seq<(Seq<char>, Seq<char>)>,
)
    requires
        route_at(r, n, ss, m) == Some(h),
    ensures
        spec_lookup(r, n, ss, m, acc) == Some((h, acc)),
    decreases ss.len(),
{
    if ss.len() == 0 {
    } else {
        match find_edge(r.edges, n, ss[0]) {
            Some(i) => {
                lemma_route_resolves(r, r.edges[i].child, ss.skip(1), m, h, acc);
            },
            None => {},
        }
    }
}

/// A route just registered resolves to its handler: for any prior state of
/// the router, after registering `(m, path)` with handler `h`, resolving the
/// pattern itself for `m` yields `h` and binds nothing.  Because this holds
/// of every prior state, registering the same method and path again with a
/// different handler leaves lookups returning only the newer handler.
pub proof fn lemma_registered_route_resolves<H>(r: RouterV<H>, m: Method, path: Seq<char>, h: H)
    requires
        wf_v(r),
    ensures
        wf_v(spec_insert(r, 0, path_segs(path), m, h)),
        spec_lookup(
            spec_insert(r, 0, path_segs(path), m, h),
            0,
            path_segs(path),
            m,
            Seq::empty(),
        ) == Some((h, Seq::<(Seq<char>, Seq<char>)>::empty())),
{
    lemma_insert_grows(r, 0, path_segs(path), m, h);
    lemma_insert_resolves(r, 0, path_segs(path), m, h, Seq::empty());
}

/// Last write wins: registering the same method and path twice silently
/// replaces the first handler, and resolution afterwards returns only the
/// newer one.
pub proof fn lemma_last_registration_wins<H>(
    r: RouterV<H>,
    m: Method,
    path: Seq<char>,
    h1: H,
    h2: H,
)
    requires
        wf_v(r),
    ensures
        spec_lookup(
            spec_insert(spec_insert(r, 0, path_segs(path), m, h1), 0, path_segs(path), m, h2),
            0,
            path_segs(path),
            m,
            Seq::empty(),
        ) == Some((h2, Seq::<(Seq<char>, Seq<char>)>::empty())),
{
    lemma_insert_grows(r, 0, path_segs(path), m, h1);
    lemma_registered_route_resolves(spec_insert(r, 0, path_segs(path), m, h1), m, path, h2);
}

/// The parameter bindings produced when the concrete segments `qs` are
/// resolved against the pattern segments `ss`: one pair per position where
/// the pattern is parametric and the segment differs from the label.
pub open spec fn bindings(ss: Seq<Seq<char>>, qs: Seq<Seq<char>>) -> Seq<(Seq<char>, Seq<char>)>
    decreases ss.len(),
{
    if ss.len() == 0 {
        Seq::empty()
    } else if qs[0] == ss[0] {
        bindings(ss.skip(1), qs.skip(1))
    } else {
        seq![(ss[0].skip(1), qs[0])] + bindings(ss.skip(1), qs.skip(1))
    }
}

/// Whether `qs` matches the pattern `ss` position by position: equal length,
/// and each pattern segment either literally equal or parametric.
pub open spec fn segs_match(ss: Seq<Seq<char>>, qs: Seq<Seq<char>>) -> bool {
    qs.len() == ss.len() && forall|i: int| 0 <= i < ss.len() ==> qs[i] == #[trigger] ss[i]
        || is_param(ss[i])
}

/// Registering a pattern from a bare node (no outgoing edges, no handlers)
/// makes every matching concrete path resolve to the handler with the
/// pattern's bindings, and every longer path fail.
proof fn lemma_chain_lookup<H>(
    r: RouterV<H>,
    n: int,
    ss: Seq<Seq<char>>,
    qs: Seq<Seq<char>>,
    m: Method,
    h: H,
    acc: Seq<(Seq<char>, Seq<char>)>,
)
    requires
        wf_v(r),
        0 <= n < r.n_nodes,
        forall|j: int| 0 <= j < r.edges.len() ==> (#[trigger] r.edges[j].parent) != n,
        slot(r, n, m) is None,
        qs.len() >= ss.len(),
        forall|i: int| 0 <= i < ss.len() ==> qs[i] == #[trigger] ss[i] || is_param(ss[i]),
    ensures
        qs.len() == ss.len() ==> spec_lookup(spec_insert(r, n, ss, m, h), n, qs, m, acc) == Some(
            (h, acc + bindings(ss, qs)),
        ),
        qs.len() > ss.len() ==> spec_lookup(spec_insert(r, n, ss, m, h), n, qs, m, acc)
            is None,
    decreases ss.len() + qs.len(),
{
    let r2 = spec_insert(r, n, ss, m, h);
    if ss.len() == 0 {
        // The insertion only replaces the slot at `n`; no edges leave `n`.
        assert(r2 == set_slot(r, n, m, h));
        if qs.len() == 0 {
            assert(slot(r2, n, m) == Some(h));
            assert(acc + bindings(ss, qs) =~= acc);
        } else {
            lemma_find_edge_none(r2.edges, n, qs[0]);
            lemma_find_param_edge_none(r2.edges, n);
        }
    } else {
        lemma_find_edge_none(r.edges, n, ss[0]);
        let r1 = grow(r, n, ss[0]);
        let fresh = r.n_nodes;
        let k = r.edges.len() as int;
        lemma_grow_wf(r, n, ss[0]);
        assert(r2 == spec_insert(r1, fresh, ss.skip(1), m, h));
        lemma_insert_grows(r1, fresh, ss.skip(1), m, h);
        // No edge out of `fresh` exists in r1, and its slots are all free.
        assert forall|j: int| 0 <= j < r1.edges.len() implies (#[trigger] r1.edges[j].parent)
            != fresh by {
            if j < k {
                assert(r1.edges[j] == r.edges[j]);
            }
        }
        assert(r1.h_get[fresh] is None);
        assert(slot(r1, fresh, m) is None);
        lemma_chain_lookup(r1, fresh, ss.skip(1), qs.skip(1), m, h, acc);
        lemma_chain_lookup(
            r1,
            fresh,
            ss.skip(1),
            qs.skip(1),
            m,
            h,
            acc.push((ss[0].skip(1), qs[0])),
        );
        // Edges of r2 out of `n`: the old ones (none), the one added by
        // `grow`, and deeper appended ones, whose parents are at least
        // `fresh` and so differ from `n`.
        assert(r2.edges[k] == r1.edges[k]);
        assert(r1.edges[k].parent == n && r1.edges[k].key == ss[0] && r1.edges[k].child == fresh);
        if qs[0] == ss[0] {
            assert forall|t: int| 0 <= t < k implies !(#[trigger] r2.edges[t].parent == n
                && r2.edges[t].key == qs[0]) by {
                assert(r2.edges[t] == r1.edges[t]);
                assert(r1.edges[t] == r.edges[t]);
            }
            lemma_find_edge_some(r2.edges, n, qs[0], k);
            assert(spec_lookup(r2, n, qs, m, acc) == spec_lookup(r2, fresh, qs.skip(1), m, acc));
            if qs.len() == ss.len() {
                assert(bindings(ss, qs) == bindings(ss.skip(1), qs.skip(1)));
            }
        } else {
            assert(is_param(ss[0]));
            assert forall|t: int| 0 <= t < r2.edges.len() implies !(#[trigger] r2.edges[t].parent
                == n && r2.edges[t].key == qs[0]) by {
                if t < k {
                    assert(r2.edges[t] == r1.edges[t]);
                    assert(r1.edges[t] == r.edges[t]);
                } else if t == k {
                    assert(r2.edges[t].key == ss[0]);
                } else {
                    assert(r2.edges[t].parent >= fresh);
                    assert(n < fresh);
                }
            }
            lemma_find_edge_none(r2.edges, n, qs[0]);
            assert forall|t: int| 0 <= t < k implies !(#[trigger] r2.edges[t].parent == n
                && is_param(r2.edges[t].key)) by {
                assert(r2.edges[t] == r1.edges[t]);
                assert(r1.edges[t] == r.edges[t]);
            }
            lemma_find_param_edge_some(r2.edges, n, k);
            assert(spec_lookup(r2, n, qs, m, acc) == spec_lookup(
                r2,
                fresh,
                qs.skip(1),
                m,
                acc.push((ss[0].skip(1), qs[0])),
            ));
            if qs.len() == ss.len() {
                assert(bindings(ss, qs) == seq![(ss[0].skip(1), qs[0])] + bindings(
                    ss.skip(1),
                    qs.skip(1),
                ));
                assert(acc.push((ss[0].skip(1), qs[0])) + bindings(ss.skip(1), qs.skip(1)) =~= acc
                    + bindings(ss, qs));
            }
        }
    }
}

/// In a router holding exactly one registration `(m, pattern) -> h`, made
/// from the empty router: a request path whose segments match the pattern
/// segment by segment resolves to `h` and binds each parametric segment's
/// name to the request's text at that position; a request path longer than
/// the pattern finds nothing.
pub proof fn lemma_single_route_lookup<H>(
    m: Method,
    pattern: Seq<char>,
    h: H,
    req: Seq<char>,
)
    requires
        path_segs(req).len() >= path_segs(pattern).len(),
        forall|i: int|
            0 <= i < path_segs(pattern).len() ==> path_segs(req)[i] == #[trigger] path_segs(
                pattern,
            )[i] || is_param(path_segs(pattern)[i]),
    ensures
        segs_match(path_segs(pattern), path_segs(req)) ==> spec_lookup(
            spec_insert(empty_router::<H>(), 0, path_segs(pattern), m, h),
            0,
            path_segs(req),
            m,
            Seq::empty(),
        ) == Some((h, bindings(path_segs(pattern), path_segs(req)))),
        path_segs(req).len() > path_segs(pattern).len() ==> spec_lookup(
            spec_insert(empty_router::<H>(), 0, path_segs(pattern), m, h),
            0,
            path_segs(req),
            m,
            Seq::empty(),
        ) is None,
{
    let r = empty_router::<H>();
    lemma_chain_lookup(r, 0, path_segs(pattern), path_segs(req), m, h, Seq::empty());
    if segs_match(path_segs(pattern), path_segs(req)) {
        assert(Seq::<(Seq<char>, Seq<char>)>::empty() + bindings(
            path_segs(pattern),
            path_segs(req),
        ) =~= bindings(path_segs(pattern), path_segs(req)));
    }
}

/// A router with no registrations resolves nothing: every lookup misses, for
/// every method and path.  Together with `get_handler`'s contract this is the
/// not-found guarantee: an unmatched pair yields an error value naming the
/// method and path, never a panic.
pub proof fn lemma_empty_router_misses<H>(m: Method, qs: Seq<Seq<char>>)
    ensures
        spec_lookup(empty_router::<H>(), 0, qs, m, Seq::empty()) is None,
{
    let r = empty_router::<H>();
    if qs.len() == 0 {
    } else {
        lemma_find_edge_none(r.edges, 0, qs[0]);
        lemma_find_param_edge_none(r.edges, 0);
    }
}

/// Lookups are a pure function of the mounted router: two resolutions of the
/// same method and path against the same router value agree.  A mounted
/// router is only ever read, so concurrent lookups each satisfy
/// `get_handler`'s contract against the same route set, and therefore return
/// consistent results whatever their interleaving.
pub proof fn lemma_lookups_agree<H>(
    r: RouterV<H>,
    m: Method,
    qs: Seq<Seq<char>>,
    r1: Option<(H, Seq<(Seq<char>, Seq<char>)>)>,
    r2: Option<(H, Seq<(Seq<char>, Seq<char>)>)>,
)
    requires
        r1 == spec_lookup(r, 0, qs, m, Seq::empty()),
        r2 == spec_lookup(r, 0, qs, m, Seq::empty()),
    ensures
        r1 == r2,
{
}

/// Whether registering the segments `ss` from node `n` would put a second
/// parametric capture under one node: the walk follows exactly matching
/// edges, and a conflict arises where a parametric segment has no exactly
/// matching edge but the node already carries a parametric label (then
/// necessarily a differently named one).  Once the walk leaves the existing
/// trie it only ever grows fresh bare nodes, so no conflict lies deeper.
pub open spec fn spec_conflict<H>(r: RouterV<H>, n: int, ss: Seq<Seq<char>>) -> bool
    decreases ss.len(),
{
    if ss.len() == 0 {
        false
    } else {
        match find_edge(r.edges, n, ss[0]) {
            Some(i) => spec_conflict(r, r.edges[i].child, ss.skip(1)),
            None => is_param(ss[0]) && find_param_edge(r.edges, n) is Some,
        }
    }
}

/// The parametric label already present at the node where `spec_conflict`
/// holds; meaningful only when it does.
pub open spec fn spec_conflict_key<H>(r: RouterV<H>, n: int, ss: Seq<Seq<char>>) -> Seq<char>
    decreases ss.len(),
{
    if ss.len() == 0 {
        Seq::empty()
    } else {
        match find_edge(r.edges, n, ss[0]) {
            Some(i) => spec_conflict_key(r, r.edges[i].child, ss.skip(1)),
            None => match find_param_edge(r.edges, n) {
                Some(i) => r.edges[i].key,
                None => Seq::empty(),
            },
        }
    }
}

/// A rejected registration: the pattern would put a second parametric
/// capture under one trie node, which already carries the label `existing`.
#[derive(Debug)]
pub struct RegisterError {
    pub path: String,
    pub existing: String,
}

/// The text of a rejected registration.
pub open spec fn spec_register_error_message(existing: Seq<char>, path: Seq<char>) -> Seq<char> {
    "conflicting parameter "@ + existing + " for path "@ + path
}

impl RegisterError {
    /// The rejection spelled out.
    pub fn message(&self) -> (r: String)
        ensures
            r@ == spec_register_error_message(self.existing@, self.path@),
    {
        let mut s = String::new();
        s.append("conflicting parameter ");
        s.append(self.existing.as_str());
        s.append(" for path ");
        s.append(self.path.as_str());
        s
    }
}

/// A registration: a method, the path pattern, and the handler to invoke.
#[derive(Debug)]
pub struct RouterHandler<H> {
    pub method: Method,
    pub path: String,
    pub handler: H,
}

impl<H> RouterHandler<H> {
    pub fn new(method: Method, path: &str, handler: H) -> (r: Self)
        ensures
            r.method == method,
            r.path@ == path@,
            r.handler == handler,
    {
        RouterHandler { method, path: path.to_owned(), handler }
    }
}

/// A failed resolution: no handler is registered for this method and path.
#[derive(Debug)]
pub struct RouteError {
    pub method: Method,
    pub path: String,
}

/// The text of a resolution failure.
pub open spec fn spec_route_error_message(m: Method, path: Seq<char>) -> Seq<char> {
    "missing "@ + m.spec_lower_name() + " handler for path "@ + path
}

impl RouteError {
    /// The failure spelled out, as the dispatch loop logs it.
    pub fn message(&self) -> (r: String)
        ensures
            r@ == spec_route_error_message(self.method, self.path@),
    {
        let mut s = String::new();
        s.append("missing ");
        s.append(self.method.as_lower_str());
        s.append(" handler for path ");
        s.append(self.path.as_str());
        s
    }
}

#[derive(Debug)]
struct RouteEdge {
    parent: usize,
    key: String,
    child: usize,
}

/// The router: an arena trie, mounted once and then shared read-only.
#[derive(Debug)]
pub struct Router<H> {
    edges: Vec<RouteEdge>,
    h_get: Vec<Option<H>>,
    h_post: Vec<Option<H>>,
    h_put: Vec<Option<H>>,
    h_delete: Vec<Option<H>>,
}

impl<H> View for Router<H> {
    type V = RouterV<H>;

    closed spec fn view(&self) -> RouterV<H> {
        RouterV {
            n_nodes: self.h_get@.len() as int,
            edges: self.edges@.map_values(
                |e: RouteEdge| EdgeV { parent: e.parent as int, key: e.key@, child: e.child as int },
            ),
            h_get: self.h_get@,
            h_post: self.h_post@,
            h_put: self.h_put@,
            h_delete: self.h_delete@,
        }
    }
}

fn is_param_key(s: &str) -> (r: bool)
    ensures
        r == is_param(s@),
{
    let n = s.unicode_len();
    if n == 0 {
        false
    } else {
        s.get_char(0) == ':'
    }
}

impl<H> Router<H> {
    /// Whether the arena is well-formed; every public operation preserves it.
    pub open spec fn wf(&self) -> bool {
        wf_v(self@)
    }

    /// A router with no routes.
    pub fn new() -> (r: Self)
        ensures
            r@ == empty_router::<H>(),
            r.wf(),
    {
        let mut h_get: Vec<Option<H>> = Vec::new();
        let mut h_post: Vec<Option<H>> = Vec::new();
        let mut h_put: Vec<Option<H>> = Vec::new();
        let mut h_delete: Vec<Option<H>> = Vec::new();
        h_get.push(None);
        h_post.push(None);
        h_put.push(None);
        h_delete.push(None);
        let r = Router { edges: Vec::new(), h_get, h_post, h_put, h_delete };
        proof {
            assert(r@.edges =~= empty_router::<H>().edges);
            assert(r@.h_get =~= empty_router::<H>().h_get);
            assert(r@.h_post =~= empty_router::<H>().h_post);
            assert(r@.h_put =~= empty_router::<H>().h_put);
            assert(r@.h_delete =~= empty_router::<H>().h_delete);
            assert(r@ =~= empty_router::<H>());
        }
        r
    }

    /// First edge out of node `n` labelled exactly `seg`.
    fn find_child(&self, n: usize, seg: &str) -> (res: Option<usize>)
        ensures
            match find_edge(self@.edges, n as int, seg@) {
                Some(i) => res matches Some(c) && self@.edges[i].child == c as int,
                None => res is None,
            },
    {
        let ghost es = self@.edges;
        let mut j: usize = 0;
        while j < self.edges.len()
            invariant
                j <= self.edges.len(),
                es == self@.edges,
                es.len() == self.edges@.len(),
                forall|t: int|
                    0 <= t < j ==> !(#[trigger] es[t].parent == n as int && es[t].key == seg@),
            decreases self.edges.len() - j,
        {
            let e = &self.edges[j];
            proof {
                assert(es[j as int].parent == e.parent as int && es[j as int].key == e.key@
                    && es[j as int].child == e.child as int);
            }
            if e.parent == n && str_eq(e.key.as_str(), seg) {
                proof {
                    lemma_find_edge_some(es, n as int, seg@, j as int);
                }
                return Some(e.child);
            }
            j += 1;
        }
        proof {
            lemma_find_edge_none(es, n as int, seg@);
        }
        None
    }

    /// First parametric edge out of node `n`, with its label.
    fn find_param_child(&self, n: usize) -> (res: Option<(usize, String)>)
        ensures
            match find_param_edge(self@.edges, n as int) {
                Some(i) => res matches Some(ck) && self@.edges[i].child == ck.0 as int
                    && self@.edges[i].key == ck.1@,
                None => res is None,
            },
    {
        let ghost es = self@.edges;
        let mut j: usize = 0;
        while j < self.edges.len()
            invariant
                j <= self.edges.len(),
                es == self@.edges,
                es.len() == self.edges@.len(),
                forall|t: int|
                    0 <= t < j ==> !(#[trigger] es[t].parent == n as int && is_param(es[t].key)),
            decreases self.edges.len() - j,
        {
            let e = &self.edges[j];
            proof {
                assert(es[j as int].parent == e.parent as int && es[j as int].key == e.key@
                    && es[j as int].child == e.child as int);
            }
            if e.parent == n && is_param_key(e.key.as_str()) {
                proof {
                    lemma_find_param_edge_some(es, n as int, j as int);
                }
                return Some((e.child, e.key.clone()));
            }
            j += 1;
        }
        proof {
            lemma_find_param_edge_none(es, n as int);
        }
        None
    }

    /// Whether registering `segs` would add a second parametric capture
    /// under a node that already carries one, and that node's existing label.
    fn find_conflict(&self, segs: &Vec<String>) -> (res: Option<String>)
        requires
            self.wf(),
        ensures
            ({
                let ss = segs@.map_values(|p: String| p@);
                match res {
                    Some(k) => spec_conflict(self@, 0, ss) && k@ == spec_conflict_key(self@, 0, ss),
                    None => !spec_conflict(self@, 0, ss),
                }
            }),
    {
        let ghost ss = segs@.map_values(|p: String| p@);
        let mut cur: usize = 0;
        let mut i: usize = 0;
        proof {
            assert(ss.skip(0) =~= ss);
        }
        while i < segs.len()
            invariant
                i <= segs.len(),
                ss == segs@.map_values(|p: String| p@),
                self.wf(),
                (cur as int) < self@.n_nodes,
                spec_conflict(self@, 0, ss) == spec_conflict(self@, cur as int, ss.skip(i as int)),
                spec_conflict(self@, 0, ss) ==> spec_conflict_key(self@, 0, ss)
                    == spec_conflict_key(self@, cur as int, ss.skip(i as int)),
            decreases segs.len() - i,
        {
            let ghost rest = ss.skip(i as int);
            proof {
                assert(rest[0] == ss[i as int]);
                assert(ss[i as int] == segs@[i as int]@);
                assert(rest.skip(1) =~= ss.skip(i + 1 as int));
            }
            let seg = &segs[i];
            match self.find_child(cur, seg.as_str()) {
                Some(c) => {
                    proof {
                        lemma_find_edge_props(self@.edges, cur as int, seg@);
                    }
                    cur = c;
                },
                None => {
                    if is_param_key(seg.as_str()) {
                        match self.find_param_child(cur) {
                            Some((_child, key)) => {
                                return Some(key);
                            },
                            None => {
                                return None;
                            },
                        }
                    } else {
                        return None;
                    }
                },
            }
            i += 1;
        }
        proof {
            assert(ss.skip(segs@.len() as int) =~= Seq::<Seq<char>>::empty());
        }
        None
    }

    /// Register `h`: walk the pattern's segments from the root, growing the
    /// trie where needed, and store the handler at the node reached, replacing
    /// any previous registration of the same method and pattern.  A node
    /// carries at most one parametric capture: a pattern that would put a
    /// second, differently named one under a node is rejected, naming the
    /// label already there, and the router is left unchanged.
    pub fn insert(&mut self, h: RouterHandler<H>) -> (r: Result<(), RegisterError>)
        requires
            old(self).wf(),
        ensures
            final(self).wf(),
            match r {
                Ok(_) => !spec_conflict(old(self)@, 0, path_segs(h.path@)) && final(self)@
                    == spec_insert(old(self)@, 0, path_segs(h.path@), h.method, h.handler),
                Err(e) => spec_conflict(old(self)@, 0, path_segs(h.path@)) && final(self)@ == old(
                    self,
                )@ && e.path@ == h.path@ && e.existing@ == spec_conflict_key(
                    old(self)@,
                    0,
                    path_segs(h.path@),
                ),
            },
    {
        let RouterHandler { method, path, handler } = h;
        let segs = split_nonempty_str(path.as_str(), Sep::Slash);
        match self.find_conflict(&segs) {
            Some(existing) => {
                return Err(RegisterError { path, existing });
            },
            None => {},
        }
        let ghost segviews = segs@.map_values(|p: String| p@);
        let ghost target = spec_insert(old(self)@, 0, path_segs(path@), method, handler);
        let mut cur: usize = 0;
        let mut i: usize = 0;
        proof {
            assert(segviews.skip(0) =~= segviews);
        }
        while i < segs.len()
            invariant
                i <= segs.len(),
                segviews == segs@.map_values(|p: String| p@),
                wf_v(self@),
                (cur as int) < self@.n_nodes,
                target == spec_insert(self@, cur as int, segviews.skip(i as int), method, handler),
            decreases segs.len() - i,
        {
            let ghost pre = self@;
            let ghost rest = segviews.skip(i as int);
            proof {
                assert(rest[0] == segviews[i as int]);
                assert(rest.skip(1) =~= segviews.skip(i + 1 as int));
            }
            let seg = &segs[i];
            match self.find_child(cur, seg.as_str()) {
                Some(c) => {
                    proof {
                        lemma_find_edge_props(pre.edges, cur as int, seg@);
                        let idx = find_edge(pre.edges, cur as int, seg@).unwrap();
                        assert(pre.edges[idx].child < pre.n_nodes);
                    }
                    cur = c;
                },
                None => {
                    let fresh = self.h_get.len();
                    self.h_get.push(None);
                    self.h_post.push(None);
                    self.h_put.push(None);
                    self.h_delete.push(None);
                    self.edges.push(RouteEdge { parent: cur, key: seg.clone(), child: fresh });
                    proof {
                        assert(self@.edges =~= pre.edges.push(
                            EdgeV { parent: cur as int, key: seg@, child: fresh as int },
                        ));
                        assert(self@ =~= grow(pre, cur as int, seg@));
                        lemma_grow_wf(pre, cur as int, seg@);
                    }
                    cur = fresh;
                },
            }
            i += 1;
        }
        proof {
            assert(segviews.skip(segs@.len() as int) =~= Seq::<Seq<char>>::empty());
        }
        let ghost preset = self@;
        match method {
            Method::GET => self.h_get.set(cur, Some(handler)),
            Method::POST => self.h_post.set(cur, Some(handler)),
            Method::PUT => self.h_put.set(cur, Some(handler)),
            Method::DELETE => self.h_delete.set(cur, Some(handler)),
        }
        proof {
            assert(self@ =~= set_slot(preset, cur as int, method, handler));
        }
        Ok(())
    }

    /// Register a handler for `GET` requests on `path`.
    pub fn get(&mut self, path: &str, handler: H) -> (r: Result<(), RegisterError>)
        requires
            old(self).wf(),
        ensures
            final(self).wf(),
            match r {
                Ok(_) => !spec_conflict(old(self)@, 0, path_segs(path@)) && final(self)@
                    == spec_insert(old(self)@, 0, path_segs(path@), Method::GET, handler),
                Err(e) => spec_conflict(old(self)@, 0, path_segs(path@)) && final(self)@ == old(
                    self,
                )@ && e.path@ == path@ && e.existing@ == spec_conflict_key(
                    old(self)@,
                    0,
                    path_segs(path@),
                ),
            },
    {
        let h = RouterHandler::new(Method::GET, path, handler);
        self.insert(h)
    }

    /// Register a handler for `POST` requests on `path`.
    pub fn post(&mut self, path: &str, handler: H) -> (r: Result<(), RegisterError>)
        requires
            old(self).wf(),
        ensures
            final(self).wf(),
            match r {
                Ok(_) => !spec_conflict(old(self)@, 0, path_segs(path@)) && final(self)@
                    == spec_insert(old(self)@, 0, path_segs(path@), Method::POST, handler),
                Err(e) => spec_conflict(old(self)@, 0, path_segs(path@)) && final(self)@ == old(
                    self,
                )@ && e.path@ == path@ && e.existing@ == spec_conflict_key(
                    old(self)@,
                    0,
                    path_segs(path@),
                ),
            },
    {
        let h = RouterHandler::new(Method::POST, path, handler);
        self.insert(h)
    }

    /// Register a handler for `PUT` requests on `path`.
    pub fn put(&mut self, path: &str, handler: H) -> (r: Result<(), RegisterError>)
        requires
            old(self).wf(),
        ensures
            final(self).wf(),
            match r {
                Ok(_) => !spec_conflict(old(self)@, 0, path_segs(path@)) && final(self)@
                    == spec_insert(old(self)@, 0, path_segs(path@), Method::PUT, handler),
                Err(e) => spec_conflict(old(self)@, 0, path_segs(path@)) && final(self)@ == old(
                    self,
                )@ && e.path@ == path@ && e.existing@ == spec_conflict_key(
                    old(self)@,
                    0,
                    path_segs(path@),
                ),
            },
    {
        let h = RouterHandler::new(Method::PUT, path, handler);
        self.insert(h)
    }

    /// Register a handler for `DELETE` requests on `path`.
    pub fn delete(&mut self, path: &str, handler: H) -> (r: Result<(), RegisterError>)
        requires
            old(self).wf(),
        ensures
            final(self).wf(),
            match r {
                Ok(_) => !spec_conflict(old(self)@, 0, path_segs(path@)) && final(self)@
                    == spec_insert(old(self)@, 0, path_segs(path@), Method::DELETE, handler),
                Err(e) => spec_conflict(old(self)@, 0, path_segs(path@)) && final(self)@ == old(
                    self,
                )@ && e.path@ == path@ && e.existing@ == spec_conflict_key(
                    old(self)@,
                    0,
                    path_segs(path@),
                ),
            },
    {
        let h = RouterHandler::new(Method::DELETE, path, handler);
        self.insert(h)
    }

    /// Register a prepared `RouterHandler` under its own method.
    pub fn add_route(&mut self, handler: RouterHandler<H>) -> (r: Result<(), RegisterError>)
        requires
            old(self).wf(),
        ensures
            final(self).wf(),
            match r {
                Ok(_) => !spec_conflict(old(self)@, 0, path_segs(handler.path@)) && final(self)@
                    == spec_insert(
                    old(self)@,
                    0,
                    path_segs(handler.path@),
                    handler.method,
                    handler.handler,
                ),
                Err(e) => spec_conflict(old(self)@, 0, path_segs(handler.path@)) && final(self)@
                    == old(self)@ && e.path@ == handler.path@ && e.existing@ == spec_conflict_key(
                    old(self)@,
                    0,
                    path_segs(handler.path@),
                ),
            },
    {
        self.insert(handler)
    }

    /// Resolve `(method, path)`: the registered handler and the parameter
    /// bindings collected along the way, or an error naming the method and
    /// path when no registration matches.
    pub fn get_handler(&self, method: Method, path: &str) -> (r: Result<
        (H, Vec<(String, String)>),
        RouteError,
    >) where H: Copy
        requires
            self.wf(),
        ensures
            match r {
                Ok(hp) => spec_lookup(self@, 0, path_segs(path@), method, Seq::empty()) == Some(
                    (hp.0, pairs_view(hp.1@)),
                ),
                Err(e) => spec_lookup(self@, 0, path_segs(path@), method, Seq::empty()) is None
                    && e.method == method && e.path@ == path@,
            },
    {
        let segs = split_nonempty_str(path, Sep::Slash);
        let ghost segviews = segs@.map_values(|p: String| p@);
        let ghost full = spec_lookup(self@, 0, path_segs(path@), method, Seq::empty());
        let mut cur: usize = 0;
        let mut params: Vec<(String, String)> = Vec::new();
        let mut i: usize = 0;
        proof {
            assert(segviews.skip(0) =~= segviews);
            assert(pairs_view(params@) =~= Seq::<(Seq<char>, Seq<char>)>::empty());
        }
        while i < segs.len()
            invariant
                i <= segs.len(),
                segviews == segs@.map_values(|p: String| p@),
                segviews == path_segs(path@),
                self.wf(),
                (cur as int) < self@.n_nodes,
                full == spec_lookup(self@, 0, path_segs(path@), method, Seq::empty()),
                full == spec_lookup(
                    self@,
                    cur as int,
                    segviews.skip(i as int),
                    method,
                    pairs_view(params@),
                ),
            decreases segs.len() - i,
        {
            let ghost rest = segviews.skip(i as int);
            proof {
                assert(rest[0] == segviews[i as int]);
                assert(rest.skip(1) =~= segviews.skip(i + 1 as int));
            }
            let seg = &segs[i];
            match self.find_child(cur, seg.as_str()) {
                Some(c) => {
                    proof {
                        lemma_find_edge_props(self@.edges, cur as int, seg@);
                    }
                    cur = c;
                },
                None => {
                    match self.find_param_child(cur) {
                        Some((c, key)) => {
                            proof {
                                lemma_find_param_edge_props(self@.edges, cur as int);
                            }
                            let klen = key.as_str().unicode_len();
                            let name = key.as_str().substring_char(1, klen).to_owned();
                            let ghost before = params@;
                            params.push((name, seg.clone()));
                            proof {
                                assert(name@ =~= key@.skip(1));
                                assert(pairs_view(params@) =~= pairs_view(before).push(
                                    (key@.skip(1), seg@),
                                ));
                            }
                            cur = c;
                        },
                        None => {
                            proof {
                                assert(segviews[i as int] == segs@[i as int]@);
                                assert(rest[0] == seg@);
                                assert(find_edge(self@.edges, cur as int, rest[0]) is None);
                                assert(find_param_edge(self@.edges, cur as int) is None);
                                assert(spec_lookup(
                                    self@,
                                    cur as int,
                                    rest,
                                    method,
                                    pairs_view(params@),
                                ) is None);
                            }
                            return Err(RouteError { method, path: path.to_owned() });
                        },
                    }
                },
            }
            i += 1;
        }
        proof {
            assert(segviews.skip(segs@.len() as int) =~= Seq::<Seq<char>>::empty());
        }
        let hopt: Option<H> = match method {
            Method::GET => self.h_get[cur],
            Method::POST => self.h_post[cur],
            Method::PUT => self.h_put[cur],
            Method::DELETE => self.h_delete[cur],
        };
        match hopt {
            Some(hh) => Ok((hh, params)),
            None => Err(RouteError { method, path: path.to_owned() }),
        }
    }
}

} // verus!
