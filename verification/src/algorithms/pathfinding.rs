//! Shortest paths between two persons: a bidirectional breadth-first search
//! that always grows the side that has visited fewer nodes.
use vstd::prelude::*;
use std::collections::VecDeque;
use ahash::AHashSet;
use bit_set::BitSet;
use crate::algorithms::AbstractNode;
use crate::ui_state::PathSection;
use crate::third_party::{
    bits_contains, bits_contents, bits_insert, bits_len, bits_with_capacity, set_contains,
    set_contents, set_from_slice, set_intersection, set_new,
};

verus! {

/// What to search for: the two ends, persons the path may not go through,
/// and whether to avoid the direct link and the mutual friends of the ends.
#[derive(Clone, Default)]
pub struct PathSectionSettings {
    pub path_src: Option<usize>,
    pub path_dest: Option<usize>,
    pub exclude_ids: Vec<usize>,
    pub path_no_direct: bool,
    pub path_no_mutual: bool,
}

#[derive(Clone, Debug)]
pub struct PathSectionResults {
    pub path: Vec<usize>,
}

/// The neighbour lists of the nodes.
pub open spec fn adjacency<N: AbstractNode>(data: Seq<N>) -> Seq<Seq<usize>> {
    data.map_values(|x: N| x.neighbors_view())
}

/// Whether a search may enter node `v`: it is not excluded, and not a mutual
/// friend of the two ends when those are to be avoided.
pub open spec fn allowed(g: Seq<Seq<usize>>, s: PathSectionSettings, src: usize, dest: usize, v: usize) -> bool {
    &&& !(s.path_no_mutual && g[src as int].contains(v) && g[dest as int].contains(v))
    &&& !s.exclude_ids@.contains(v)
}

/// Whether the link `u -> v` is the direct link between the two ends, when
/// that one is to be avoided.
pub open spec fn banned(s: PathSectionSettings, src: usize, dest: usize, u: usize, v: usize) -> bool {
    s.path_no_direct && ((u == src && v == dest) || (u == dest && v == src))
}

/// One step of either search: from `u` to a neighbour `v` that may be entered.
pub open spec fn step(g: Seq<Seq<usize>>, s: PathSectionSettings, src: usize, dest: usize, u: usize, v: usize) -> bool {
    &&& u < g.len()
    &&& v < g.len()
    &&& g[u as int].contains(v)
    &&& allowed(g, s, src, dest, v)
    &&& !banned(s, src, dest, u, v)
}

/// The `i`-th step of `w`, from `w[i]` to `w[i + 1]`.
pub open spec fn step_at(g: Seq<Seq<usize>>, s: PathSectionSettings, src: usize, dest: usize, w: Seq<usize>, i: int) -> bool {
    step(g, s, src, dest, w[i], w[i + 1])
}

/// A sequence of steps.
pub open spec fn is_walk(g: Seq<Seq<usize>>, s: PathSectionSettings, src: usize, dest: usize, w: Seq<usize>) -> bool {
    &&& w.len() >= 1
    &&& forall|i: int| 0 <= i < w.len() - 1 ==> #[trigger] step_at(g, s, src, dest, w, i)
}

/// A meeting of the two searches: a walk `fw` from `src` and a walk `bw` from
/// `dest` that end at the same node.
pub open spec fn is_route(
    g: Seq<Seq<usize>>,
    s: PathSectionSettings,
    src: usize,
    dest: usize,
    fw: Seq<usize>,
    bw: Seq<usize>,
) -> bool {
    &&& is_walk(g, s, src, dest, fw)
    &&& is_walk(g, s, src, dest, bw)
    &&& fw[0] == src
    &&& bw[0] == dest
    &&& fw.last() == bw.last()
}

/// Number of links on a route.
pub open spec fn route_len(fw: Seq<usize>, bw: Seq<usize>) -> int {
    fw.len() + bw.len() - 2
}

/// The path of a route, from `src` to `dest`.
pub open spec fn route_path(fw: Seq<usize>, bw: Seq<usize>) -> Seq<usize> {
    fw + bw.reverse().drop_first()
}

/// Every listed neighbour is a node of the graph.
pub open spec fn links_in_range(g: Seq<Seq<usize>>) -> bool {
    forall|u: int, k: int| 0 <= u < g.len() && 0 <= k < g[u].len() ==> #[trigger] g[u][k] < g.len()
}

/// Every link is listed at both of its ends.
pub open spec fn symmetric(g: Seq<Seq<usize>>) -> bool {
    forall|u: int, k: int|
        0 <= u < g.len() && 0 <= k < g[u].len() ==> #[trigger] g[u][k] < g.len() && g[g[u][k] as int].contains(
            u as usize,
        )
}

/// The one input where the search can miss the shortest route: the ends are
/// linked directly, the link is allowed, the source may be entered but the
/// destination may not (so only the backward search can take that link).
pub open spec fn direct_link_backward_only(g: Seq<Seq<usize>>, s: PathSectionSettings, src: usize, dest: usize) -> bool {
    &&& g[src as int].contains(dest)
    &&& !banned(s, src, dest, src, dest)
    &&& allowed(g, s, src, dest, src)
    &&& !allowed(g, s, src, dest, dest)
}

pub open spec fn has_route(g: Seq<Seq<usize>>, s: PathSectionSettings, src: usize, dest: usize) -> bool {
    exists|fw: Seq<usize>, bw: Seq<usize>| #[trigger] is_route(g, s, src, dest, fw, bw)
}

// ---------------------------------------------------------------------------
// Walks
// ---------------------------------------------------------------------------

proof fn lemma_walk_take(g: Seq<Seq<usize>>, s: PathSectionSettings, src: usize, dest: usize, w: Seq<usize>, j: int)
    requires
        is_walk(g, s, src, dest, w),
        1 <= j <= w.len(),
    ensures
        is_walk(g, s, src, dest, w.take(j)),
{
    assert forall|i: int| 0 <= i < w.take(j).len() - 1 implies #[trigger] step_at(g, s, src, dest, w.take(j), i) by {
        assert(step_at(g, s, src, dest, w, i));
    }
}

/// In a symmetric graph a walk can be followed back from its end down to its
/// second node (every node after the first was entered, hence may be entered).
proof fn lemma_walk_rev_suffix(g: Seq<Seq<usize>>, s: PathSectionSettings, src: usize, dest: usize, w: Seq<usize>, j: int)
    requires
        symmetric(g),
        is_walk(g, s, src, dest, w),
        1 <= j < w.len(),
    ensures
        is_walk(g, s, src, dest, w.subrange(j, w.len() as int).reverse()),
        w.subrange(j, w.len() as int).reverse()[0] == w.last(),
        w.subrange(j, w.len() as int).reverse().last() == w[j],
        w.subrange(j, w.len() as int).reverse().len() == w.len() - j,
{
    let r = w.subrange(j, w.len() as int).reverse();
    let len = w.len();
    assert forall|i: int| 0 <= i < r.len() - 1 implies #[trigger] step_at(g, s, src, dest, r, i) by {
        let a = len - 1 - i;
        assert(r[i] == w[a]);
        assert(r[i + 1] == w[a - 1]);
        assert(step_at(g, s, src, dest, w, a - 1));
        assert(step_at(g, s, src, dest, w, a - 2));
        let u = w[a - 1];
        assert(g[u as int].contains(w[a]));
        let k = choose|k: int| 0 <= k < g[u as int].len() && g[u as int][k] == w[a];
        assert(g[u as int][k] < g.len() && g[g[u as int][k] as int].contains(u as usize));
    }
}

proof fn lemma_walk_concat(g: Seq<Seq<usize>>, s: PathSectionSettings, src: usize, dest: usize, u: Seq<usize>, v: Seq<usize>)
    requires
        is_walk(g, s, src, dest, u),
        is_walk(g, s, src, dest, v),
        u.last() == v[0],
    ensures
        is_walk(g, s, src, dest, u + v.drop_first()),
        (u + v.drop_first()).len() == u.len() + v.len() - 1,
        (u + v.drop_first())[0] == u[0],
        (u + v.drop_first()).last() == v.last(),
{
    let c = u + v.drop_first();
    assert forall|i: int| 0 <= i < c.len() - 1 implies #[trigger] step_at(g, s, src, dest, c, i) by {
        if i < u.len() - 1 {
            assert(step_at(g, s, src, dest, u, i));
        } else if i == u.len() - 1 {
            assert(step_at(g, s, src, dest, v, 0));
        } else {
            let k = i - (u.len() - 1);
            assert(c[i] == v[k]);
            assert(c[i + 1] == v[k + 1]);
            assert(step_at(g, s, src, dest, v, k));
        }
    }
    if v.len() == 1 {
        assert(c =~= u);
    }
}

/// The part of a search that is done: the visited nodes `vis`, each with its
/// depth `lvl`; every step out of a node shallower than `k` leads to a
/// visited node at most one level deeper.
pub open spec fn closed_below(g: Seq<Seq<usize>>, s: PathSectionSettings, src: usize, dest: usize, vis: Set<usize>, lvl: Map<usize, nat>, k: nat) -> bool {
    forall|u: usize, v: usize|
        #![trigger lvl[u], step(g, s, src, dest, u, v)]
        vis.contains(u) && lvl[u] < k && step(g, s, src, dest, u, v) ==> vis.contains(v) && lvl[v] <= lvl[u] + 1
}

/// A walk from the root of a search of at most `k` steps ends at a visited
/// node no deeper than its length.
proof fn lemma_walk_in_vis(
    g: Seq<Seq<usize>>,
    s: PathSectionSettings,
    src: usize,
    dest: usize,
    root: usize,
    vis: Set<usize>,
    lvl: Map<usize, nat>,
    k: nat,
    w: Seq<usize>,
)
    requires
        closed_below(g, s, src, dest, vis, lvl, k),
        vis.contains(root),
        lvl[root] == 0,
        is_walk(g, s, src, dest, w),
        w[0] == root,
        w.len() - 1 <= k,
    ensures
        vis.contains(w.last()),
        lvl[w.last()] <= w.len() - 1,
    decreases w.len(),
{
    if w.len() > 1 {
        let w0 = w.drop_last();
        lemma_walk_take(g, s, src, dest, w, w.len() - 1);
        assert(w.take(w.len() - 1) =~= w0);
        lemma_walk_in_vis(g, s, src, dest, root, vis, lvl, k, w0);
        let u = w0.last();
        assert(step_at(g, s, src, dest, w, w.len() - 2));
        assert(lvl[u] < k);
    }
}

/// When a search has nothing left to expand, every walk from its root stays
/// inside the visited nodes.
proof fn lemma_walk_in_closed(
    g: Seq<Seq<usize>>,
    s: PathSectionSettings,
    src: usize,
    dest: usize,
    vis: Set<usize>,
    lvl: Map<usize, nat>,
    k: nat,
    w: Seq<usize>,
)
    requires
        closed_below(g, s, src, dest, vis, lvl, k),
        forall|x: usize| vis.contains(x) ==> #[trigger] lvl[x] < k,
        vis.contains(w[0]),
        is_walk(g, s, src, dest, w),
    ensures
        vis.contains(w.last()),
    decreases w.len(),
{
    if w.len() > 1 {
        let w0 = w.drop_last();
        lemma_walk_take(g, s, src, dest, w, w.len() - 1);
        assert(w.take(w.len() - 1) =~= w0);
        lemma_walk_in_closed(g, s, src, dest, vis, lvl, k, w0);
        assert(step_at(g, s, src, dest, w, w.len() - 2));
        assert(lvl[w0.last()] < k);
    }
}

/// The layer argument: when both searches are past their first level and
/// their visited sets are disjoint, every route is longer than the two depths.
proof fn lemma_route_bound(
    g: Seq<Seq<usize>>,
    s: PathSectionSettings,
    src: usize,
    dest: usize,
    fw: Seq<usize>,
    bw: Seq<usize>,
    kf: nat,
    kb: nat,
    vis_f: Set<usize>,
    lvl_f: Map<usize, nat>,
    vis_b: Set<usize>,
    lvl_b: Map<usize, nat>,
)
    requires
        symmetric(g),
        is_route(g, s, src, dest, fw, bw),
        kf >= 1,
        kb >= 1,
        closed_below(g, s, src, dest, vis_f, lvl_f, kf),
        closed_below(g, s, src, dest, vis_b, lvl_b, kb),
        vis_f.contains(src),
        lvl_f[src] == 0,
        vis_b.contains(dest),
        lvl_b[dest] == 0,
        vis_f.disjoint(vis_b),
    ensures
        route_len(fw, bw) >= kf + kb + 1,
{
    let a = fw.len() - 1;
    let b = bw.len() - 1;
    let l = a + b;
    if l <= kf + kb {
        if a <= kf && b <= kb {
            lemma_walk_in_vis(g, s, src, dest, src, vis_f, lvl_f, kf, fw);
            lemma_walk_in_vis(g, s, src, dest, dest, vis_b, lvl_b, kb, bw);
            assert(vis_f.contains(fw.last()) && vis_b.contains(fw.last()));
        } else if a > kf {
            let i = kf as int;
            lemma_walk_take(g, s, src, dest, fw, i + 1);
            lemma_walk_in_vis(g, s, src, dest, src, vis_f, lvl_f, kf, fw.take(i + 1));
            lemma_walk_rev_suffix(g, s, src, dest, fw, i);
            let r = fw.subrange(i, fw.len() as int).reverse();
            lemma_walk_concat(g, s, src, dest, bw, r);
            lemma_walk_in_vis(g, s, src, dest, dest, vis_b, lvl_b, kb, bw + r.drop_first());
            assert(vis_f.contains(fw[i]) && vis_b.contains(fw[i]));
        } else {
            let i = kb as int;
            lemma_walk_take(g, s, src, dest, bw, i + 1);
            lemma_walk_in_vis(g, s, src, dest, dest, vis_b, lvl_b, kb, bw.take(i + 1));
            lemma_walk_rev_suffix(g, s, src, dest, bw, i);
            let r = bw.subrange(i, bw.len() as int).reverse();
            lemma_walk_concat(g, s, src, dest, fw, r);
            lemma_walk_in_vis(g, s, src, dest, src, vis_f, lvl_f, kf, fw + r.drop_first());
            assert(vis_f.contains(bw[i]) && vis_b.contains(bw[i]));
        }
    }
}

/// A route of one link is a single step between the ends, in one direction.
proof fn lemma_route_len_one(g: Seq<Seq<usize>>, s: PathSectionSettings, src: usize, dest: usize, fw: Seq<usize>, bw: Seq<usize>)
    requires
        is_route(g, s, src, dest, fw, bw),
        route_len(fw, bw) == 1,
    ensures
        step(g, s, src, dest, src, dest) || step(g, s, src, dest, dest, src),
{
    if fw.len() == 2 {
        assert(step_at(g, s, src, dest, fw, 0));
    } else {
        assert(step_at(g, s, src, dest, bw, 0));
    }
}

/// Every route has at least one link when the ends differ.
proof fn lemma_route_len_pos(g: Seq<Seq<usize>>, s: PathSectionSettings, src: usize, dest: usize, fw: Seq<usize>, bw: Seq<usize>)
    requires
        is_route(g, s, src, dest, fw, bw),
        src != dest,
    ensures
        route_len(fw, bw) >= 1,
{
}


// ---------------------------------------------------------------------------
// Search state
// ---------------------------------------------------------------------------

/// Each visited node other than the root was entered from its recorded
/// predecessor, one level shallower.
pub open spec fn pred_ok(
    g: Seq<Seq<usize>>,
    s: PathSectionSettings,
    src: usize,
    dest: usize,
    root: usize,
    vis: Set<usize>,
    lvl: Map<usize, nat>,
    pred: Seq<Option<usize>>,
) -> bool {
    forall|x: usize|
        #[trigger] vis.contains(x) && x != root ==> {
            &&& pred[x as int] is Some
            &&& vis.contains(pred[x as int]->0)
            &&& lvl[pred[x as int]->0] + 1 == lvl[x]
            &&& step(g, s, src, dest, pred[x as int]->0, x)
        }
}

/// Facts about a search shared by its states between and within levels.
pub open spec fn search_base(
    g: Seq<Seq<usize>>,
    s: PathSectionSettings,
    src: usize,
    dest: usize,
    root: usize,
    vis: Set<usize>,
    lvl: Map<usize, nat>,
    pred: Seq<Option<usize>>,
) -> bool {
    &&& vis == lvl.dom()
    &&& vis.finite()
    &&& pred.len() == g.len()
    &&& root < g.len()
    &&& vis.contains(root)
    &&& lvl[root] == 0
    &&& pred[root as int] is None
    &&& forall|x: usize| #[trigger] vis.contains(x) ==> x < g.len() && (lvl[x] == 0 ==> x == root)
    &&& pred_ok(g, s, src, dest, root, vis, lvl, pred)
}

/// A search between two levels: every node of depth `k` is queued, none is
/// deeper, and every shallower node has been expanded.
pub open spec fn search_inv(
    g: Seq<Seq<usize>>,
    s: PathSectionSettings,
    src: usize,
    dest: usize,
    root: usize,
    vis: Set<usize>,
    lvl: Map<usize, nat>,
    pred: Seq<Option<usize>>,
    queue: Seq<usize>,
    k: nat,
) -> bool {
    &&& search_base(g, s, src, dest, root, vis, lvl, pred)
    &&& forall|x: usize| #[trigger] vis.contains(x) ==> lvl[x] <= k
    &&& queue.no_duplicates()
    &&& forall|i: int| 0 <= i < queue.len() ==> vis.contains(#[trigger] queue[i]) && lvl[queue[i]] == k
    &&& forall|x: usize| #[trigger] vis.contains(x) && lvl[x] == k ==> queue.contains(x)
    &&& closed_below(g, s, src, dest, vis, lvl, k)
}

/// Node `u` of a search expanding level `k` has been expanded: it is
/// shallower, or among the first `p` nodes of the level.
pub open spec fn expanded(lvl: Map<usize, nat>, k: nat, q0: Seq<usize>, p: int, u: usize) -> bool {
    lvl[u] < k || q0.take(p).contains(u)
}

/// A search in the middle of expanding level `k` (queued as `q0`): the first
/// `p` nodes are expanded, the nodes they reached at depth `k + 1` are queued
/// in `qnew`.
pub open spec fn search_mid(
    g: Seq<Seq<usize>>,
    s: PathSectionSettings,
    src: usize,
    dest: usize,
    root: usize,
    vis: Set<usize>,
    lvl: Map<usize, nat>,
    pred: Seq<Option<usize>>,
    q0: Seq<usize>,
    p: int,
    qnew: Seq<usize>,
    k: nat,
) -> bool {
    &&& search_base(g, s, src, dest, root, vis, lvl, pred)
    &&& 0 <= p <= q0.len()
    &&& forall|x: usize| #[trigger] vis.contains(x) ==> lvl[x] <= k + 1
    &&& q0.no_duplicates()
    &&& forall|i: int| 0 <= i < q0.len() ==> vis.contains(#[trigger] q0[i]) && lvl[q0[i]] == k
    &&& forall|x: usize| #[trigger] vis.contains(x) && lvl[x] == k ==> q0.contains(x)
    &&& qnew.no_duplicates()
    &&& forall|i: int| 0 <= i < qnew.len() ==> vis.contains(#[trigger] qnew[i]) && lvl[qnew[i]] == k + 1
    &&& forall|x: usize| #[trigger] vis.contains(x) && lvl[x] == k + 1 ==> qnew.contains(x)
    &&& forall|u: usize, v: usize|
        #![trigger expanded(lvl, k, q0, p, u), step(g, s, src, dest, u, v)]
        vis.contains(u) && expanded(lvl, k, q0, p, u) && step(g, s, src, dest, u, v) ==> vis.contains(v) && lvl[v]
            <= lvl[u] + 1
}

/// The nodes `x`, `pred[x]`, `pred[pred[x]]`, ... (`d + 1` of them).
pub open spec fn back_chain(pred: Seq<Option<usize>>, x: usize, d: nat) -> Seq<usize>
    decreases d,
{
    if d == 0 {
        seq![x]
    } else {
        seq![x] + back_chain(pred, pred[x as int]->0, (d - 1) as nat)
    }
}

proof fn lemma_back_chain(
    g: Seq<Seq<usize>>,
    s: PathSectionSettings,
    src: usize,
    dest: usize,
    root: usize,
    vis: Set<usize>,
    lvl: Map<usize, nat>,
    pred: Seq<Option<usize>>,
    x: usize,
)
    requires
        search_base(g, s, src, dest, root, vis, lvl, pred),
        vis.contains(x),
    ensures
        back_chain(pred, x, lvl[x]).len() == lvl[x] + 1,
        back_chain(pred, x, lvl[x])[0] == x,
        back_chain(pred, x, lvl[x]).last() == root,
        is_walk(g, s, src, dest, back_chain(pred, x, lvl[x]).reverse()),
    decreases lvl[x],
{
    let c = back_chain(pred, x, lvl[x]);
    if lvl[x] == 0 {
        assert(x == root);
        assert(c.reverse() =~= seq![x]);
    } else {
        let y = pred[x as int]->0;
        lemma_back_chain(g, s, src, dest, root, vis, lvl, pred, y);
        let c1 = back_chain(pred, y, lvl[y]);
        assert((lvl[x] - 1) as nat == lvl[y]);
        assert(c == seq![x] + c1);
        assert(c.reverse() =~= c1.reverse().push(x));
        let r = c.reverse();
        let r1 = c1.reverse();
        assert forall|i: int| 0 <= i < r.len() - 1 implies #[trigger] step_at(g, s, src, dest, r, i) by {
            if i < r1.len() - 1 {
                assert(step_at(g, s, src, dest, r1, i));
            } else {
                assert(r[i] == y);
                assert(r[i + 1] == x);
            }
        }
    }
}

proof fn lemma_push_contains(s: Seq<usize>, x: usize, v: usize)
    ensures
        s.push(x).contains(v) == (s.contains(v) || v == x),
{
    if s.push(x).contains(v) && v != x {
        let k = choose|k: int| 0 <= k < s.push(x).len() && s.push(x)[k] == v;
        assert(s[k] == v);
    }
    if s.contains(v) {
        let k = choose|k: int| 0 <= k < s.len() && s[k] == v;
        assert(s.push(x)[k] == v);
    }
    if v == x {
        assert(s.push(x)[s.len() as int] == v);
    }
}

// ---------------------------------------------------------------------------
// Expanding one node
// ---------------------------------------------------------------------------

/// The sets the search consults: mutual friends of the ends (when they are
/// avoided) and excluded persons.
pub open spec fn filters_ok(g: Seq<Seq<usize>>, s: PathSectionSettings, src: usize, dest: usize, mutual: Set<usize>, excl: Set<usize>) -> bool {
    &&& mutual == (if s.path_no_mutual {
        g[src as int].to_set().intersect(g[dest as int].to_set())
    } else {
        Set::<usize>::empty()
    })
    &&& excl == s.exclude_ids@.to_set()
}

/// Follows each link of `current` that the search may take to a node not yet
/// visited: records `current` as its predecessor, and either reports it when
/// the other search has visited it, or visits and queues it.
fn expand<N: AbstractNode>(
    data: &[N],
    settings: &PathSectionSettings,
    src_id: usize,
    dest_id: usize,
    mutual: &AHashSet<usize>,
    exclude_set: &AHashSet<usize>,
    current: usize,
    queue: &mut VecDeque<usize>,
    visited: &mut BitSet,
    pred: &mut Vec<Option<usize>>,
    visited_other: &BitSet,
) -> (r: Option<usize>)
    requires
        current < data@.len(),
        src_id < data@.len(),
        dest_id < data@.len(),
        links_in_range(adjacency(data@)),
        filters_ok(adjacency(data@), *settings, src_id, dest_id, set_contents(*mutual), set_contents(*exclude_set)),
        old(pred)@.len() == data@.len(),
        bits_contents(*old(visited)).finite(),
        forall|x: usize| #[trigger] bits_contents(*old(visited)).contains(x) ==> x < data@.len(),
    ensures
        final(pred)@.len() == data@.len(),
        bits_contents(*final(visited)).finite(),
        ({
            let g = adjacency(data@);
            let vis0 = bits_contents(*old(visited));
            let vis1 = bits_contents(*final(visited));
            let added = final(queue)@.subrange(old(queue)@.len() as int, final(queue)@.len() as int);
            match r {
                None => {
                    &&& final(queue)@.len() >= old(queue)@.len()
                    &&& final(queue)@.subrange(0, old(queue)@.len() as int) == old(queue)@
                    &&& added.no_duplicates()
                    &&& forall|v: usize|
                        #[trigger] added.contains(v) <==> (step(g, *settings, src_id, dest_id, current, v) && !vis0.contains(v))
                    &&& forall|v: usize|
                        #[trigger] vis1.contains(v) <==> (vis0.contains(v) || step(g, *settings, src_id, dest_id, current, v))
                    &&& forall|v: usize| #[trigger] added.contains(v) ==> !bits_contents(*visited_other).contains(v)
                    &&& forall|x: int|
                        0 <= x < data@.len() ==> #[trigger] final(pred)@[x] == (if added.contains(x as usize) {
                            Some(current)
                        } else {
                            old(pred)@[x]
                        })
                },
                Some(nb) => {
                    &&& step(g, *settings, src_id, dest_id, current, nb)
                    &&& !vis0.contains(nb)
                    &&& bits_contents(*visited_other).contains(nb)
                    &&& final(pred)@[nb as int] == Some(current)
                    &&& forall|x: usize| #[trigger] vis0.contains(x) ==> final(pred)@[x as int] == old(pred)@[x as int]
                },
            }
        }),
{
    let ghost g = adjacency(data@);
    let ghost vis0 = bits_contents(*visited);
    let ghost q0 = queue@;
    let ghost pred0 = pred@;
    assert(pred0 == old(pred)@);
    let n = data.len();
    let person = &data[current];
    let nbs = person.neighbors();
    proof {
        assert(g[current as int] == nbs@);
    }
    let mut i: usize = 0;
    while i < nbs.len()
        invariant
            g == adjacency(data@),
            g[current as int] == nbs@,
            current < data@.len(),
            src_id < data@.len(),
            dest_id < data@.len(),
            links_in_range(g),
            filters_ok(g, *settings, src_id, dest_id, set_contents(*mutual), set_contents(*exclude_set)),
            i <= nbs@.len(),
            pred@.len() == data@.len(),
            bits_contents(*visited).finite(),
            forall|x: usize| #[trigger] vis0.contains(x) ==> x < data@.len(),
            data@.len() <= usize::MAX,
            vis0 == bits_contents(*old(visited)),
            pred0 == old(pred)@,
            pred0.len() == data@.len(),
            queue@.len() >= q0.len(),
            queue@.subrange(0, q0.len() as int) == q0,
            queue@.subrange(q0.len() as int, queue@.len() as int).no_duplicates(),
            forall|v: usize|
                #[trigger] queue@.subrange(q0.len() as int, queue@.len() as int).contains(v) <==> (nbs@.take(i as int).contains(v)
                    && step(g, *settings, src_id, dest_id, current, v) && !vis0.contains(v)),
            forall|v: usize|
                #[trigger] bits_contents(*visited).contains(v) <==> (vis0.contains(v) || (nbs@.take(i as int).contains(v) && step(
                    g,
                    *settings,
                    src_id,
                    dest_id,
                    current,
                    v,
                ))),
            forall|v: usize|
                #[trigger] queue@.subrange(q0.len() as int, queue@.len() as int).contains(v) ==> !bits_contents(
                    *visited_other,
                ).contains(v),
            forall|x: int|
                0 <= x < data@.len() ==> #[trigger] pred@[x] == (if queue@.subrange(q0.len() as int, queue@.len() as int).contains(
                    x as usize,
                ) {
                    Some(current)
                } else {
                    pred0[x]
                }),
        decreases nbs@.len() - i,
    {
        let nb_id = nbs[i];
        let ghost added0 = queue@.subrange(q0.len() as int, queue@.len() as int);
        proof {
            assert(nbs@.take(i + 1) =~= nbs@.take(i as int).push(nb_id));
            assert(nbs@.contains(nb_id));
            assert(nb_id < data@.len()) by {
                assert(g[current as int][i as int] == nb_id);
            }
            assert(g[src_id as int].to_set().contains(nb_id) == g[src_id as int].contains(nb_id));
            assert(g[dest_id as int].to_set().contains(nb_id) == g[dest_id as int].contains(nb_id));
            assert(settings.exclude_ids@.to_set().contains(nb_id) == settings.exclude_ids@.contains(nb_id));
        }
        let direct = settings.path_no_direct && ((current == src_id && nb_id == dest_id) || (current == dest_id
            && nb_id == src_id));
        let skip = direct || (settings.path_no_mutual && set_contains(mutual, nb_id)) || set_contains(
            exclude_set,
            nb_id,
        );
        proof {
            assert(skip == !step(g, *settings, src_id, dest_id, current, nb_id));
        }
        if !skip {
            if !bits_contains(visited, nb_id) {
                let ghost p1 = pred@;
                pred.set(nb_id, Some(current));
                if bits_contains(visited_other, nb_id) {
                    proof {
                        assert(step(g, *settings, src_id, dest_id, current, nb_id));
                        assert(!vis0.contains(nb_id));
                        assert(pred@[nb_id as int] == Some(current));
                        assert forall|x: usize| #[trigger] vis0.contains(x) implies pred@[x as int] == old(pred)@[x as int] by {
                            assert(x < data@.len());
                            assert(x != nb_id);
                            assert(!added0.contains(x));
                            assert(p1[x as int] == pred0[x as int]);
                        }
                    }
                    return Some(nb_id);
                }
                bits_insert(visited, nb_id);
                queue.push_back(nb_id);
                proof {
                    let added1 = queue@.subrange(q0.len() as int, queue@.len() as int);
                    assert(added1 =~= added0.push(nb_id));
                    assert(queue@.subrange(0, q0.len() as int) =~= q0);
                    assert(!added0.contains(nb_id));
                    assert forall|v: usize| #[trigger] added1.contains(v) <==> (nbs@.take(i + 1).contains(v) && step(
                        g,
                        *settings,
                        src_id,
                        dest_id,
                        current,
                        v,
                    ) && !vis0.contains(v)) by {
                        lemma_push_contains(added0, nb_id, v);
                        lemma_push_contains(nbs@.take(i as int), nb_id, v);
                    }
                }
            } else {
                proof {
                    assert(queue@.subrange(q0.len() as int, queue@.len() as int) == added0);
                }
            }
        }
        proof {
            assert forall|v: usize| #[trigger] bits_contents(*visited).contains(v) <==> (vis0.contains(v) || (nbs@.take(
                i + 1,
            ).contains(v) && step(g, *settings, src_id, dest_id, current, v))) by {
                lemma_push_contains(nbs@.take(i as int), nb_id, v);
            }
            assert forall|v: usize| #[trigger] queue@.subrange(q0.len() as int, queue@.len() as int).contains(v) <==> (nbs@.take(
                i + 1,
            ).contains(v) && step(g, *settings, src_id, dest_id, current, v) && !vis0.contains(v)) by {
                lemma_push_contains(nbs@.take(i as int), nb_id, v);
                lemma_push_contains(added0, nb_id, v);
            }
            assert forall|v: usize| #[trigger] queue@.subrange(q0.len() as int, queue@.len() as int).contains(v) implies !bits_contents(
                *visited_other,
            ).contains(v) by {
                lemma_push_contains(added0, nb_id, v);
            }
            assert forall|x: int| 0 <= x < data@.len() implies #[trigger] pred@[x] == (if queue@.subrange(
                q0.len() as int,
                queue@.len() as int,
            ).contains(x as usize) {
                Some(current)
            } else {
                pred0[x]
            }) by {
                lemma_push_contains(added0, nb_id, x as usize);
            }
        }
        i += 1;
    }
    proof {
        assert(nbs@.take(i as int) =~= nbs@);
    }
    None
}

// ---------------------------------------------------------------------------
// The path
// ---------------------------------------------------------------------------

/// The nodes from `x` back to the root of a search, following the recorded
/// predecessors.
fn pred_chain(
    pred: &Vec<Option<usize>>,
    x: usize,
    Ghost(lvl): Ghost<Map<usize, nat>>,
    Ghost(vis): Ghost<Set<usize>>,
    Ghost(g): Ghost<Seq<Seq<usize>>>,
    Ghost(s): Ghost<PathSectionSettings>,
    Ghost(src): Ghost<usize>,
    Ghost(dest): Ghost<usize>,
    Ghost(root): Ghost<usize>,
) -> (chain: Vec<usize>)
    requires
        search_base(g, s, src, dest, root, vis, lvl, pred@),
        vis.contains(x),
    ensures
        chain@ == back_chain(pred@, x, lvl[x]),
{
    proof {
        lemma_back_chain(g, s, src, dest, root, vis, lvl, pred@, x);
    }
    let ghost c = back_chain(pred@, x, lvl[x]);
    let mut chain: Vec<usize> = Vec::new();
    chain.push(x);
    let mut cur = x;
    proof {
        assert(chain@ + back_chain(pred@, cur, lvl[cur]).drop_first() =~= c);
    }
    while pred[cur].is_some()
        invariant
            search_base(g, s, src, dest, root, vis, lvl, pred@),
            vis.contains(cur),
            c == back_chain(pred@, x, lvl[x]),
            chain@ + back_chain(pred@, cur, lvl[cur]).drop_first() == c,
        decreases lvl[cur],
    {
        let p = pred[cur].unwrap();
        proof {
            assert(cur != root);
            assert(lvl[cur] > 0);
            let c0 = back_chain(pred@, cur, lvl[cur]);
            let c1 = back_chain(pred@, p, lvl[p]);
            assert(c0 == seq![cur] + c1);
            assert(c0.drop_first() =~= c1);
            assert(c1 =~= seq![p] + c1.drop_first()) by {
                lemma_back_chain(g, s, src, dest, root, vis, lvl, pred@, p);
            }
            assert(chain@.push(p) + c1.drop_first() =~= chain@ + c1);
        }
        chain.push(p);
        cur = p;
    }
    proof {
        assert(cur == root);
        assert(lvl[cur] == 0);
        assert(back_chain(pred@, cur, 0).drop_first() =~= Seq::<usize>::empty());
        assert(chain@ =~= c);
    }
    chain
}

/// The path from the forward search's root to `inter` and on to the backward
/// search's root, following the recorded predecessors.
fn build_path(
    pred_f: &Vec<Option<usize>>,
    pred_b: &Vec<Option<usize>>,
    inter: usize,
    Ghost(df): Ghost<nat>,
    Ghost(db): Ghost<nat>,
    Ghost(lvl_f): Ghost<Map<usize, nat>>,
    Ghost(lvl_b): Ghost<Map<usize, nat>>,
    Ghost(vis_f): Ghost<Set<usize>>,
    Ghost(vis_b): Ghost<Set<usize>>,
    Ghost(g): Ghost<Seq<Seq<usize>>>,
    Ghost(s): Ghost<PathSectionSettings>,
    Ghost(src): Ghost<usize>,
    Ghost(dest): Ghost<usize>,
) -> (path: Vec<usize>)
    requires
        search_base(g, s, src, dest, src, vis_f, lvl_f, pred_f@),
        search_base(g, s, src, dest, dest, vis_b, lvl_b, pred_b@),
        vis_f.contains(inter),
        vis_b.contains(inter),
        lvl_f[inter] == df,
        lvl_b[inter] == db,
    ensures
        path@ == route_path(back_chain(pred_f@, inter, df).reverse(), back_chain(pred_b@, inter, db).reverse()),
        is_route(
            g,
            s,
            src,
            dest,
            back_chain(pred_f@, inter, df).reverse(),
            back_chain(pred_b@, inter, db).reverse(),
        ),
        route_len(back_chain(pred_f@, inter, df).reverse(), back_chain(pred_b@, inter, db).reverse()) == df + db,
{
    proof {
        lemma_back_chain(g, s, src, dest, src, vis_f, lvl_f, pred_f@, inter);
        lemma_back_chain(g, s, src, dest, dest, vis_b, lvl_b, pred_b@, inter);
    }
    let ghost cf = back_chain(pred_f@, inter, df);
    let ghost cb = back_chain(pred_b@, inter, db);
    // The forward chain, from `inter` back to the root.
    let chain = pred_chain(pred_f, inter, Ghost(lvl_f), Ghost(vis_f), Ghost(g), Ghost(s), Ghost(src), Ghost(dest), Ghost(src));
    proof {
        assert(lvl_f[inter] == df);
    }
    // The path starts with the forward chain reversed.
    let mut path: Vec<usize> = Vec::new();
    let mut j: usize = chain.len();
    while j > 0
        invariant
            j <= chain@.len(),
            chain@ == cf,
            path@ == cf.reverse().take(chain@.len() - j),
        decreases j,
    {
        j -= 1;
        path.push(chain[j]);
        proof {
            assert(cf.reverse().take(chain@.len() - j) =~= cf.reverse().take(chain@.len() - j - 1).push(cf[j as int]));
        }
    }
    proof {
        assert(cf.reverse().take(chain@.len() as int) =~= cf.reverse());
        assert(cb.reverse().reverse() =~= cb);
    }
    // Then the backward chain from the node after `inter`.
    let mut cur = inter;
    proof {
        assert(path@ + back_chain(pred_b@, cur, lvl_b[cur]).drop_first() =~= cf.reverse() + cb.drop_first());
    }
    while pred_b[cur].is_some()
        invariant
            search_base(g, s, src, dest, dest, vis_b, lvl_b, pred_b@),
            vis_b.contains(cur),
            cf == back_chain(pred_f@, inter, df),
            cb == back_chain(pred_b@, inter, db),
            path@ + back_chain(pred_b@, cur, lvl_b[cur]).drop_first() == cf.reverse() + cb.drop_first(),
        decreases lvl_b[cur],
    {
        let p = pred_b[cur].unwrap();
        proof {
            assert(cur != dest);
            let c0 = back_chain(pred_b@, cur, lvl_b[cur]);
            let c1 = back_chain(pred_b@, p, lvl_b[p]);
            assert(c0 == seq![cur] + c1);
            assert(c0.drop_first() =~= c1);
            assert(c1 =~= seq![p] + c1.drop_first()) by {
                lemma_back_chain(g, s, src, dest, dest, vis_b, lvl_b, pred_b@, p);
            }
            assert(path@.push(p) + c1.drop_first() =~= path@ + c1);
        }
        path.push(p);
        cur = p;
    }
    proof {
        assert(cur == dest);
        assert(back_chain(pred_b@, cur, 0).drop_first() =~= Seq::<usize>::empty());
        assert(path@ =~= cf.reverse() + cb.drop_first());
        assert(cb.reverse().reverse().drop_first() =~= cb.drop_first());
        assert(cf.reverse()[0] == src);
        assert(cb.reverse()[0] == dest);
        assert(cf.reverse().last() == inter);
        assert(cb.reverse().last() == inter);
    }
    path
}


// ---------------------------------------------------------------------------
// Growing a search by one level
// ---------------------------------------------------------------------------

/// A search between levels is a search about to expand its queue.
proof fn lemma_inv_to_mid(
    g: Seq<Seq<usize>>,
    s: PathSectionSettings,
    src: usize,
    dest: usize,
    root: usize,
    vis: Set<usize>,
    lvl: Map<usize, nat>,
    pred: Seq<Option<usize>>,
    queue: Seq<usize>,
    k: nat,
)
    requires
        search_inv(g, s, src, dest, root, vis, lvl, pred, queue, k),
    ensures
        search_mid(g, s, src, dest, root, vis, lvl, pred, queue, 0, Seq::<usize>::empty(), k),
{
    assert forall|u: usize, v: usize|
        vis.contains(u) && expanded(lvl, k, queue, 0, u) && step(g, s, src, dest, u, v) implies vis.contains(v) && lvl[v]
            <= lvl[u] + 1 by {
        assert(queue.take(0) =~= Seq::<usize>::empty());
        assert(lvl[u] < k);
    }
}

/// A search that has expanded its whole level is a search between levels,
/// one level deeper.
proof fn lemma_mid_to_inv(
    g: Seq<Seq<usize>>,
    s: PathSectionSettings,
    src: usize,
    dest: usize,
    root: usize,
    vis: Set<usize>,
    lvl: Map<usize, nat>,
    pred: Seq<Option<usize>>,
    q0: Seq<usize>,
    qnew: Seq<usize>,
    k: nat,
)
    requires
        search_mid(g, s, src, dest, root, vis, lvl, pred, q0, q0.len() as int, qnew, k),
    ensures
        search_inv(g, s, src, dest, root, vis, lvl, pred, qnew, k + 1),
{
    assert(q0.take(q0.len() as int) =~= q0);
    assert forall|u: usize, v: usize|
        #![trigger lvl[u], step(g, s, src, dest, u, v)]
        vis.contains(u) && lvl[u] < k + 1 && step(g, s, src, dest, u, v) implies vis.contains(v) && lvl[v] <= lvl[u]
            + 1 by {
        assert(expanded(lvl, k, q0, q0.len() as int, u));
    }
}

/// In the middle of a level, everything shallower is expanded.
proof fn lemma_mid_closed(
    g: Seq<Seq<usize>>,
    s: PathSectionSettings,
    src: usize,
    dest: usize,
    root: usize,
    vis: Set<usize>,
    lvl: Map<usize, nat>,
    pred: Seq<Option<usize>>,
    q0: Seq<usize>,
    p: int,
    qnew: Seq<usize>,
    k: nat,
)
    requires
        search_mid(g, s, src, dest, root, vis, lvl, pred, q0, p, qnew, k),
    ensures
        closed_below(g, s, src, dest, vis, lvl, k),
{
    assert forall|u: usize, v: usize|
        #![trigger lvl[u], step(g, s, src, dest, u, v)]
        vis.contains(u) && lvl[u] < k && step(g, s, src, dest, u, v) implies vis.contains(v) && lvl[v] <= lvl[u] + 1 by {
        assert(expanded(lvl, k, q0, p, u));
    }
}

/// Expanding the next node of the level keeps the search consistent.
proof fn lemma_mid_step(
    g: Seq<Seq<usize>>,
    s: PathSectionSettings,
    src: usize,
    dest: usize,
    root: usize,
    vis: Set<usize>,
    lvl: Map<usize, nat>,
    pred: Seq<Option<usize>>,
    q0: Seq<usize>,
    p: int,
    qnew: Seq<usize>,
    k: nat,
    vis1: Set<usize>,
    lvl1: Map<usize, nat>,
    pred1: Seq<Option<usize>>,
    qnew1: Seq<usize>,
)
    requires
        search_mid(g, s, src, dest, root, vis, lvl, pred, q0, p, qnew, k),
        p < q0.len(),
        qnew1.len() >= qnew.len(),
        qnew1.subrange(0, qnew.len() as int) == qnew,
        qnew1.subrange(qnew.len() as int, qnew1.len() as int).no_duplicates(),
        forall|v: usize|
            #[trigger] qnew1.subrange(qnew.len() as int, qnew1.len() as int).contains(v) <==> (step(g, s, src, dest, q0[p], v)
                && !vis.contains(v)),
        forall|v: usize| #[trigger] vis1.contains(v) <==> (vis.contains(v) || step(g, s, src, dest, q0[p], v)),
        vis1.finite(),
        pred1.len() == g.len(),
        forall|x: int|
            0 <= x < g.len() ==> #[trigger] pred1[x] == (if qnew1.subrange(qnew.len() as int, qnew1.len() as int).contains(
                x as usize,
            ) {
                Some(q0[p])
            } else {
                pred[x]
            }),
        lvl1 == Map::new(|x: usize| vis1.contains(x), |x: usize| if vis.contains(x) { lvl[x] } else { k + 1 }),
    ensures
        search_mid(g, s, src, dest, root, vis1, lvl1, pred1, q0, p + 1, qnew1, k),
{
    let u = q0[p];
    let added = qnew1.subrange(qnew.len() as int, qnew1.len() as int);
    assert(vis1 =~= lvl1.dom());
    assert(qnew1 =~= qnew + added);
    assert(vis.contains(u) && lvl[u] == k);
    // The base facts.
    assert forall|x: usize| #[trigger] vis1.contains(x) implies x < g.len() && (lvl1[x] == 0 ==> x == root) by {}
    assert forall|x: usize| #[trigger] vis1.contains(x) && x != root implies {
        &&& pred1[x as int] is Some
        &&& vis1.contains(pred1[x as int]->0)
        &&& lvl1[pred1[x as int]->0] + 1 == lvl1[x]
        &&& step(g, s, src, dest, pred1[x as int]->0, x)
    } by {
        if vis.contains(x) {
            assert(!added.contains(x));
            assert(pred1[x as int] == pred[x as int]);
        } else {
            assert(added.contains(x));
        }
    }
    assert(pred1[root as int] == pred[root as int]) by {
        assert(!added.contains(root));
    }
    // The queued nodes.
    assert forall|i: int, j: int| 0 <= i < j < qnew1.len() implies qnew1[i] != qnew1[j] by {
        if j < qnew.len() {
        } else if i >= qnew.len() {
            assert(added[i - qnew.len()] == qnew1[i]);
            assert(added[j - qnew.len()] == qnew1[j]);
        } else {
            assert(added[j - qnew.len()] == qnew1[j]);
            assert(added.contains(qnew1[j]));
            assert(vis.contains(qnew[i]));
        }
    }
    assert forall|i: int| 0 <= i < qnew1.len() implies vis1.contains(#[trigger] qnew1[i]) && lvl1[qnew1[i]] == k + 1 by {
        if i < qnew.len() {
            assert(qnew1[i] == qnew[i]);
        } else {
            assert(added[i - qnew.len()] == qnew1[i]);
            assert(added.contains(qnew1[i]));
        }
    }
    assert forall|x: usize| #[trigger] vis1.contains(x) && lvl1[x] == k + 1 implies qnew1.contains(x) by {
        if vis.contains(x) {
            assert(qnew.contains(x));
            let i = choose|i: int| 0 <= i < qnew.len() && qnew[i] == x;
            assert(qnew1[i] == x);
        } else {
            assert(added.contains(x));
            let i = choose|i: int| 0 <= i < added.len() && added[i] == x;
            assert(qnew1[qnew.len() + i] == x);
        }
    }
    assert forall|x: usize| #[trigger] vis1.contains(x) && lvl1[x] == k implies q0.contains(x) by {
        assert(vis.contains(x));
    }
    assert forall|i: int| 0 <= i < q0.len() implies vis1.contains(#[trigger] q0[i]) && lvl1[q0[i]] == k by {
        assert(vis.contains(q0[i]));
    }
    // The expanded nodes.
    assert(q0.take(p + 1) =~= q0.take(p).push(u));
    assert forall|a: usize, b: usize|
        vis1.contains(a) && expanded(lvl1, k, q0, p + 1, a) && step(g, s, src, dest, a, b) implies vis1.contains(b) && lvl1[b]
            <= lvl1[a] + 1 by {
        lemma_push_contains(q0.take(p), u, a);
        if vis.contains(a) {
            if a == u {
                assert(vis1.contains(b));
            } else {
                assert(expanded(lvl, k, q0, p, a));
            }
        } else {
            assert(!q0.take(p).contains(a));
        }
    }
}

/// The search with the meeting node added, one level below the node that
/// reached it.
proof fn lemma_extend_base(
    g: Seq<Seq<usize>>,
    s: PathSectionSettings,
    src: usize,
    dest: usize,
    root: usize,
    vis: Set<usize>,
    lvl: Map<usize, nat>,
    pred: Seq<Option<usize>>,
    pred1: Seq<Option<usize>>,
    u: usize,
    nb: usize,
)
    requires
        search_base(g, s, src, dest, root, vis, lvl, pred),
        vis.contains(u),
        step(g, s, src, dest, u, nb),
        !vis.contains(nb),
        pred1.len() == g.len(),
        pred1[nb as int] == Some(u),
        forall|x: usize| #[trigger] vis.contains(x) ==> pred1[x as int] == pred[x as int],
    ensures
        search_base(g, s, src, dest, root, vis.insert(nb), lvl.insert(nb, lvl[u] + 1), pred1),
{
    let vis1 = vis.insert(nb);
    let lvl1 = lvl.insert(nb, lvl[u] + 1);
    assert(vis1 =~= lvl1.dom());
    assert forall|x: usize| #[trigger] vis1.contains(x) implies x < g.len() && (lvl1[x] == 0 ==> x == root) by {}
    assert forall|x: usize| #[trigger] vis1.contains(x) && x != root implies {
        &&& pred1[x as int] is Some
        &&& vis1.contains(pred1[x as int]->0)
        &&& lvl1[pred1[x as int]->0] + 1 == lvl1[x]
        &&& step(g, s, src, dest, pred1[x as int]->0, x)
    } by {
        if x != nb {
            assert(vis.contains(x));
            assert(pred1[x as int] == pred[x as int]);
            assert(pred[x as int]->0 != nb);
        }
    }
}

/// A finite set of indices below `n` has at most `n` elements.
pub proof fn lemma_len_bounded(s: Set<usize>, n: nat)
    requires
        s.finite(),
        forall|x: usize| #[trigger] s.contains(x) ==> x < n,
    ensures
        s.len() <= n,
    decreases n,
{
    if n > 0 {
        let m = (n - 1) as usize;
        let t = s.remove(m);
        lemma_len_bounded(t, (n - 1) as nat);
    } else {
        assert(s =~= Set::<usize>::empty());
    }
}

/// A strictly larger finite set has more elements.
proof fn lemma_len_grows(a: Set<usize>, b: Set<usize>, x: usize)
    requires
        b.finite(),
        a.subset_of(b),
        b.contains(x),
        !a.contains(x),
    ensures
        a.len() < b.len(),
{
    vstd::set_lib::lemma_len_subset(a, b.remove(x));
}

/// A search that has not left its root has visited only the root.
proof fn lemma_level_zero(
    g: Seq<Seq<usize>>,
    s: PathSectionSettings,
    src: usize,
    dest: usize,
    root: usize,
    vis: Set<usize>,
    lvl: Map<usize, nat>,
    pred: Seq<Option<usize>>,
    queue: Seq<usize>,
)
    requires
        search_inv(g, s, src, dest, root, vis, lvl, pred, queue, 0),
    ensures
        vis == set![root],
        vis.len() == 1,
{
    assert(vis =~= set![root]);
}


/// Expands every queued node of one search, level `k`, and queues the nodes
/// found at level `k + 1`; stops at the first node that the other search has
/// visited. Also hands back the search's visited nodes and their depths as
/// they stand at the end (for a meeting, without the meeting node).
fn grow_level<N: AbstractNode>(
    data: &[N],
    settings: &PathSectionSettings,
    src_id: usize,
    dest_id: usize,
    mutual: &AHashSet<usize>,
    exclude_set: &AHashSet<usize>,
    queue: &mut VecDeque<usize>,
    visited: &mut BitSet,
    pred: &mut Vec<Option<usize>>,
    visited_other: &BitSet,
    Ghost(root): Ghost<usize>,
    Ghost(lvl): Ghost<Map<usize, nat>>,
    Ghost(k): Ghost<nat>,
) -> (r: (Option<usize>, Ghost<Set<usize>>, Ghost<Map<usize, nat>>))
    requires
        src_id < data@.len(),
        dest_id < data@.len(),
        links_in_range(adjacency(data@)),
        filters_ok(adjacency(data@), *settings, src_id, dest_id, set_contents(*mutual), set_contents(*exclude_set)),
        search_inv(
            adjacency(data@),
            *settings,
            src_id,
            dest_id,
            root,
            bits_contents(*old(visited)),
            lvl,
            old(pred)@,
            old(queue)@,
            k,
        ),
    ensures
        ({
            let g = adjacency(data@);
            let vis0 = bits_contents(*old(visited));
            let other = bits_contents(*visited_other);
            let vis1 = r.1@;
            let lvl1 = r.2@;
            &&& vis0.subset_of(vis1)
            &&& forall|x: usize| #[trigger] vis1.contains(x) && !vis0.contains(x) ==> !other.contains(x)
            &&& forall|x: usize| #[trigger] vis0.contains(x) ==> lvl1[x] == lvl[x]
            &&& match r.0 {
                None => {
                    &&& vis1 == bits_contents(*final(visited))
                    &&& search_inv(g, *settings, src_id, dest_id, root, vis1, lvl1, final(pred)@, final(queue)@, k + 1)
                },
                Some(inter) => {
                    &&& !vis1.contains(inter)
                    &&& other.contains(inter)
                    &&& closed_below(g, *settings, src_id, dest_id, vis1, lvl1, k)
                    &&& search_base(
                        g,
                        *settings,
                        src_id,
                        dest_id,
                        root,
                        vis1.insert(inter),
                        lvl1.insert(inter, k + 1),
                        final(pred)@,
                    )
                },
            }
        }),
{
    let ghost g = adjacency(data@);
    let ghost q0 = queue@;
    let ghost vis0 = bits_contents(*visited);
    let ghost other = bits_contents(*visited_other);
    let ghost mut lvl_c = lvl;
    let ghost mut p: int = 0;
    let mut queue_new: VecDeque<usize> = VecDeque::new();
    proof {
        lemma_inv_to_mid(g, *settings, src_id, dest_id, root, vis0, lvl, pred@, q0, k);
        assert(q0.skip(0) =~= q0);
    }
    while queue.len() > 0
        invariant
            g == adjacency(data@),
            src_id < data@.len(),
            dest_id < data@.len(),
            links_in_range(g),
            filters_ok(g, *settings, src_id, dest_id, set_contents(*mutual), set_contents(*exclude_set)),
            other == bits_contents(*visited_other),
            vis0 == bits_contents(*old(visited)),
            search_mid(g, *settings, src_id, dest_id, root, bits_contents(*visited), lvl_c, pred@, q0, p, queue_new@, k),
            queue@ == q0.skip(p),
            vis0.subset_of(bits_contents(*visited)),
            forall|x: usize| #[trigger] bits_contents(*visited).contains(x) && !vis0.contains(x) ==> !other.contains(x),
            forall|x: usize| #[trigger] vis0.contains(x) ==> lvl_c[x] == lvl[x],
        decreases queue@.len(),
    {
        let id = queue.pop_front().unwrap();
        let ghost vis_b = bits_contents(*visited);
        let ghost pred_b = pred@;
        let ghost qn_b = queue_new@;
        proof {
            assert(id == q0[p]);
            assert(queue@ =~= q0.skip(p + 1));
            assert(vis_b.contains(id));
        }
        let found = expand(
            data,
            settings,
            src_id,
            dest_id,
            mutual,
            exclude_set,
            id,
            &mut queue_new,
            visited,
            pred,
            visited_other,
        );
        match found {
            Some(inter) => {
                proof {
                    lemma_mid_closed(g, *settings, src_id, dest_id, root, vis_b, lvl_c, pred_b, q0, p, qn_b, k);
                    lemma_extend_base(g, *settings, src_id, dest_id, root, vis_b, lvl_c, pred_b, pred@, id, inter);
                }
                return (Some(inter), Ghost(vis_b), Ghost(lvl_c));
            },
            None => {
                let ghost vis_n = bits_contents(*visited);
                let ghost lvl_n = Map::new(
                    |x: usize| vis_n.contains(x),
                    |x: usize|
                        if vis_b.contains(x) {
                            lvl_c[x]
                        } else {
                            k + 1
                        },
                );
                proof {
                    lemma_mid_step(
                        g,
                        *settings,
                        src_id,
                        dest_id,
                        root,
                        vis_b,
                        lvl_c,
                        pred_b,
                        q0,
                        p,
                        qn_b,
                        k,
                        vis_n,
                        lvl_n,
                        pred@,
                        queue_new@,
                    );
                    assert forall|x: usize| #[trigger] vis_n.contains(x) && !vis0.contains(x) implies !other.contains(x) by {
                        if !vis_b.contains(x) {
                            assert(queue_new@.subrange(qn_b.len() as int, queue_new@.len() as int).contains(x));
                        }
                    }
                    lvl_c = lvl_n;
                    p = p + 1;
                }
            },
        }
    }
    proof {
        assert(p == q0.len());
        lemma_mid_to_inv(g, *settings, src_id, dest_id, root, bits_contents(*visited), lvl_c, pred@, q0, queue_new@, k);
    }
    *queue = queue_new;
    (None, Ghost(bits_contents(*visited)), Ghost(lvl_c))
}


// ---------------------------------------------------------------------------
// Why the answer is right
// ---------------------------------------------------------------------------

/// With the forward search past its root and short of `dest`, the ends have
/// no link that the forward search may take, and a link that only the
/// backward search may take is the excluded input.
proof fn lemma_direct_link(
    g: Seq<Seq<usize>>,
    s: PathSectionSettings,
    src: usize,
    dest: usize,
    vis_f: Set<usize>,
    lvl_f: Map<usize, nat>,
    kf: nat,
)
    requires
        symmetric(g),
        closed_below(g, s, src, dest, vis_f, lvl_f, kf),
        kf >= 1,
        vis_f.contains(src),
        lvl_f[src] == 0,
        !vis_f.contains(dest),
    ensures
        !step(g, s, src, dest, src, dest),
        step(g, s, src, dest, dest, src) ==> direct_link_backward_only(g, s, src, dest),
{
    if step(g, s, src, dest, src, dest) {
        assert(lvl_f[src] < kf);
    }
    if step(g, s, src, dest, dest, src) {
        let k = choose|k: int| 0 <= k < g[dest as int].len() && g[dest as int][k] == src;
        assert(g[dest as int][k] < g.len() && g[g[dest as int][k] as int].contains(dest));
    }
}

/// When one search has nothing left to expand, no route joins the ends.
proof fn lemma_no_route(
    g: Seq<Seq<usize>>,
    s: PathSectionSettings,
    src: usize,
    dest: usize,
    vis_f: Set<usize>,
    lvl_f: Map<usize, nat>,
    pred_f: Seq<Option<usize>>,
    q_f: Seq<usize>,
    kf: nat,
    vis_b: Set<usize>,
    lvl_b: Map<usize, nat>,
    pred_b: Seq<Option<usize>>,
    q_b: Seq<usize>,
    kb: nat,
)
    requires
        search_inv(g, s, src, dest, src, vis_f, lvl_f, pred_f, q_f, kf),
        search_inv(g, s, src, dest, dest, vis_b, lvl_b, pred_b, q_b, kb),
        vis_f.disjoint(vis_b),
        kf == 0 ==> kb == 0,
        kb == 0 ==> kf <= 1,
        q_f.len() == 0 || q_b.len() == 0,
        symmetric(g),
        !direct_link_backward_only(g, s, src, dest),
    ensures
        !has_route(g, s, src, dest),
{
    if has_route(g, s, src, dest) {
        let (fw, bw) = choose|fw: Seq<usize>, bw: Seq<usize>| #[trigger] is_route(g, s, src, dest, fw, bw);
        if q_f.len() == 0 {
            if kf == 0 {
                assert(q_f.contains(src));
            }
            assert forall|x: usize| #[trigger] vis_f.contains(x) implies lvl_f[x] < kf by {
                if lvl_f[x] == kf {
                    assert(q_f.contains(x));
                }
            }
            lemma_walk_in_closed(g, s, src, dest, vis_f, lvl_f, kf, fw);
            if bw.len() == 1 {
                assert(vis_b.contains(dest));
            } else {
                lemma_walk_rev_suffix(g, s, src, dest, bw, 1);
                let r = bw.subrange(1, bw.len() as int).reverse();
                lemma_walk_concat(g, s, src, dest, fw, r);
                lemma_walk_in_closed(g, s, src, dest, vis_f, lvl_f, kf, fw + r.drop_first());
                let b1 = bw[1];
                assert(vis_f.contains(b1));
                assert(step_at(g, s, src, dest, bw, 0));
                assert(step(g, s, src, dest, dest, b1));
                if kb >= 1 {
                    assert(lvl_b[dest] < kb);
                    assert(vis_b.contains(b1));
                } else {
                    assert(lvl_f[b1] == 0);
                    assert(b1 == src);
                    lemma_direct_link(g, s, src, dest, vis_f, lvl_f, kf);
                }
            }
        } else {
            if kb == 0 {
                assert(q_b.contains(dest));
            }
            assert forall|x: usize| #[trigger] vis_b.contains(x) implies lvl_b[x] < kb by {
                if lvl_b[x] == kb {
                    assert(q_b.contains(x));
                }
            }
            lemma_walk_in_closed(g, s, src, dest, vis_b, lvl_b, kb, bw);
            if fw.len() == 1 {
                assert(vis_f.contains(src));
            } else {
                lemma_walk_rev_suffix(g, s, src, dest, fw, 1);
                let r = fw.subrange(1, fw.len() as int).reverse();
                lemma_walk_concat(g, s, src, dest, bw, r);
                lemma_walk_in_closed(g, s, src, dest, vis_b, lvl_b, kb, bw + r.drop_first());
                let f1 = fw[1];
                assert(vis_b.contains(f1));
                assert(step_at(g, s, src, dest, fw, 0));
                assert(step(g, s, src, dest, src, f1));
                assert(lvl_f[src] < kf);
                assert(vis_f.contains(f1));
            }
        }
    }
}

/// A meeting found by the forward search, expanding level `kf`, gives a
/// shortest route.
proof fn lemma_found_forward(
    g: Seq<Seq<usize>>,
    s: PathSectionSettings,
    src: usize,
    dest: usize,
    vis_f: Set<usize>,
    lvl_f: Map<usize, nat>,
    kf: nat,
    vis_b: Set<usize>,
    lvl_b: Map<usize, nat>,
    pred_b: Seq<Option<usize>>,
    q_b: Seq<usize>,
    kb: nat,
    inter: usize,
)
    requires
        closed_below(g, s, src, dest, vis_f, lvl_f, kf),
        vis_f.contains(src),
        lvl_f[src] == 0,
        search_inv(g, s, src, dest, dest, vis_b, lvl_b, pred_b, q_b, kb),
        vis_f.disjoint(vis_b),
        vis_b.contains(inter),
        kf == 0 ==> kb == 0,
        kb == 0 ==> kf == 0,
        symmetric(g),
        src != dest,
    ensures
        forall|fw: Seq<usize>, bw: Seq<usize>|
            #[trigger] is_route(g, s, src, dest, fw, bw) ==> route_len(fw, bw) >= kf + 1 + lvl_b[inter],
{
    assert forall|fw: Seq<usize>, bw: Seq<usize>| #[trigger] is_route(g, s, src, dest, fw, bw) implies route_len(fw, bw)
        >= kf + 1 + lvl_b[inter] by {
        if kf >= 1 {
            lemma_route_bound(g, s, src, dest, fw, bw, kf, kb, vis_f, lvl_f, vis_b, lvl_b);
        } else {
            assert(lvl_b[inter] == 0);
            lemma_route_len_pos(g, s, src, dest, fw, bw);
        }
    }
}

/// A meeting found by the backward search, expanding level `kb`, gives a
/// shortest route, but for the excluded input.
proof fn lemma_found_backward(
    g: Seq<Seq<usize>>,
    s: PathSectionSettings,
    src: usize,
    dest: usize,
    vis_f: Set<usize>,
    lvl_f: Map<usize, nat>,
    pred_f: Seq<Option<usize>>,
    q_f: Seq<usize>,
    kf: nat,
    vis_b: Set<usize>,
    lvl_b: Map<usize, nat>,
    kb: nat,
    inter: usize,
)
    requires
        search_inv(g, s, src, dest, src, vis_f, lvl_f, pred_f, q_f, kf),
        closed_below(g, s, src, dest, vis_b, lvl_b, kb),
        vis_b.contains(dest),
        lvl_b[dest] == 0,
        vis_f.disjoint(vis_b),
        vis_f.contains(inter),
        kf >= 1,
        kb == 0 ==> kf <= 1,
        symmetric(g),
        src != dest,
        !direct_link_backward_only(g, s, src, dest),
    ensures
        forall|fw: Seq<usize>, bw: Seq<usize>|
            #[trigger] is_route(g, s, src, dest, fw, bw) ==> route_len(fw, bw) >= lvl_f[inter] + kb + 1,
{
    assert forall|fw: Seq<usize>, bw: Seq<usize>| #[trigger] is_route(g, s, src, dest, fw, bw) implies route_len(fw, bw)
        >= lvl_f[inter] + kb + 1 by {
        lemma_route_len_pos(g, s, src, dest, fw, bw);
        if kb >= 1 {
            lemma_route_bound(g, s, src, dest, fw, bw, kf, kb, vis_f, lvl_f, vis_b, lvl_b);
        } else if lvl_f[inter] == 1 && route_len(fw, bw) == 1 {
            lemma_route_len_one(g, s, src, dest, fw, bw);
            lemma_direct_link(g, s, src, dest, vis_f, lvl_f, kf);
        }
    }
}


// ---------------------------------------------------------------------------
// The search
// ---------------------------------------------------------------------------

/// What the search answers. A path it returns runs along a route from `src`
/// to `dest`. Where the ends differ, every link is listed at both ends and the
/// input is not the excluded one, it answers exactly when a route exists, and
/// with a shortest one.
pub open spec fn pathfinding_result(
    g: Seq<Seq<usize>>,
    s: PathSectionSettings,
    src: usize,
    dest: usize,
    r: Option<PathSectionResults>,
) -> bool {
    &&& r is Some ==> exists|fw: Seq<usize>, bw: Seq<usize>|
        #[trigger] is_route(g, s, src, dest, fw, bw) && r->0.path@ == route_path(fw, bw)
    &&& (src != dest && symmetric(g) && !direct_link_backward_only(g, s, src, dest)) ==> {
        &&& (r is Some <==> has_route(g, s, src, dest))
        &&& r is Some ==> forall|fw: Seq<usize>, bw: Seq<usize>|
            #[trigger] is_route(g, s, src, dest, fw, bw) ==> r->0.path@.len() <= route_len(fw, bw) + 1
    }
}

/// Finds a shortest path between `settings.path_src` and
/// `settings.path_dest` by a bidirectional breadth-first search, growing one
/// whole level of the side that has visited fewer nodes at a time.
pub fn do_pathfinding<N: AbstractNode>(settings: PathSectionSettings, data: &[N]) -> (r: Option<PathSectionResults>)
    requires
        settings.path_src is Some,
        settings.path_dest is Some,
        settings.path_src->0 < data@.len(),
        settings.path_dest->0 < data@.len(),
        links_in_range(adjacency(data@)),
    ensures
        pathfinding_result(adjacency(data@), settings, settings.path_src->0, settings.path_dest->0, r),
{
    let ghost g = adjacency(data@);
    let src_id = settings.path_src.unwrap();
    let dest_id = settings.path_dest.unwrap();
    let n = data.len();
    let mutual = if settings.path_no_mutual {
        let a = set_from_slice(data[src_id].neighbors());
        let b = set_from_slice(data[dest_id].neighbors());
        set_intersection(&a, &b)
    } else {
        set_new()
    };
    let exclude_set = set_from_slice(settings.exclude_ids.as_slice());
    proof {
        assert(g[src_id as int] == data@[src_id as int].neighbors_view());
        assert(g[dest_id as int] == data@[dest_id as int].neighbors_view());
    }
    let mut queue_f: VecDeque<usize> = VecDeque::new();
    let mut queue_b: VecDeque<usize> = VecDeque::new();
    let mut visited_f = bits_with_capacity(n);
    let mut visited_b = bits_with_capacity(n);
    let mut pred_f: Vec<Option<usize>> = Vec::new();
    let mut pred_b: Vec<Option<usize>> = Vec::new();
    let mut i: usize = 0;
    while i < n
        invariant
            i <= n,
            pred_f@.len() == i,
            pred_b@.len() == i,
            forall|j: int| 0 <= j < i ==> #[trigger] pred_f@[j] is None,
            forall|j: int| 0 <= j < i ==> #[trigger] pred_b@[j] is None,
        decreases n - i,
    {
        pred_f.push(None);
        pred_b.push(None);
        i += 1;
    }
    bits_insert(&mut visited_f, src_id);
    bits_insert(&mut visited_b, dest_id);
    queue_f.push_back(src_id);
    queue_b.push_back(dest_id);
    let ghost mut lvl_f: Map<usize, nat> = map![src_id => 0nat];
    let ghost mut lvl_b: Map<usize, nat> = map![dest_id => 0nat];
    let ghost mut kf: nat = 0;
    let ghost mut kb: nat = 0;
    proof {
        assert(bits_contents(visited_f) =~= set![src_id]);
        assert(bits_contents(visited_b) =~= set![dest_id]);
        assert(bits_contents(visited_f) =~= lvl_f.dom());
        assert(bits_contents(visited_b) =~= lvl_b.dom());
        assert(queue_f@ =~= seq![src_id]);
        assert(queue_b@ =~= seq![dest_id]);
        assert(queue_f@.contains(src_id) && queue_b@.contains(dest_id)) by {
            assert(queue_f@[0] == src_id);
            assert(queue_b@[0] == dest_id);
        }
    }
    loop
        invariant
            g == adjacency(data@),
            n == data@.len(),
            src_id == settings.path_src->0,
            dest_id == settings.path_dest->0,
            src_id < n,
            dest_id < n,
            links_in_range(g),
            filters_ok(g, settings, src_id, dest_id, set_contents(mutual), set_contents(exclude_set)),
            search_inv(g, settings, src_id, dest_id, src_id, bits_contents(visited_f), lvl_f, pred_f@, queue_f@, kf),
            search_inv(g, settings, src_id, dest_id, dest_id, bits_contents(visited_b), lvl_b, pred_b@, queue_b@, kb),
            src_id != dest_id ==> bits_contents(visited_f).disjoint(bits_contents(visited_b)),
            kf == 0 ==> kb == 0,
            kb == 0 ==> kf <= 1,
        decreases 2 * (2 * n - bits_contents(visited_f).len() - bits_contents(visited_b).len()) + (if queue_f@.len() > 0
            && queue_b@.len() > 0 {
            1int
        } else {
            0int
        }),
    {
        let ghost vis_f0 = bits_contents(visited_f);
        let ghost vis_b0 = bits_contents(visited_b);
        proof {
            lemma_len_bounded(vis_f0, n as nat);
            lemma_len_bounded(vis_b0, n as nat);
        }
        if queue_b.len() == 0 || queue_f.len() == 0 {
            proof {
                if src_id != dest_id && symmetric(g) && !direct_link_backward_only(g, settings, src_id, dest_id) {
                    lemma_no_route(
                        g,
                        settings,
                        src_id,
                        dest_id,
                        vis_f0,
                        lvl_f,
                        pred_f@,
                        queue_f@,
                        kf,
                        vis_b0,
                        lvl_b,
                        pred_b@,
                        queue_b@,
                        kb,
                    );
                }
            }
            return None;
        }
        if bits_len(&visited_b) < bits_len(&visited_f) {
            proof {
                if kf == 0 {
                    lemma_level_zero(g, settings, src_id, dest_id, src_id, vis_f0, lvl_f, pred_f@, queue_f@);
                    vstd::set_lib::lemma_len_subset(set![dest_id], vis_b0);
                }
            }
            let (found, Ghost(vis1), Ghost(lvl1)) = grow_level(
                data,
                &settings,
                src_id,
                dest_id,
                &mutual,
                &exclude_set,
                &mut queue_b,
                &mut visited_b,
                &mut pred_b,
                &visited_f,
                Ghost(dest_id),
                Ghost(lvl_b),
                Ghost(kb),
            );
            match found {
                Some(inter) => {
                    let ghost df = lvl_f[inter];
                    let path = build_path(
                        &pred_f,
                        &pred_b,
                        inter,
                        Ghost(df),
                        Ghost(kb + 1),
                        Ghost(lvl_f),
                        Ghost(lvl1.insert(inter, kb + 1)),
                        Ghost(vis_f0),
                        Ghost(vis1.insert(inter)),
                        Ghost(g),
                        Ghost(settings),
                        Ghost(src_id),
                        Ghost(dest_id),
                    );
                    proof {
                        if src_id != dest_id && symmetric(g) && !direct_link_backward_only(g, settings, src_id, dest_id) {
                            lemma_found_backward(
                                g,
                                settings,
                                src_id,
                                dest_id,
                                vis_f0,
                                lvl_f,
                                pred_f@,
                                queue_f@,
                                kf,
                                vis1,
                                lvl1,
                                kb,
                                inter,
                            );
                        }
                    }
                    return Some(PathSectionResults { path });
                },
                None => {
                    proof {
                        vstd::set_lib::lemma_len_subset(vis_b0, vis1);
                        lemma_len_bounded(vis1, n as nat);
                        if queue_b@.len() > 0 {
                            lemma_len_grows(vis_b0, vis1, queue_b@[0]);
                        }
                        lvl_b = lvl1;
                        kb = kb + 1;
                    }
                },
            }
        } else {
            proof {
                if kb == 0 && kf >= 1 {
                    lemma_level_zero(g, settings, src_id, dest_id, dest_id, vis_b0, lvl_b, pred_b@, queue_b@);
                    let q0 = queue_f@[0];
                    assert(q0 != src_id);
                    vstd::set_lib::lemma_len_subset(set![src_id, q0], vis_f0);
                    assert(set![src_id, q0].len() == 2) by {
                        assert(set![src_id, q0] =~= set![src_id].insert(q0));
                    }
                }
            }
            let (found, Ghost(vis1), Ghost(lvl1)) = grow_level(
                data,
                &settings,
                src_id,
                dest_id,
                &mutual,
                &exclude_set,
                &mut queue_f,
                &mut visited_f,
                &mut pred_f,
                &visited_b,
                Ghost(src_id),
                Ghost(lvl_f),
                Ghost(kf),
            );
            match found {
                Some(inter) => {
                    let ghost db = lvl_b[inter];
                    let path = build_path(
                        &pred_f,
                        &pred_b,
                        inter,
                        Ghost(kf + 1),
                        Ghost(db),
                        Ghost(lvl1.insert(inter, kf + 1)),
                        Ghost(lvl_b),
                        Ghost(vis1.insert(inter)),
                        Ghost(vis_b0),
                        Ghost(g),
                        Ghost(settings),
                        Ghost(src_id),
                        Ghost(dest_id),
                    );
                    proof {
                        if src_id != dest_id && symmetric(g) && !direct_link_backward_only(g, settings, src_id, dest_id) {
                            lemma_found_forward(
                                g,
                                settings,
                                src_id,
                                dest_id,
                                vis1,
                                lvl1,
                                kf,
                                vis_b0,
                                lvl_b,
                                pred_b@,
                                queue_b@,
                                kb,
                                inter,
                            );
                        }
                    }
                    return Some(PathSectionResults { path });
                },
                None => {
                    proof {
                        vstd::set_lib::lemma_len_subset(vis_f0, vis1);
                        lemma_len_bounded(vis1, n as nat);
                        if queue_f@.len() > 0 {
                            lemma_len_grows(vis_f0, vis1, queue_f@[0]);
                        }
                        lvl_f = lvl1;
                        kf = kf + 1;
                    }
                },
            }
        }
    }
}

/// A walk of the search from `src` that ends at `dest`.
pub open spec fn walk_between(g: Seq<Seq<usize>>, s: PathSectionSettings, src: usize, dest: usize, w: Seq<usize>) -> bool {
    &&& is_walk(g, s, src, dest, w)
    &&& w[0] == src
    &&& w.last() == dest
}

/// What the one-way search answers: a path listed from `dest` back to `src`
/// along a shortest walk between them when the ends differ and a walk
/// exists, nothing otherwise.
pub open spec fn one_way_result(g: Seq<Seq<usize>>, s: PathSectionSettings, src: usize, dest: usize, r: Option<PathSectionResults>) -> bool {
    &&& src == dest ==> r is None
    &&& src != dest ==> (r is Some <==> exists|w: Seq<usize>| #[trigger] walk_between(g, s, src, dest, w))
    &&& r matches Some(res) ==> {
        &&& walk_between(g, s, src, dest, res.path@.reverse())
        &&& forall|w: Seq<usize>| #[trigger] walk_between(g, s, src, dest, w) ==> res.path@.len() <= w.len()
    }
}

impl PathSection {
    /// Finds a shortest path from `settings.path_src` to
    /// `settings.path_dest` by a breadth-first search from the source alone,
    /// with the same rules as `do_pathfinding`; the path is listed from the
    /// destination back to the source.
    pub fn do_pathfinding<N: AbstractNode>(settings: PathSectionSettings, data: &[N]) -> (r: Option<PathSectionResults>)
        requires
            settings.path_src is Some,
            settings.path_dest is Some,
            settings.path_src->0 < data@.len(),
            settings.path_dest->0 < data@.len(),
            links_in_range(adjacency(data@)),
        ensures
            one_way_result(adjacency(data@), settings, settings.path_src->0, settings.path_dest->0, r),
    {
        let ghost g = adjacency(data@);
        let src_id = settings.path_src.unwrap();
        let dest_id = settings.path_dest.unwrap();
        let n = data.len();
        let mutual = if settings.path_no_mutual {
            let a = set_from_slice(data[src_id].neighbors());
            let b = set_from_slice(data[dest_id].neighbors());
            set_intersection(&a, &b)
        } else {
            set_new()
        };
        let exclude_set = set_from_slice(settings.exclude_ids.as_slice());
        proof {
            assert(g[src_id as int] == data@[src_id as int].neighbors_view());
            assert(g[dest_id as int] == data@[dest_id as int].neighbors_view());
        }
        let mut queue: VecDeque<usize> = VecDeque::new();
        let mut visited = bits_with_capacity(n);
        let mut target = bits_with_capacity(n);
        let mut pred: Vec<Option<usize>> = Vec::new();
        let mut i: usize = 0;
        while i < n
            invariant
                i <= n,
                pred@.len() == i,
                forall|j: int| 0 <= j < i ==> #[trigger] pred@[j] is None,
            decreases n - i,
        {
            pred.push(None);
            i += 1;
        }
        bits_insert(&mut visited, src_id);
        bits_insert(&mut target, dest_id);
        queue.push_back(src_id);
        let ghost mut lvl: Map<usize, nat> = map![src_id => 0nat];
        let ghost mut k: nat = 0;
        proof {
            assert(bits_contents(visited) =~= set![src_id]);
            assert(bits_contents(target) =~= set![dest_id]);
            assert(bits_contents(visited) =~= lvl.dom());
            assert(queue@ =~= seq![src_id]);
            assert(queue@.contains(src_id)) by {
                assert(queue@[0] == src_id);
            }
        }
        loop
            invariant
                g == adjacency(data@),
                n == data@.len(),
                src_id == settings.path_src->0,
                dest_id == settings.path_dest->0,
                src_id < n,
                dest_id < n,
                links_in_range(g),
                filters_ok(g, settings, src_id, dest_id, set_contents(mutual), set_contents(exclude_set)),
                search_inv(g, settings, src_id, dest_id, src_id, bits_contents(visited), lvl, pred@, queue@, k),
                bits_contents(target) == set![dest_id],
                src_id != dest_id ==> !bits_contents(visited).contains(dest_id),
            decreases 2 * (n - bits_contents(visited).len()) + (if queue@.len() > 0 {
                1int
            } else {
                0int
            }),
        {
            let ghost vis0 = bits_contents(visited);
            proof {
                lemma_len_bounded(vis0, n as nat);
            }
            if queue.len() == 0 {
                proof {
                    assert forall|w: Seq<usize>| #[trigger] walk_between(g, settings, src_id, dest_id, w) implies src_id
                        == dest_id by {
                        assert forall|x: usize| vis0.contains(x) implies #[trigger] lvl[x] < k by {
                            if lvl[x] == k {
                                assert(queue@.contains(x));
                            }
                        }
                        lemma_walk_in_closed(g, settings, src_id, dest_id, vis0, lvl, k, w);
                    }
                }
                return None;
            }
            let (found, Ghost(vis1), Ghost(lvl1)) = grow_level(
                data,
                &settings,
                src_id,
                dest_id,
                &mutual,
                &exclude_set,
                &mut queue,
                &mut visited,
                &mut pred,
                &target,
                Ghost(src_id),
                Ghost(lvl),
                Ghost(k),
            );
            match found {
                Some(inter) => {
                    proof {
                        assert(inter == dest_id);
                        assert(src_id != dest_id);
                    }
                    let path = pred_chain(
                        &pred,
                        inter,
                        Ghost(lvl1.insert(inter, k + 1)),
                        Ghost(vis1.insert(inter)),
                        Ghost(g),
                        Ghost(settings),
                        Ghost(src_id),
                        Ghost(dest_id),
                        Ghost(src_id),
                    );
                    proof {
                        let lv = lvl1.insert(inter, k + 1);
                        let vs = vis1.insert(inter);
                        lemma_back_chain(g, settings, src_id, dest_id, src_id, vs, lv, pred@, inter);
                        let c = back_chain(pred@, inter, lv[inter]);
                        assert(c.reverse()[0] == c.last());
                        assert(c.reverse().last() == c[0]);
                        assert(walk_between(g, settings, src_id, dest_id, c.reverse()));
                        assert forall|w: Seq<usize>| #[trigger] walk_between(g, settings, src_id, dest_id, w) implies path@.len()
                            <= w.len() by {
                            if w.len() - 1 <= k {
                                assert(vis0.contains(src_id));
                                lemma_walk_in_vis(g, settings, src_id, dest_id, src_id, vis1, lvl1, k, w);
                            }
                        }
                    }
                    return Some(PathSectionResults { path });
                },
                None => {
                    proof {
                        vstd::set_lib::lemma_len_subset(vis0, vis1);
                        lemma_len_bounded(vis1, n as nat);
                        if queue@.len() > 0 {
                            lemma_len_grows(vis0, vis1, queue@[0]);
                        }
                        lvl = lvl1;
                        k = k + 1;
                    }
                },
            }
        }
    }
}

} // verus!
