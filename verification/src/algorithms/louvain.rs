//! Louvain community detection (after ledyba/cpp-louvain-fast).
//!
//! Each level groups the nodes of a graph into communities; the communities of
//! one level are the nodes of the next. The persons a community stands for are
//! kept in its payload.
use vstd::prelude::*;
use vstd::multiset::Multiset;
use crate::algorithms::AbstractNode;
use crate::third_party::{map_contents, map_entries, map_get, map_insert, map_new, shuffle};
use crate::sums::{sum_of, msum_of, lemma_sum_push, lemma_sum_nonneg, lemma_sum_update, lemma_msum_push, lemma_msum_update, lemma_sum_nonneg_bounds_term};

verus! {

/// Upper bound on the number of links of a graph. Every link is a `usize` in
/// some neighbour list, so a graph that fits in memory stays below it.
pub open spec fn link_bound() -> int {
    if usize::MAX < 0x2000_0000_0000_0000 {
        usize::MAX as int
    } else {
        0x2000_0000_0000_0000
    }
}

#[derive(Copy, Clone, Default)]
pub struct PersonId(pub usize);

#[derive(Copy, Clone)]
pub struct CommunityId(pub usize);

/// A weighted link to another community of the same level.
pub struct Edge {
    other: CommunityId,
    weight: usize,
}

pub struct Community {
    pub payload: Option<Vec<PersonId>>,
    pub children: Vec<CommunityId>,
    neighbors: Vec<Edge>,
    degree: usize,
    parent: Option<usize>,
    self_loops: usize,
}

pub struct Graph {
    pub nodes: Vec<Community>,
    pub total_links: usize,
}

pub closed spec fn edge_weight(e: Edge) -> int {
    e.weight as int
}

impl Community {
    /// The links of the community as `(other, weight)` pairs, in list order.
    pub closed spec fn edges_view(self) -> Seq<(usize, usize)> {
        self.neighbors@.map_values(|e: Edge| (e.other.0, e.weight))
    }

    pub closed spec fn degree_view(self) -> usize {
        self.degree
    }

    pub closed spec fn self_loops_view(self) -> usize {
        self.self_loops
    }

    pub closed spec fn parent_view(self) -> Option<usize> {
        self.parent
    }

    /// The persons of the community (empty when there is no payload).
    pub closed spec fn persons(self) -> Seq<PersonId> {
        match self.payload {
            Some(p) => p@,
            None => Seq::empty(),
        }
    }

    pub closed spec fn has_payload(self) -> bool {
        self.payload is Some
    }

    pub closed spec fn children_view(self) -> Seq<usize> {
        self.children@.map_values(|c: CommunityId| c.0)
    }

    /// Self-loop weight plus the weight of all links.
    pub closed spec fn weight_total(self) -> int {
        self.self_loops + sum_of(self.neighbors@, edge_weight_fn())
    }

    /// Every link points to one of the `n` nodes and weighs at least 1.
    pub closed spec fn links_ok(self, n: int) -> bool {
        forall|k: int|
            0 <= k < self.neighbors@.len() ==> {
                &&& (#[trigger] self.neighbors@[k]).other.0 < n
                &&& self.neighbors@[k].weight >= 1
            }
    }

    fn new(payload: Option<Vec<PersonId>>) -> (r: Self)
        ensures
            r.payload == payload,
            r.children@.len() == 0,
            r.edges_view().len() == 0,
            r.degree_view() == 0,
            r.parent_view() is None,
            r.self_loops_view() == 0,
    {
        Self {
            payload,
            children: Vec::new(),
            neighbors: Vec::new(),
            degree: 0,
            parent: None,
            self_loops: 0,
        }
    }
}

/// The persons of `idxs[0]`, then those of `idxs[1]`, and so on.
pub open spec fn flat_persons(nodes: Seq<Community>, idxs: Seq<usize>) -> Seq<PersonId>
    decreases idxs.len(),
{
    if idxs.len() == 0 {
        Seq::empty()
    } else {
        flat_persons(nodes, idxs.drop_last()) + nodes[idxs.last() as int].persons()
    }
}

/// The persons of all nodes, counted with multiplicity.
pub open spec fn persons_of(nodes: Seq<Community>) -> Multiset<usize> {
    msum_of(nodes, pm_fn())
}

pub open spec fn pm_fn() -> spec_fn(Community) -> Multiset<usize> {
    |c: Community| person_mset(c)
}

/// Well-formedness of a level given by its nodes and link count.
pub closed spec fn graph_view_wf(nodes: Seq<Community>, total_links: usize) -> bool {
    let n = nodes.len();
    &&& total_links < link_bound()
    &&& forall|i: int| 0 <= i < n ==> (#[trigger] nodes[i]).links_ok(n as int)
    &&& forall|i: int| 0 <= i < n ==> (#[trigger] nodes[i]).payload is Some
    &&& forall|i: int| 0 <= i < n ==> (#[trigger] nodes[i]).persons().len() > 0
    &&& sum_of(nodes, weight_fn()) <= total_links
    &&& sum_of(nodes, degree_fn()) <= total_links
}

/// Each of the persons `0..count` exactly once.
pub open spec fn all_persons(count: nat) -> Multiset<usize> {
    Seq::new(count, |i: int| i as usize).to_multiset()
}

fn merge(nodes: &Vec<Community>, idxs: &Vec<CommunityId>) -> (r: Vec<PersonId>)
    requires
        forall|k: int| 0 <= k < idxs@.len() ==> (#[trigger] idxs@[k]).0 < nodes@.len(),
        forall|i: int| 0 <= i < nodes@.len() ==> (#[trigger] nodes@[i]).payload is Some,
    ensures
        r@ == flat_persons(nodes@, idxs@.map_values(|c: CommunityId| c.0)),
{
    let mut r: Vec<PersonId> = Vec::new();
    let mut k: usize = 0;
    while k < idxs.len()
        invariant
            k <= idxs@.len(),
            forall|k: int| 0 <= k < idxs@.len() ==> (#[trigger] idxs@[k]).0 < nodes@.len(),
            forall|i: int| 0 <= i < nodes@.len() ==> (#[trigger] nodes@[i]).payload is Some,
            r@ == flat_persons(nodes@, idxs@.take(k as int).map_values(|c: CommunityId| c.0)),
        decreases idxs@.len() - k,
    {
        let ghost before = r@;
        let c = &nodes[idxs[k].0];
        let p = c.payload.as_ref().unwrap();
        let mut j: usize = 0;
        while j < p.len()
            invariant
                j <= p@.len(),
                r@ == before + p@.take(j as int),
            decreases p@.len() - j,
        {
            r.push(p[j]);
            assert(p@.take(j + 1) =~= p@.take(j as int).push(p@[j as int]));
            j += 1;
        }
        assert(p@.take(j as int) =~= p@);
        assert(idxs@.take(k + 1).map_values(|c: CommunityId| c.0).drop_last()
            =~= idxs@.take(k as int).map_values(|c: CommunityId| c.0));
        k += 1;
    }
    assert(idxs@.take(k as int) =~= idxs@);
    r
}

/// Number of links of a list of persons: the sum of their neighbour counts.
pub open spec fn neighbor_count<N: AbstractNode>(p: N) -> int {
    p.neighbors_view().len() as int
}

impl Graph {
    /// Well-formedness: links point inside the graph and weigh at least 1,
    /// every node has a payload, and the total weight and the total degree of
    /// the nodes stay within the graph's link count.
    pub closed spec fn wf(&self) -> bool {
        graph_view_wf(self.nodes@, self.total_links)
    }

    /// One community per person, holding just that person and linked with
    /// weight 1 to each of the person's neighbours; its degree is its number
    /// of neighbours.
    pub fn new<N: AbstractNode>(persons: &Vec<N>) -> (g: Self)
        requires
            sum_of(persons@, |p: N| neighbor_count(p)) < link_bound(),
        ensures
            g.nodes@.len() == persons@.len(),
            g.total_links == sum_of(persons@, |p: N| neighbor_count(p)),
            persons_of(g.nodes@) == all_persons(persons@.len()),
            forall|i: int|
                0 <= i < persons@.len() ==> {
                    &&& (#[trigger] g.nodes@[i]).persons() == seq![PersonId(i as usize)]
                    &&& g.nodes@[i].has_payload()
                    &&& g.nodes@[i].children_view().len() == 0
                    &&& g.nodes@[i].edges_view() == persons@[i].neighbors_view().map_values(
                        |x: usize| (x, 1usize),
                    )
                    &&& g.nodes@[i].degree_view() == persons@[i].neighbors_view().len()
                    &&& g.nodes@[i].self_loops_view() == 0
                    &&& g.nodes@[i].parent_view() is None
                },
            (forall|i: int, k: int|
                0 <= i < persons@.len() && 0 <= k < persons@[i].neighbors_view().len()
                    ==> #[trigger] persons@[i].neighbors_view()[k] < persons@.len()) ==> g.wf(),
    {
        let mut nodes: Vec<Community> = Vec::new();
        let mut total_links: usize = 0;
        let mut i: usize = 0;
        proof {
            broadcast use vstd::seq_lib::group_to_multiset_ensures;
            assert(Seq::new(0, |j: int| j as usize) =~= Seq::<usize>::empty());
            assert(Seq::<usize>::empty().to_multiset() =~= Multiset::empty());
        }
        while i < persons.len()
            invariant
                i <= persons@.len(),
                nodes@.len() == i,
                sum_of(persons@, |p: N| neighbor_count(p)) < link_bound(),
                total_links == sum_of(persons@.take(i as int), |p: N| neighbor_count(p)),
                persons_of(nodes@) == all_persons(i as nat),
                forall|j: int|
                    0 <= j < i ==> {
                        &&& (#[trigger] nodes@[j]).persons() == seq![PersonId(j as usize)]
                        &&& nodes@[j].payload is Some
                        &&& nodes@[j].children@.len() == 0
                        &&& nodes@[j].edges_view() == persons@[j].neighbors_view().map_values(
                            |x: usize| (x, 1usize),
                        )
                        &&& nodes@[j].degree == neighbor_count(persons@[j])
                        &&& nodes@[j].self_loops == 0
                        &&& nodes@[j].parent is None
                        &&& nodes@[j].weight_total() == neighbor_count(persons@[j])
                    },
            decreases persons@.len() - i,
        {
            let mut comm = Community::new(Some(vec![PersonId(i)]));
            let nb = persons[i].neighbors();
            let mut edges: Vec<Edge> = Vec::new();
            let mut k: usize = 0;
            while k < nb.len()
                invariant
                    k <= nb@.len(),
                    edges@.len() == k,
                    forall|m: int| 0 <= m < k ==> (#[trigger] edges@[m]).other.0 == nb@[m] && edges@[m].weight == 1,
                    sum_of(edges@, edge_weight_fn()) == k,
                decreases nb@.len() - k,
            {
                proof {
                    lemma_sum_push(edges@, Edge { other: CommunityId(nb@[k as int]), weight: 1 }, edge_weight_fn());
                }
                edges.push(Edge { other: CommunityId(nb[k]), weight: 1 });
                k += 1;
            }
            comm.neighbors = edges;
            comm.degree = nb.len();
            assert(comm.edges_view() =~= persons@[i as int].neighbors_view().map_values(|x: usize| (x, 1usize)));
            proof {
                lemma_sum_push(persons@.take(i as int), persons@[i as int], |p: N| neighbor_count(p));
                assert(persons@.take(i + 1) =~= persons@.take(i as int).push(persons@[i as int]));
                lemma_sum_prefix_le(persons@, i + 1, |p: N| neighbor_count(p));
            }
            total_links = total_links + nb.len();
            proof {
                broadcast use vstd::seq_lib::group_to_multiset_ensures;
                lemma_msum_push(nodes@, comm, pm_fn());
                assert(comm.persons() =~= seq![PersonId(i)]);
                assert(comm.persons().map_values(|p: PersonId| p.0) =~= Seq::<usize>::empty().push(i));
                assert(Seq::new((i + 1) as nat, |j: int| j as usize) =~= Seq::new(i as nat, |j: int| j as usize).push(i));
                assert(Seq::<usize>::empty().to_multiset() =~= Multiset::empty());
                assert(person_mset(comm) =~= Multiset::<usize>::empty().insert(i));
                assert(all_persons((i + 1) as nat) =~= all_persons(i as nat).insert(i));
                assert(persons_of(nodes@.push(comm)) =~= all_persons((i + 1) as nat));
            }
            nodes.push(comm);
            i += 1;
        }
        assert(persons@.take(i as int) =~= persons@);
        let g = Self { nodes, total_links };
        proof {
            if forall|i: int, k: int|
                0 <= i < persons@.len() && 0 <= k < persons@[i].neighbors_view().len()
                    ==> #[trigger] persons@[i].neighbors_view()[k] < persons@.len() {
                assert forall|j: int| 0 <= j < g.nodes@.len() implies (#[trigger] g.nodes@[j]).links_ok(g.nodes@.len() as int) by {
                    assert forall|k: int| 0 <= k < g.nodes@[j].neighbors@.len() implies {
                        &&& (#[trigger] g.nodes@[j].neighbors@[k]).other.0 < g.nodes@.len()
                        &&& g.nodes@[j].neighbors@[k].weight >= 1
                    } by {
                        assert(g.nodes@[j].edges_view()[k] == (g.nodes@[j].neighbors@[k].other.0, g.nodes@[j].neighbors@[k].weight));
                        assert(persons@[j].neighbors_view()[k] < persons@.len());
                    }
                }
            }
            lemma_sum_eq(g.nodes@, persons@, weight_fn(), |p: N| neighbor_count(p));
            lemma_sum_eq(g.nodes@, persons@, degree_fn(), |p: N| neighbor_count(p));
        }
        g
    }

    pub fn stats(&self) -> (r: (usize, usize))
        ensures
            r.0 == self.nodes@.len(),
            r.1 == self.total_links,
    {
        (self.nodes.len(), self.total_links)
    }
}

/// A prefix sum of non-negative terms is at most the whole sum.
proof fn lemma_sum_prefix_le<T>(s: Seq<T>, k: int, f: spec_fn(T) -> int)
    requires
        0 <= k <= s.len(),
        forall|j: int| 0 <= j < s.len() ==> f(#[trigger] s[j]) >= 0,
    ensures
        sum_of(s.take(k), f) <= sum_of(s, f),
    decreases s.len(),
{
    if k < s.len() {
        assert(s.drop_last().take(k) =~= s.take(k));
        lemma_sum_prefix_le(s.drop_last(), k, f);
        lemma_sum_nonneg(s, f);
    } else {
        assert(s.take(k) =~= s);
    }
}

/// Sums of two sequences agree when their terms agree pointwise.
proof fn lemma_sum_eq<A, B>(a: Seq<A>, b: Seq<B>, f: spec_fn(A) -> int, g: spec_fn(B) -> int)
    requires
        a.len() == b.len(),
        forall|j: int| 0 <= j < a.len() ==> f(#[trigger] a[j]) == g(b[j]),
    ensures
        sum_of(a, f) == sum_of(b, g),
    decreases a.len(),
{
    if a.len() > 0 {
        lemma_sum_eq(a.drop_last(), b.drop_last(), f, g);
    }
}

proof fn lemma_sum_zero<A>(a: Seq<A>, f: spec_fn(A) -> int)
    requires
        forall|j: int| 0 <= j < a.len() ==> f(#[trigger] a[j]) == 0,
    ensures
        sum_of(a, f) == 0,
    decreases a.len(),
{
    if a.len() > 0 {
        lemma_sum_zero(a.drop_last(), f);
    }
}


// ---------------------------------------------------------------------------
// Aggregation: one community per distinct value of the assignment.
// ---------------------------------------------------------------------------

/// The distinct values of `tmp`, in order of first appearance.
pub closed spec fn firsts(tmp: Seq<usize>) -> Seq<usize>
    decreases tmp.len(),
{
    if tmp.len() == 0 {
        Seq::empty()
    } else {
        let f = firsts(tmp.drop_last());
        if f.contains(tmp.last()) {
            f
        } else {
            f.push(tmp.last())
        }
    }
}

/// The indices `i` with `tmp[i] == t`, in increasing order.
pub closed spec fn members(tmp: Seq<usize>, t: usize) -> Seq<usize>
    decreases tmp.len(),
{
    if tmp.len() == 0 {
        Seq::empty()
    } else {
        let m = members(tmp.drop_last(), t);
        if tmp.last() == t {
            m.push((tmp.len() - 1) as usize)
        } else {
            m
        }
    }
}

/// The links of node `x`, each labelled with the assignment of its target.
pub closed spec fn lab_edges(nodes: Seq<Community>, tmp: Seq<usize>, x: usize) -> Seq<(usize, usize)> {
    nodes[x as int].neighbors@.map_values(|e: Edge| (tmp[e.other.0 as int], e.weight))
}

/// The labelled links of the nodes `ch[0]`, `ch[1]`, ... one after the other.
pub closed spec fn flat_lab(nodes: Seq<Community>, tmp: Seq<usize>, ch: Seq<usize>) -> Seq<(usize, usize)>
    decreases ch.len(),
{
    if ch.len() == 0 {
        Seq::empty()
    } else {
        flat_lab(nodes, tmp, ch.drop_last()) + lab_edges(nodes, tmp, ch.last())
    }
}

pub open spec fn lab_weight(t: usize) -> spec_fn((usize, usize)) -> int {
    |p: (usize, usize)| if p.0 == t { p.1 as int } else { 0 }
}

/// Total weight of the labelled links whose label is `t`.
pub open spec fn sum_lab(s: Seq<(usize, usize)>, t: usize) -> int {
    sum_of(s, lab_weight(t))
}

/// Total weight of the labelled links.
pub open spec fn sum_all(s: Seq<(usize, usize)>) -> int {
    sum_of(s, pair_weight_fn())
}

pub open spec fn pair_weight_fn() -> spec_fn((usize, usize)) -> int {
    |p: (usize, usize)| p.1 as int
}

pub closed spec fn edge_weight_fn() -> spec_fn(Edge) -> int {
    |e: Edge| edge_weight(e)
}

pub closed spec fn child_sl_fn(nodes: Seq<Community>) -> spec_fn(usize) -> int {
    |x: usize| nodes[x as int].self_loops as int
}

pub closed spec fn child_wt_fn(nodes: Seq<Community>) -> spec_fn(usize) -> int {
    |x: usize| nodes[x as int].weight_total()
}

pub closed spec fn child_pm_fn(nodes: Seq<Community>) -> spec_fn(usize) -> Multiset<usize> {
    |x: usize| person_mset(nodes[x as int])
}

pub closed spec fn sl_sum(nodes: Seq<Community>, ch: Seq<usize>) -> int {
    sum_of(ch, child_sl_fn(nodes))
}

pub closed spec fn wt_sum(nodes: Seq<Community>, ch: Seq<usize>) -> int {
    sum_of(ch, child_wt_fn(nodes))
}

pub open spec fn person_mset(c: Community) -> Multiset<usize> {
    c.persons().map_values(|p: PersonId| p.0).to_multiset()
}

pub closed spec fn children_mset(nodes: Seq<Community>, ch: Seq<usize>) -> Multiset<usize> {
    msum_of(ch, child_pm_fn(nodes))
}

/// The links `es` of community `c` are, without repetition, exactly the
/// communities `d != c` that the labelled links `p` reach, each with the total
/// weight that reaches it.
pub closed spec fn edges_match(es: Seq<(usize, usize)>, f: Seq<usize>, c: int, p: Seq<(usize, usize)>) -> bool {
    &&& forall|k1: int, k2: int| 0 <= k1 < k2 < es.len() ==> es[k1].0 != es[k2].0
    &&& forall|k: int|
        0 <= k < es.len() ==> {
            &&& (#[trigger] es[k]).0 < f.len()
            &&& es[k].0 != c
            &&& es[k].1 == sum_lab(p, f[es[k].0 as int])
            &&& sum_lab(p, f[es[k].0 as int]) > 0
        }
    &&& forall|d: int|
        0 <= d < f.len() && d != c && sum_lab(p, f[d]) > 0 ==> exists|k: int|
            0 <= k < es.len() && #[trigger] es[k].0 == d
}

/// Community `c` of the next level, built from the nodes assigned to `f[c]`.
pub closed spec fn community_matches(
    nodes: Seq<Community>,
    tmp: Seq<usize>,
    f: Seq<usize>,
    c: int,
    comm: Community,
) -> bool {
    let t = f[c];
    let ch = members(tmp, t);
    &&& comm.children_view() == ch
    &&& comm.payload is Some
    &&& comm.persons() == flat_persons(nodes, ch)
    &&& comm.parent is None
    &&& comm.self_loops == sl_sum(nodes, ch) + sum_lab(flat_lab(nodes, tmp, ch), t)
    &&& comm.degree == wt_sum(nodes, ch)
    &&& edges_match(comm.edges_view(), f, c, flat_lab(nodes, tmp, ch))
}

proof fn lemma_firsts(tmp: Seq<usize>)
    ensures
        firsts(tmp).no_duplicates(),
        forall|j: int| 0 <= j < tmp.len() ==> firsts(tmp).contains(#[trigger] tmp[j]),
        forall|c: int| 0 <= c < firsts(tmp).len() ==> tmp.contains(#[trigger] firsts(tmp)[c]),
    decreases tmp.len(),
{
    if tmp.len() > 0 {
        lemma_firsts(tmp.drop_last());
        let f = firsts(tmp.drop_last());
        assert forall|j: int| 0 <= j < tmp.len() implies firsts(tmp).contains(#[trigger] tmp[j]) by {
            if j < tmp.len() - 1 {
                assert(tmp.drop_last()[j] == tmp[j]);
                assert(f.contains(tmp[j]));
                let k = choose|k: int| 0 <= k < f.len() && f[k] == tmp[j];
                assert(firsts(tmp)[k] == tmp[j]);
            } else if !f.contains(tmp.last()) {
                assert(firsts(tmp)[f.len() as int] == tmp.last());
            }
        }
        assert forall|c: int| 0 <= c < firsts(tmp).len() implies tmp.contains(#[trigger] firsts(tmp)[c]) by {
            if c < f.len() {
                assert(tmp.drop_last().contains(f[c]));
                let j = choose|j: int| 0 <= j < tmp.drop_last().len() && tmp.drop_last()[j] == f[c];
                assert(tmp[j] == f[c]);
            } else {
                assert(tmp[tmp.len() - 1] == firsts(tmp)[c]);
            }
        }
    }
}

proof fn lemma_members_absent(tmp: Seq<usize>, t: usize)
    requires
        !firsts(tmp).contains(t),
    ensures
        members(tmp, t).len() == 0,
    decreases tmp.len(),
{
    if tmp.len() > 0 {
        let f = firsts(tmp.drop_last());
        if f.contains(tmp.last()) {
            lemma_members_absent(tmp.drop_last(), t);
        } else {
            assert(firsts(tmp) == f.push(tmp.last()));
            assert(firsts(tmp)[f.len() as int] == tmp.last());
            assert(!f.contains(t)) by {
                if f.contains(t) {
                    let c = choose|c: int| 0 <= c < f.len() && f[c] == t;
                    assert(firsts(tmp)[c] == t);
                }
            }
            lemma_members_absent(tmp.drop_last(), t);
        }
    }
}

proof fn lemma_sum_concat<T>(a: Seq<T>, b: Seq<T>, f: spec_fn(T) -> int)
    ensures
        sum_of(a + b, f) == sum_of(a, f) + sum_of(b, f),
    decreases b.len(),
{
    if b.len() == 0 {
        assert(a + b =~= a);
    } else {
        lemma_sum_concat(a, b.drop_last(), f);
        assert((a + b).drop_last() =~= a + b.drop_last());
    }
}

proof fn lemma_sum_le<A>(a: Seq<A>, f: spec_fn(A) -> int, g: spec_fn(A) -> int)
    requires
        forall|j: int| 0 <= j < a.len() ==> f(#[trigger] a[j]) <= g(a[j]),
    ensures
        sum_of(a, f) <= sum_of(a, g),
    decreases a.len(),
{
    if a.len() > 0 {
        lemma_sum_le(a.drop_last(), f, g);
    }
}

proof fn lemma_msum_eq<A, B>(a: Seq<A>, b: Seq<B>, f: spec_fn(A) -> Multiset<usize>, g: spec_fn(B) -> Multiset<usize>)
    requires
        a.len() == b.len(),
        forall|j: int| 0 <= j < a.len() ==> f(#[trigger] a[j]) == g(b[j]),
    ensures
        msum_of(a, f) == msum_of(b, g),
    decreases a.len(),
{
    if a.len() > 0 {
        lemma_msum_eq(a.drop_last(), b.drop_last(), f, g);
    }
}

/// The persons of a merged payload are those of the children, with multiplicity.
proof fn lemma_flat_persons_mset(nodes: Seq<Community>, ch: Seq<usize>)
    ensures
        flat_persons(nodes, ch).map_values(|p: PersonId| p.0).to_multiset() == children_mset(nodes, ch),
    decreases ch.len(),
{
    if ch.len() == 0 {
        assert(flat_persons(nodes, ch).map_values(|p: PersonId| p.0) =~= Seq::<usize>::empty());
        assert(Seq::<usize>::empty().to_multiset() =~= Multiset::empty()) by {
            broadcast use vstd::seq_lib::group_to_multiset_ensures;
        }
    } else {
        lemma_flat_persons_mset(nodes, ch.drop_last());
        let a = flat_persons(nodes, ch.drop_last());
        let b = nodes[ch.last() as int].persons();
        assert((a + b).map_values(|p: PersonId| p.0) =~= a.map_values(|p: PersonId| p.0) + b.map_values(|p: PersonId| p.0));
        vstd::seq_lib::lemma_multiset_commutative(a.map_values(|p: PersonId| p.0), b.map_values(|p: PersonId| p.0));
    }
}

/// A node's total weight is its self-loop weight plus its labelled links' weight.
proof fn lemma_weight_lab(nodes: Seq<Community>, tmp: Seq<usize>, x: usize)
    requires
        x < nodes.len(),
    ensures
        nodes[x as int].weight_total() == nodes[x as int].self_loops + sum_all(lab_edges(nodes, tmp, x)),
{
    let es = nodes[x as int].neighbors@;
    lemma_sum_eq(es, lab_edges(nodes, tmp, x), edge_weight_fn(), pair_weight_fn());
}

/// A labelled link adds its weight to the sum of its own label only.
proof fn lemma_sum_lab_push(s: Seq<(usize, usize)>, e: (usize, usize), t: usize)
    ensures
        sum_lab(s.push(e), t) == sum_lab(s, t) + (if e.0 == t { e.1 as int } else { 0 }),
        sum_all(s.push(e)) == sum_all(s) + e.1,
{
    lemma_sum_push(s, e, lab_weight(t));
    lemma_sum_push(s, e, pair_weight_fn());
}

/// Summing the per-label sums over distinct labels other than `t` gives at
/// most the weight of the links not labelled `t`.
proof fn lemma_distinct_labels(s: Seq<(usize, usize)>, us: Seq<usize>, t: usize)
    requires
        us.no_duplicates(),
        !us.contains(t),
    ensures
        sum_of(us, |u: usize| sum_lab(s, u)) <= sum_all(s) - sum_lab(s, t),
    decreases s.len(),
{
    if s.len() == 0 {
        lemma_sum_zero(us, |u: usize| sum_lab(s, u));
    } else {
        let s0 = s.drop_last();
        let e = s.last();
        assert(s0.push(e) =~= s);
        lemma_distinct_labels(s0, us, t);
        lemma_sum_lab_push(s0, e, t);
        lemma_labels_step(s0, e, us);
        if us.contains(e.0) {
            assert(e.0 != t);
        }
    }
}

proof fn lemma_labels_step(s: Seq<(usize, usize)>, e: (usize, usize), us: Seq<usize>)
    requires
        us.no_duplicates(),
    ensures
        sum_of(us, |u: usize| sum_lab(s.push(e), u)) == sum_of(us, |u: usize| sum_lab(s, u)) + (if us.contains(e.0) {
            e.1 as int
        } else {
            0
        }),
    decreases us.len(),
{
    if us.len() > 0 {
        let u0 = us.drop_last();
        assert(u0.no_duplicates());
        lemma_labels_step(s, e, u0);
        lemma_sum_lab_push(s, e, us.last());
        if u0.contains(e.0) {
            assert(us.contains(e.0));
            let k = choose|k: int| 0 <= k < u0.len() && u0[k] == e.0;
            assert(us[k] == e.0);
            assert(us.last() != e.0);
        } else if us.last() == e.0 {
            assert(us.contains(e.0));
        } else {
            assert(!us.contains(e.0)) by {
                if us.contains(e.0) {
                    let k = choose|k: int| 0 <= k < us.len() && us[k] == e.0;
                    if k < us.len() - 1 {
                        assert(u0[k] == e.0);
                    }
                }
            }
        }
    }
}

impl Graph {
    /// Groups the nodes by their assignment `tmp_comm`: community `c` of the
    /// result gathers, in increasing order, the nodes assigned to the `c`-th
    /// distinct value of `tmp_comm` (in order of first appearance).
    fn aggregate(self, tmp_comm: &Vec<usize>) -> (g: Graph)
        requires
            self.wf(),
            tmp_comm@.len() == self.nodes@.len(),
            forall|i: int| 0 <= i < tmp_comm@.len() ==> #[trigger] tmp_comm@[i] < self.nodes@.len(),
        ensures
            g.wf(),
            g.total_links == self.total_links,
            persons_of(g.nodes@) == persons_of(self.nodes@),
            sum_of(g.nodes@, degree_fn()) == sum_of(self.nodes@, weight_fn()),
            g.nodes@.len() == firsts(tmp_comm@).len(),
            forall|c: int|
                0 <= c < g.nodes@.len() ==> community_matches(
                    self.nodes@,
                    tmp_comm@,
                    firsts(tmp_comm@),
                    c,
                    #[trigger] g.nodes@[c],
                ),
    {
        let ghost nodes = self.nodes@;
        let ghost tmp = tmp_comm@;
        let n = self.nodes.len();
        let ghost wt = weight_fn();
        let ghost fw = children_weight_fn(nodes);
        let ghost fm = children_mset_fn(nodes);
        let mut old_comm_idx: Vec<usize> = Vec::new();
        let mut c2i: Vec<usize> = Vec::new();
        let mut z: usize = 0;
        while z < n
            invariant
                z <= n,
                c2i@.len() == z,
                forall|t: int| 0 <= t < z ==> c2i@[t] == 0,
            decreases n - z,
        {
            c2i.push(0);
            z += 1;
        }
        let mut communities: Vec<Community> = Vec::new();
        proof {
            assert(tmp.take(0) =~= Seq::<usize>::empty());
            assert(nodes.take(0) =~= Seq::<Community>::empty());
        }
        let mut i: usize = 0;
        while i < n
            invariant
                i <= n,
                n == nodes.len(),
                nodes == self.nodes@,
                tmp == tmp_comm@,
                wt == weight_fn(),
                fw == children_weight_fn(nodes),
                fm == children_mset_fn(nodes),
                tmp.len() == n,
                forall|j: int| 0 <= j < n ==> #[trigger] tmp[j] < n,
                c2i@.len() == n,
                old_comm_idx@ == firsts(tmp.take(i as int)),
                communities@.len() == old_comm_idx@.len(),
                forall|c: int| 0 <= c < old_comm_idx@.len() ==> #[trigger] old_comm_idx@[c] < n,
                forall|c: int| 0 <= c < old_comm_idx@.len() ==> c2i@[#[trigger] old_comm_idx@[c] as int] == c + 1,
                forall|t: int| 0 <= t < n ==> (#[trigger] c2i@[t] == 0 <==> !old_comm_idx@.contains(t as usize)),
                forall|c: int|
                    0 <= c < communities@.len() ==> {
                        &&& (#[trigger] communities@[c]).children_view() == members(tmp.take(i as int), old_comm_idx@[c])
                        &&& communities@[c].payload is None
                        &&& communities@[c].neighbors@.len() == 0
                        &&& communities@[c].degree == 0
                        &&& communities@[c].self_loops == 0
                        &&& communities@[c].parent is None
                    },
                sum_of(communities@, fw) == sum_of(nodes.take(i as int), wt),
                msum_of(communities@, fm) == msum_of(nodes.take(i as int), pm_fn()),
            decreases n - i,
        {
            let t = tmp_comm[i];
            let c = c2i[t];
            let ghost prev = tmp.take(i as int);
            proof {
                assert(tmp.take(i + 1) =~= prev.push(t));
                assert(tmp.take(i + 1).drop_last() =~= prev);
                assert(nodes.take(i + 1) =~= nodes.take(i as int).push(nodes[i as int]));
                lemma_sum_push(nodes.take(i as int), nodes[i as int], wt);
                lemma_msum_push(nodes.take(i as int), nodes[i as int], pm_fn());
                lemma_firsts(prev);
            }
            if c == 0 {
                let ghost old_comms = communities@;
                let ghost len = communities@.len();
                let mut children: Vec<CommunityId> = Vec::new();
                children.push(CommunityId(i));
                let comm = Community {
                    payload: None,
                    children,
                    neighbors: Vec::new(),
                    degree: 0,
                    parent: None,
                    self_loops: 0,
                };
                proof {
                    assert(comm.children_view() =~= seq![i]);
                    lemma_members_absent(prev, t);
                    assert(members(tmp.take(i + 1), t) =~= seq![i]);
                    assert(seq![i].drop_last() =~= Seq::<usize>::empty());
                    assert(seq![i] =~= Seq::<usize>::empty().push(i));
                    lemma_sum_push(Seq::<usize>::empty(), i, child_wt_fn(nodes));
                    lemma_msum_push(Seq::<usize>::empty(), i, child_pm_fn(nodes));
                    assert(comm.children_view() == Seq::<usize>::empty().push(i));
                    assert(sum_of(Seq::<usize>::empty(), child_wt_fn(nodes)) == 0);
                    assert(child_wt_fn(nodes)(i) == nodes[i as int].weight_total());
                    assert(wt_sum(nodes, comm.children_view()) == nodes[i as int].weight_total());
                    assert(msum_of(Seq::<usize>::empty(), child_pm_fn(nodes)) == Multiset::<usize>::empty());
                    assert(child_pm_fn(nodes)(i) == person_mset(nodes[i as int]));
                    assert(children_mset(nodes, comm.children_view()) =~= person_mset(nodes[i as int]));
                    assert(fw(comm) == wt(nodes[i as int]));
                    assert(fm(comm) =~= person_mset(nodes[i as int]));
                    lemma_sum_push(old_comms, comm, fw);
                    lemma_msum_push(old_comms, comm, fm);
                }
                communities.push(comm);
                c2i.set(t, communities.len());
                old_comm_idx.push(t);
                proof {
                    assert forall|cc: int| 0 <= cc < communities@.len() implies {
                        &&& (#[trigger] communities@[cc]).children_view() == members(tmp.take(i + 1), old_comm_idx@[cc])
                    } by {
                        if cc < len {
                            assert(old_comm_idx@[cc] != t) by {
                                assert(firsts(prev).contains(old_comm_idx@[cc]) ==> old_comm_idx@[cc] != t);
                                assert(firsts(prev)[cc] == old_comm_idx@[cc]);
                            }
                        }
                    }
                    assert forall|tt: int| 0 <= tt < n implies (#[trigger] c2i@[tt] == 0 <==> !old_comm_idx@.contains(tt as usize)) by {
                        if tt == t {
                            assert(old_comm_idx@[len as int] == t);
                        } else {
                            if old_comm_idx@.contains(tt as usize) {
                                let k = choose|k: int| 0 <= k < old_comm_idx@.len() && old_comm_idx@[k] == tt as usize;
                                if k < len {
                                    assert(firsts(prev)[k] == tt);
                                    assert(firsts(prev).contains(tt as usize));
                                }
                            }
                            if firsts(prev).contains(tt as usize) {
                                let k = choose|k: int| 0 <= k < firsts(prev).len() && firsts(prev)[k] == tt as usize;
                                assert(old_comm_idx@[k] == tt);
                            }
                        }
                    }
                    assert forall|cc: int| 0 <= cc < old_comm_idx@.len() implies c2i@[#[trigger] old_comm_idx@[cc] as int] == cc + 1 by {
                        if cc < len {
                            assert(firsts(prev)[cc] == old_comm_idx@[cc]);
                            assert(firsts(prev).contains(old_comm_idx@[cc]));
                        }
                    }
                }
            } else {
                let ci = c - 1;
                proof {
                    assert(old_comm_idx@.contains(t));
                    let k = choose|k: int| 0 <= k < old_comm_idx@.len() && old_comm_idx@[k] == t;
                    assert(c2i@[old_comm_idx@[k] as int] == k + 1);
                    assert(ci == k);
                }
                let ghost old_comms = communities@;
                let ghost oldc = communities@[ci as int];
                communities[ci].children.push(CommunityId(i));
                proof {
                    let newc = communities@[ci as int];
                    assert(newc.children_view() =~= oldc.children_view().push(i));
                    assert(newc.children_view().drop_last() =~= oldc.children_view());
                    lemma_sum_push(oldc.children_view(), i, child_wt_fn(nodes));
                    lemma_msum_push(oldc.children_view(), i, child_pm_fn(nodes));
                    assert(communities@ == old_comms.update(ci as int, newc));
                    assert(wt_sum(nodes, newc.children_view()) == wt_sum(nodes, oldc.children_view()) + nodes[i as int].weight_total());
                    assert(fw(newc) == fw(oldc) + wt(nodes[i as int]));
                    assert(child_pm_fn(nodes)(i) == person_mset(nodes[i as int]));
                    assert(children_mset(nodes, newc.children_view()) == children_mset(nodes, oldc.children_view()).add(person_mset(nodes[i as int])));
                    assert(fm(newc) == fm(oldc).add(person_mset(nodes[i as int])));
                    lemma_sum_update(old_comms, ci as int, newc, fw);
                    lemma_msum_update(old_comms, ci as int, newc, person_mset(nodes[i as int]), fm);
                    assert(firsts(tmp.take(i + 1)) == firsts(prev));
                    assert forall|cc: int| 0 <= cc < communities@.len() implies {
                        &&& (#[trigger] communities@[cc]).children_view() == members(tmp.take(i + 1), old_comm_idx@[cc])
                    } by {
                        if cc != ci {
                            assert(old_comm_idx@[cc] != t) by {
                                assert(old_comm_idx@.no_duplicates());
                            }
                        }
                    }
                }
            }
            i += 1;
        }
        proof {
            assert(tmp.take(n as int) =~= tmp);
            assert(nodes.take(n as int) =~= nodes);
            lemma_firsts(tmp);
        }
        let ghost f = old_comm_idx@;
        let ghost comms1 = communities@;
        let ghost total_wt = sum_of(nodes, wt);
        let num = communities.len();
        let mut c: usize = 0;
        while c < num
            invariant
                n == nodes.len(),
                nodes == self.nodes@,
                tmp == tmp_comm@,
                wt == weight_fn(),
                fw == children_weight_fn(nodes),
                fm == children_mset_fn(nodes),
                total_wt == sum_of(nodes, wt),
                tmp.len() == n,
                forall|j: int| 0 <= j < n ==> #[trigger] tmp[j] < n,
                self.wf(),
                f == firsts(tmp),
                f.no_duplicates(),
                old_comm_idx@ == f,
                num == f.len(),
                c <= num,
                c2i@.len() == n,
                forall|cc: int| 0 <= cc < f.len() ==> #[trigger] f[cc] < n,
                forall|cc: int| 0 <= cc < f.len() ==> c2i@[#[trigger] f[cc] as int] == cc + 1,
                forall|j: int| 0 <= j < n ==> f.contains(#[trigger] tmp[j]),
                communities@.len() == num,
                comms1.len() == num,
                sum_of(comms1, fw) == total_wt,
                total_wt <= self.total_links,
                msum_of(comms1, fm) == msum_of(nodes, pm_fn()),
                forall|cc: int| 0 <= cc < num ==> (#[trigger] comms1[cc]).parent is None,
                forall|cc: int|
                    0 <= cc < num ==> (#[trigger] comms1[cc]).children_view() == members(tmp, f[cc]),
                forall|cc: int| c <= cc < num ==> #[trigger] communities@[cc] == comms1[cc],
                forall|cc: int|
                    0 <= cc < c ==> community_matches(nodes, tmp, f, cc, #[trigger] communities@[cc]),
            decreases num - c,
        {
            let old_comm = old_comm_idx[c];
            let ghost ch = comms1[c as int].children_view();
            let ghost t = old_comm;
            proof {
                assert(children_ok(nodes, ch)) by {
                    lemma_members_bounds(tmp, t);
                }
                assert forall|jj: int| 0 <= jj < comms1.len() implies fw(#[trigger] comms1[jj]) >= 0 by {
                    lemma_wt_sum_nonneg(nodes, comms1[jj].children_view());
                }
                lemma_sum_nonneg_bounds_term(comms1, c as int, fw);
            }
            let mut links = map_new();
            let mut self_loops: usize = 0;
            let mut degree: usize = 0;
            let nch = communities[c].children.len();
            let mut j: usize = 0;
            while j < nch
                invariant
                    n == nodes.len(),
                    nodes == self.nodes@,
                    tmp == tmp_comm@,
                    tmp.len() == n,
                    forall|jj: int| 0 <= jj < n ==> #[trigger] tmp[jj] < n,
                    self.wf(),
                    f == firsts(tmp),
                    f.no_duplicates(),
                    num == f.len(),
                    c < num,
                    t == f[c as int],
                    old_comm == t,
                    c2i@.len() == n,
                    forall|cc: int| 0 <= cc < f.len() ==> c2i@[#[trigger] f[cc] as int] == cc + 1,
                    forall|jj: int| 0 <= jj < n ==> f.contains(#[trigger] tmp[jj]),
                    communities@[c as int] == comms1[c as int],
                    communities@.len() == num,
                    ch == comms1[c as int].children_view(),
                    nch == ch.len(),
                    children_ok(nodes, ch),
                    j <= nch,
                    wt_sum(nodes, ch) <= self.total_links,
                    self_loops == sl_sum(nodes, ch.take(j as int)) + sum_lab(flat_lab(nodes, tmp, ch.take(j as int)), t),
                    degree == wt_sum(nodes, ch.take(j as int)),
                    self_loops <= degree,
                    links_state(map_contents(links), f, c as int, flat_lab(nodes, tmp, ch.take(j as int)), degree as int),
                decreases nch - j,
            {
                let x = communities[c].children[j].0;
                proof {
                    assert(ch[j as int] == x);
                    assert(ch.take(j + 1) =~= ch.take(j as int).push(x));
                    assert(ch.take(j + 1).drop_last() =~= ch.take(j as int));
                    lemma_sum_push(ch.take(j as int), x, child_wt_fn(nodes));
                    lemma_sum_push(ch.take(j as int), x, child_sl_fn(nodes));
                    lemma_wt_sum_nonneg(nodes, ch);
                    lemma_sum_prefix_le(ch, j + 1, child_wt_fn(nodes));
                    lemma_sum_lab_nonneg(lab_edges(nodes, tmp, x), t);
                    lemma_weight_lab(nodes, tmp, x);
                    assert(nodes[x as int].links_ok(n as int));
                }
                let ghost base_p = flat_lab(nodes, tmp, ch.take(j as int));
                let ghost base_deg = degree as int;
                let ghost le = lab_edges(nodes, tmp, x);
                let child = &self.nodes[x];
                self_loops = self_loops + child.self_loops;
                degree = degree + child.self_loops;
                let ne = child.neighbors.len();
                let mut k: usize = 0;
                proof {
                    assert(le.take(0) =~= Seq::<(usize, usize)>::empty());
                    assert(base_p + le.take(0) =~= base_p);
                    lemma_sum_prefix_le(le, 0, pair_weight_fn());
                }
                while k < ne
                    invariant
                        n == nodes.len(),
                        nodes == self.nodes@,
                        tmp == tmp_comm@,
                        tmp.len() == n,
                        forall|jj: int| 0 <= jj < n ==> #[trigger] tmp[jj] < n,
                        f == firsts(tmp),
                        f.no_duplicates(),
                        num == f.len(),
                        c < num,
                        t == f[c as int],
                        old_comm == t,
                        c2i@.len() == n,
                        forall|cc: int| 0 <= cc < f.len() ==> c2i@[#[trigger] f[cc] as int] == cc + 1,
                        forall|jj: int| 0 <= jj < n ==> f.contains(#[trigger] tmp[jj]),
                        x < n,
                        child == &self.nodes@[x as int],
                        child.links_ok(n as int),
                        le == lab_edges(nodes, tmp, x),
                        ne == le.len(),
                        k <= ne,
                        base_deg + nodes[x as int].weight_total() <= self.total_links,
                        nodes[x as int].weight_total() == nodes[x as int].self_loops + sum_all(le),
                        self_loops == sl_sum(nodes, ch.take(j as int)) + nodes[x as int].self_loops + sum_lab(base_p + le.take(k as int), t),
                        degree == base_deg + nodes[x as int].self_loops + sum_all(le.take(k as int)),
                        self_loops <= degree,
                        sum_all(le.take(k as int)) <= sum_all(le),
                        links_state(map_contents(links), f, c as int, base_p + le.take(k as int), degree as int),
                    decreases ne - k,
                {
                    let link = &child.neighbors[k];
                    let to = link.other.0;
                    let w = link.weight;
                    let now = tmp_comm[to];
                    let ghost p0 = base_p + le.take(k as int);
                    proof {
                        assert(le[k as int] == (now, w));
                        assert(le.take(k + 1) =~= le.take(k as int).push((now, w)));
                        assert(base_p + le.take(k + 1) =~= p0.push((now, w)));
                        lemma_sum_lab_push(p0, (now, w), t);
                        lemma_sum_lab_push(le.take(k as int), (now, w), t);
                        lemma_sum_prefix_le(le, k + 1, pair_weight_fn());
                    }
                    degree = degree + w;
                    if now == old_comm {
                        self_loops = self_loops + w;
                        proof {
                            lemma_links_step_self(map_contents(links), f, c as int, p0, (now, w), degree as int);
                        }
                    } else {
                        let key = c2i[now] - 1;
                        proof {
                            assert(f.contains(now));
                            let kk = choose|kk: int| 0 <= kk < f.len() && f[kk] == now;
                            assert(c2i@[f[kk] as int] == kk + 1);
                            assert(key == kk);
                            assert(key != c);
                        }
                        let cur = map_get(&links, key);
                        let cur_v: usize = match cur {
                            Some(v) => v,
                            None => 0,
                        };
                        proof {
                            if map_contents(links).contains_key(key) {
                                assert(cur_v <= degree - w);
                            }
                        }
                        let ghost m0 = map_contents(links);
                        map_insert(&mut links, key, cur_v + w);
                        proof {
                            lemma_links_step_other(m0, f, c as int, p0, (now, w), key, (cur_v + w) as usize, degree as int);
                        }
                    }
                    k += 1;
                }
                proof {
                    assert(le.take(ne as int) =~= le);
                    assert(flat_lab(nodes, tmp, ch.take(j + 1)) == base_p + le);
                }
                j += 1;
            }
            proof {
                assert(ch.take(nch as int) =~= ch);
            }
            let entries = map_entries(&links);
            let ghost p_all = flat_lab(nodes, tmp, ch);
            let mut edges: Vec<Edge> = Vec::new();
            let mut q: usize = 0;
            while q < entries.len()
                invariant
                    q <= entries@.len(),
                    edges@.len() == q,
                    forall|m: int| 0 <= m < q ==> (#[trigger] edges@[m]).other.0 == entries@[m].0 && edges@[m].weight == entries@[m].1,
                decreases entries@.len() - q,
            {
                edges.push(Edge { other: CommunityId(entries[q].0), weight: entries[q].1 });
                q += 1;
            }
            proof {
                assert forall|kk: int| 0 <= kk < communities@[c as int].children@.len() implies (#[trigger] communities@[c as int].children@[kk]).0 < nodes.len() by {
                    assert(ch[kk] == communities@[c as int].children@[kk].0);
                }
            }
            let payload = merge(&self.nodes, &communities[c].children);
            let ghost pre = communities@;
            communities[c].self_loops = self_loops;
            communities[c].degree = degree;
            communities[c].neighbors = edges;
            communities[c].payload = Some(payload);
            proof {
                let cm = communities@[c as int];
                assert(communities[c as int].children == comms1[c as int].children);
                assert(cm.children_view() == ch);
                assert(comms1[c as int].children@.map_values(|cc: CommunityId| cc.0) == ch);
                assert(cm.edges_view() =~= entries@);
                lemma_entries_match(map_contents(links), entries@, f, c as int, p_all, degree as int);
                assert(community_matches(nodes, tmp, f, c as int, cm));
                assert forall|cc: int| c < cc < num implies #[trigger] communities@[cc] == comms1[cc] by {
                    assert(communities@[cc] == pre[cc]);
                }
                assert forall|cc: int| 0 <= cc < c + 1 implies community_matches(nodes, tmp, f, cc, #[trigger] communities@[cc]) by {
                    if cc < c {
                        assert(communities@[cc] == pre[cc]);
                    }
                }
            }
            c += 1;
        }
        let g = Graph { nodes: communities, total_links: self.total_links };
        proof {
            lemma_aggregate_wf(self, tmp, f, comms1, g.nodes@);
        }
        g
    }
}

proof fn lemma_weight_total_nonneg(c: Community)
    ensures
        c.weight_total() >= 0,
{
    lemma_sum_nonneg(c.neighbors@, edge_weight_fn());
}

proof fn lemma_wt_sum_nonneg(nodes: Seq<Community>, ch: Seq<usize>)
    ensures
        wt_sum(nodes, ch) >= 0,
        forall|j: int| 0 <= j < ch.len() ==> child_wt_fn(nodes)(#[trigger] ch[j]) >= 0,
{
    assert forall|j: int| 0 <= j < ch.len() implies child_wt_fn(nodes)(#[trigger] ch[j]) >= 0 by {
        lemma_weight_total_nonneg(nodes[ch[j] as int]);
    }
    lemma_sum_nonneg(ch, child_wt_fn(nodes));
}

pub closed spec fn children_ok(nodes: Seq<Community>, ch: Seq<usize>) -> bool {
    forall|k: int| 0 <= k < ch.len() ==> #[trigger] ch[k] < nodes.len()
}

/// The map of link weights gathered so far from the labelled links `p` of
/// community `c`: the targets `d != c` reached with positive weight, each with
/// that weight, which stays within `deg`.
pub closed spec fn links_state(m: Map<usize, usize>, f: Seq<usize>, c: int, p: Seq<(usize, usize)>, deg: int) -> bool {
    &&& forall|d: usize|
        #[trigger] m.contains_key(d) <==> (d < f.len() && d != c && sum_lab(p, f[d as int]) > 0)
    &&& forall|d: usize| #[trigger] m.contains_key(d) ==> m[d] == sum_lab(p, f[d as int]) && m[d] <= deg
}

pub closed spec fn weight_fn() -> spec_fn(Community) -> int {
    |c: Community| c.weight_total()
}

pub closed spec fn degree_fn() -> spec_fn(Community) -> int {
    |c: Community| c.degree as int
}

pub closed spec fn children_weight_fn(nodes: Seq<Community>) -> spec_fn(Community) -> int {
    |cm: Community| wt_sum(nodes, cm.children_view())
}

pub closed spec fn children_mset_fn(nodes: Seq<Community>) -> spec_fn(Community) -> Multiset<usize> {
    |cm: Community| children_mset(nodes, cm.children_view())
}

proof fn lemma_sum_lab_nonneg(s: Seq<(usize, usize)>, t: usize)
    ensures
        sum_lab(s, t) >= 0,
        sum_lab(s, t) <= sum_all(s),
    decreases s.len(),
{
    if s.len() > 0 {
        lemma_sum_lab_nonneg(s.drop_last(), t);
        assert(s.drop_last().push(s.last()) =~= s);
        lemma_sum_lab_push(s.drop_last(), s.last(), t);
    }
}

proof fn lemma_members_bounds(tmp: Seq<usize>, t: usize)
    ensures
        forall|k: int| 0 <= k < members(tmp, t).len() ==> #[trigger] members(tmp, t)[k] < tmp.len(),
    decreases tmp.len(),
{
    if tmp.len() > 0 {
        lemma_members_bounds(tmp.drop_last(), t);
        let m = members(tmp.drop_last(), t);
        assert forall|k: int| 0 <= k < members(tmp, t).len() implies #[trigger] members(tmp, t)[k] < tmp.len() by {
            if k < m.len() {
                assert(members(tmp, t)[k] == m[k]);
            }
        }
    }
}

proof fn lemma_members_nonempty(tmp: Seq<usize>, t: usize)
    requires
        tmp.contains(t),
    ensures
        members(tmp, t).len() > 0,
    decreases tmp.len(),
{
    if tmp.last() != t {
        let k = choose|k: int| 0 <= k < tmp.len() && tmp[k] == t;
        assert(tmp.drop_last()[k] == t);
        lemma_members_nonempty(tmp.drop_last(), t);
    }
}

proof fn lemma_flat_persons_nonempty(nodes: Seq<Community>, ch: Seq<usize>)
    requires
        ch.len() > 0,
        forall|k: int| 0 <= k < ch.len() ==> #[trigger] ch[k] < nodes.len(),
        forall|i: int| 0 <= i < nodes.len() ==> (#[trigger] nodes[i]).persons().len() > 0,
    ensures
        flat_persons(nodes, ch).len() > 0,
{
    assert(ch[ch.len() - 1] < nodes.len());
}

proof fn lemma_links_step_self(m: Map<usize, usize>, f: Seq<usize>, c: int, p: Seq<(usize, usize)>, e: (usize, usize), deg: int)
    requires
        links_state(m, f, c, p, deg - e.1),
        f.no_duplicates(),
        0 <= c < f.len(),
        e.0 == f[c],
    ensures
        links_state(m, f, c, p.push(e), deg),
{
    assert forall|d: usize| d < f.len() && d != c implies sum_lab(p.push(e), f[d as int]) == sum_lab(p, f[d as int]) by {
        lemma_sum_lab_push(p, e, f[d as int]);
        assert(f[d as int] != f[c]);
    }
}

proof fn lemma_links_step_other(
    m: Map<usize, usize>,
    f: Seq<usize>,
    c: int,
    p: Seq<(usize, usize)>,
    e: (usize, usize),
    key: usize,
    v: usize,
    deg: int,
)
    requires
        links_state(m, f, c, p, deg - e.1),
        f.no_duplicates(),
        0 <= c < f.len(),
        key < f.len(),
        key != c,
        e.0 == f[key as int],
        e.1 >= 1,
        deg >= e.1,
        v == (if m.contains_key(key) { m[key] as int } else { 0 }) + e.1,
    ensures
        links_state(m.insert(key, v), f, c, p.push(e), deg),
{
    lemma_sum_lab_nonneg(p, e.0);
    assert forall|d: usize| d < f.len() && d != key implies sum_lab(p.push(e), f[d as int]) == sum_lab(p, f[d as int]) by {
        lemma_sum_lab_push(p, e, f[d as int]);
        assert(f[d as int] != f[key as int]);
    }
    lemma_sum_lab_push(p, e, e.0);
    if !m.contains_key(key) {
        assert(sum_lab(p, f[key as int]) == 0);
    }
    let m2 = m.insert(key, v);
    assert(sum_lab(p.push(e), f[key as int]) == sum_lab(p, f[key as int]) + e.1);
    assert forall|d: usize| #[trigger] m2.contains_key(d) <==> (d < f.len() && d != c && sum_lab(p.push(e), f[d as int]) > 0) by {
        if d != key {
            assert(m2.contains_key(d) == m.contains_key(d));
        }
    }
    assert forall|d: usize| #[trigger] m2.contains_key(d) implies m2[d] == sum_lab(p.push(e), f[d as int]) && m2[d] <= deg by {
        if d != key {
            assert(m2[d] == m[d]);
            assert(m.contains_key(d));
            assert(d < f.len());
            assert(sum_lab(p.push(e), f[d as int]) == sum_lab(p, f[d as int]));
        } else {
            if m.contains_key(key) {
                assert(m[key] == sum_lab(p, f[key as int]));
            }
        }
    }
}

proof fn lemma_entries_match(m: Map<usize, usize>, es: Seq<(usize, usize)>, f: Seq<usize>, c: int, p: Seq<(usize, usize)>, deg: int)
    requires
        f.len() <= usize::MAX,
        links_state(m, f, c, p, deg),
        forall|i: int, j: int| 0 <= i < j < es.len() ==> es[i].0 != es[j].0,
        forall|i: int| 0 <= i < es.len() ==> m.contains_key(#[trigger] es[i].0) && m[es[i].0] == es[i].1,
        forall|k: usize| m.contains_key(k) ==> exists|i: int| 0 <= i < es.len() && #[trigger] es[i].0 == k,
    ensures
        edges_match(es, f, c, p),
{
    assert forall|d: int| 0 <= d < f.len() && d != c && sum_lab(p, f[d]) > 0 implies exists|k: int|
        0 <= k < es.len() && #[trigger] es[k].0 == d by {
        let du = d as usize;
        assert(du < f.len() && du != c && sum_lab(p, f[du as int]) > 0);
        assert(m.contains_key(du));
        let i = choose|i: int| 0 <= i < es.len() && #[trigger] es[i].0 == du;
        assert(es[i].0 == d);
    }
    assert forall|k: int| 0 <= k < es.len() implies {
        &&& (#[trigger] es[k]).0 < f.len()
        &&& es[k].0 != c
        &&& es[k].1 == sum_lab(p, f[es[k].0 as int])
        &&& sum_lab(p, f[es[k].0 as int]) > 0
    } by {
        assert(m.contains_key(es[k].0));
    }
}

/// The total weight of a group of nodes is their self-loop weight plus the
/// weight of their labelled links.
proof fn lemma_wt_flat(nodes: Seq<Community>, tmp: Seq<usize>, ch: Seq<usize>)
    requires
        children_ok(nodes, ch),
    ensures
        wt_sum(nodes, ch) == sl_sum(nodes, ch) + sum_all(flat_lab(nodes, tmp, ch)),
    decreases ch.len(),
{
    if ch.len() > 0 {
        assert(children_ok(nodes, ch.drop_last()));
        lemma_wt_flat(nodes, tmp, ch.drop_last());
        assert(ch[ch.len() - 1] < nodes.len());
        lemma_weight_lab(nodes, tmp, ch.last());
        lemma_sum_concat(flat_lab(nodes, tmp, ch.drop_last()), lab_edges(nodes, tmp, ch.last()), pair_weight_fn());
    }
}

/// The graph built by `aggregate` is well formed and stands for the same persons.
proof fn lemma_aggregate_wf(
    old: Graph,
    tmp: Seq<usize>,
    f: Seq<usize>,
    comms1: Seq<Community>,
    new_nodes: Seq<Community>,
)
    requires
        old.wf(),
        tmp.len() == old.nodes@.len(),
        f == firsts(tmp),
        f.no_duplicates(),
        comms1.len() == f.len(),
        new_nodes.len() == f.len(),
        forall|cc: int| 0 <= cc < f.len() ==> (#[trigger] comms1[cc]).children_view() == members(tmp, f[cc]),
        forall|cc: int| 0 <= cc < f.len() ==> community_matches(old.nodes@, tmp, f, cc, #[trigger] new_nodes[cc]),
        sum_of(comms1, children_weight_fn(old.nodes@)) == sum_of(old.nodes@, weight_fn()),
        msum_of(comms1, children_mset_fn(old.nodes@)) == msum_of(old.nodes@, pm_fn()),
    ensures
        graph_view_wf(new_nodes, old.total_links),
        msum_of(new_nodes, pm_fn()) == msum_of(old.nodes@, pm_fn()),
        sum_of(new_nodes, degree_fn()) == sum_of(old.nodes@, weight_fn()),
{
    let nodes = old.nodes@;
    let n = nodes.len();
    // Children of each community, and their indices stay inside the old graph.
    assert forall|cc: int| 0 <= cc < f.len() implies children_ok(nodes, #[trigger] new_nodes[cc].children_view()) by {
        lemma_members_bounds(tmp, f[cc]);
    }
    // Children weights of new and first-pass communities agree.
    lemma_sum_eq(new_nodes, comms1, children_weight_fn(nodes), children_weight_fn(nodes));
    lemma_msum_eq(new_nodes, comms1, children_mset_fn(nodes), children_mset_fn(nodes));
    // Degree of each new community is its children's weight.
    lemma_sum_eq(new_nodes, new_nodes, degree_fn(), children_weight_fn(nodes));
    // Each community's own weight is at most its degree.
    assert forall|cc: int| 0 <= cc < f.len() implies weight_fn()(#[trigger] new_nodes[cc]) <= children_weight_fn(nodes)(new_nodes[cc]) by {
        let cm = new_nodes[cc];
        let ch = members(tmp, f[cc]);
        let p = flat_lab(nodes, tmp, ch);
        let t = f[cc];
        lemma_members_bounds(tmp, t);
        lemma_wt_flat(nodes, tmp, ch);
        let es = cm.edges_view();
        let us = es.map_values(|e: (usize, usize)| f[e.0 as int]);
        assert(us.no_duplicates()) by {
            assert forall|i: int, j: int| 0 <= i < us.len() && 0 <= j < us.len() && i != j implies us[i] != us[j] by {
                if i < j {
                    assert(es[i].0 != es[j].0);
                } else {
                    assert(es[j].0 != es[i].0);
                }
                assert(es[i].0 < f.len() && es[j].0 < f.len());
            }
        }
        assert(!us.contains(t)) by {
            if us.contains(t) {
                let k = choose|k: int| 0 <= k < us.len() && us[k] == t;
                assert(es[k].0 < f.len() && es[k].0 != cc);
            }
        }
        lemma_distinct_labels(p, us, t);
        lemma_sum_eq(cm.neighbors@, us, edge_weight_fn(), |u: usize| sum_lab(p, u));
    }
    lemma_sum_le(new_nodes, weight_fn(), children_weight_fn(nodes));
    // Persons of each new community are those of its children.
    assert forall|cc: int| 0 <= cc < f.len() implies pm_fn()(#[trigger] new_nodes[cc]) == children_mset_fn(nodes)(new_nodes[cc]) by {
        lemma_flat_persons_mset(nodes, new_nodes[cc].children_view());
    }
    lemma_msum_eq(new_nodes, new_nodes, pm_fn(), children_mset_fn(nodes));
    assert(sum_of(new_nodes, degree_fn()) <= old.total_links);
    // Every new community stands for some person.
    assert forall|cc: int| 0 <= cc < f.len() implies (#[trigger] new_nodes[cc]).persons().len() > 0 by {
        lemma_firsts(tmp);
        lemma_members_bounds(tmp, f[cc]);
        lemma_members_nonempty(tmp, f[cc]);
        lemma_flat_persons_nonempty(nodes, members(tmp, f[cc]));
    }
    // Links of each new community.
    assert forall|cc: int| 0 <= cc < f.len() implies {
        &&& (#[trigger] new_nodes[cc]).links_ok(f.len() as int)
        &&& new_nodes[cc].payload is Some
    } by {
        let cm = new_nodes[cc];
        let es = cm.edges_view();
        assert forall|k: int| 0 <= k < cm.neighbors@.len() implies {
            &&& (#[trigger] cm.neighbors@[k]).other.0 < f.len()
            &&& cm.neighbors@[k].weight >= 1
        } by {
            assert(es[k] == (cm.neighbors@[k].other.0, cm.neighbors@[k].weight));
        }
    }
}


// ---------------------------------------------------------------------------
// Local moving: nodes move, one at a time, to the neighbouring community with
// the best modularity gain.
// ---------------------------------------------------------------------------

/// Number of passes after which local moving stops even if nodes still move.
pub const MAX_PASSES: usize = 50;

/// Sum of the degrees of the first `k` nodes.
pub closed spec fn total_deg(nodes: Seq<Community>, k: int) -> int
    decreases k,
{
    if k <= 0 {
        0
    } else {
        total_deg(nodes, k - 1) + nodes[k - 1].degree
    }
}

/// Sum of the degrees of the first `k` nodes assigned to community `c`.
pub closed spec fn comm_deg(nodes: Seq<Community>, tmp: Seq<usize>, c: usize, k: int) -> int
    decreases k,
{
    if k <= 0 {
        0
    } else {
        comm_deg(nodes, tmp, c, k - 1) + (if tmp[k - 1] == c { nodes[k - 1].degree as int } else { 0 })
    }
}

/// The labels (current communities) of the targets of node `pos`'s links.
pub closed spec fn node_labels(nodes: Seq<Community>, tmp: Seq<usize>, pos: usize) -> Seq<usize> {
    lab_edges(nodes, tmp, pos).map_values(|p: (usize, usize)| p.0)
}

/// The communities next to node `pos`, in order of first appearance among its links.
pub closed spec fn candidates(nodes: Seq<Community>, tmp: Seq<usize>, pos: usize) -> Seq<usize> {
    firsts(node_labels(nodes, tmp, pos))
}

/// The modularity gain of moving node `pos` to community `c`, scaled by the
/// graph's link count `g` (which keeps it an integer): the weight of the
/// node's links into `c`, times `g`, minus the degree of `c` without the node,
/// times the node's degree.
pub closed spec fn gain_value(nodes: Seq<Community>, tmp: Seq<usize>, tot: Seq<usize>, pos: usize, c: usize, g: int) -> int {
    let d = nodes[pos as int].degree as int;
    let l = sum_lab(lab_edges(nodes, tmp, pos), c);
    let t = if c == tmp[pos as int] { tot[c as int] - d } else { tot[c as int] as int };
    l * g - t * d
}

/// The best community among `cs` for node `pos`: the first one whose gain is
/// strictly above every earlier one and above 0; the node's own community
/// when none is.
pub closed spec fn best_among(
    nodes: Seq<Community>,
    tmp: Seq<usize>,
    tot: Seq<usize>,
    pos: usize,
    g: int,
    cs: Seq<usize>,
) -> (usize, int)
    decreases cs.len(),
{
    if cs.len() == 0 {
        (tmp[pos as int], 0)
    } else {
        let prev = best_among(nodes, tmp, tot, pos, g, cs.drop_last());
        let v = gain_value(nodes, tmp, tot, pos, cs.last(), g);
        if v > prev.1 {
            (cs.last(), v)
        } else {
            prev
        }
    }
}

/// The state of local moving: assignment, community degrees, moves in this pass.
pub struct MoveState {
    pub tmp: Seq<usize>,
    pub tot: Seq<usize>,
    pub changed: nat,
}

/// Moves node `pos` to its best community, updating the community degrees.
pub closed spec fn move_node(nodes: Seq<Community>, g: int, st: MoveState, pos: usize) -> MoveState {
    let own = st.tmp[pos as int];
    let d = nodes[pos as int].degree;
    let b = best_among(nodes, st.tmp, st.tot, pos, g, candidates(nodes, st.tmp, pos)).0;
    if b != own {
        MoveState {
            tmp: st.tmp.update(pos as int, b),
            tot: st.tot.update(own as int, (st.tot[own as int] - d) as usize).update(
                b as int,
                (st.tot[b as int] + d) as usize,
            ),
            changed: st.changed + 1,
        }
    } else {
        st
    }
}

/// The state after moving the nodes `order[0..k]` in turn.
pub closed spec fn pass_prefix(nodes: Seq<Community>, g: int, st: MoveState, order: Seq<usize>, k: int) -> MoveState
    decreases k,
{
    if k <= 0 {
        st
    } else {
        move_node(nodes, g, pass_prefix(nodes, g, st, order, k - 1), order[k - 1])
    }
}

/// Passes over `order` until at most one node in a hundred moves in a pass, or
/// `MAX_PASSES` passes are done; the final assignment.
pub closed spec fn moving(nodes: Seq<Community>, g: int, order: Seq<usize>, st: MoveState, cnt: nat) -> Seq<usize>
    decreases MAX_PASSES - cnt,
{
    if st.changed > nodes.len() / 100 && cnt < MAX_PASSES {
        let next = pass_prefix(nodes, g, MoveState { tmp: st.tmp, tot: st.tot, changed: 0 }, order, order.len() as int);
        moving(nodes, g, order, next, cnt + 1)
    } else {
        st.tmp
    }
}

/// The assignment that local moving reaches from one community per node.
pub closed spec fn local_moving_spec(nodes: Seq<Community>, g: int, order: Seq<usize>) -> Seq<usize> {
    let n = nodes.len();
    moving(
        nodes,
        g,
        order,
        MoveState {
            tmp: Seq::new(n, |i: int| i as usize),
            tot: Seq::new(n, |i: int| nodes[i].degree),
            changed: n,
        },
        0,
    )
}

proof fn lemma_total_deg(nodes: Seq<Community>, k: int)
    requires
        0 <= k <= nodes.len(),
    ensures
        total_deg(nodes, k) == sum_of(nodes.take(k), degree_fn()),
    decreases k,
{
    if k > 0 {
        lemma_total_deg(nodes, k - 1);
        assert(nodes.take(k).drop_last() =~= nodes.take(k - 1));
    } else {
        assert(nodes.take(k) =~= Seq::<Community>::empty());
    }
}

proof fn lemma_total_deg_mono(nodes: Seq<Community>, j: int, k: int)
    requires
        0 <= j <= k,
    ensures
        total_deg(nodes, j) <= total_deg(nodes, k),
        j < k ==> total_deg(nodes, j) + nodes[j].degree <= total_deg(nodes, k),
    decreases k - j,
{
    if j < k {
        lemma_total_deg_mono(nodes, j, k - 1);
        if j < k - 1 {
            lemma_total_deg_mono(nodes, j + 1, k - 1);
        }
    }
}

proof fn lemma_comm_deg_update(nodes: Seq<Community>, tmp: Seq<usize>, p: int, b: usize, c: usize, k: int)
    requires
        0 <= p < tmp.len(),
        k <= tmp.len(),
    ensures
        comm_deg(nodes, tmp.update(p, b), c, k) == comm_deg(nodes, tmp, c, k) - (if p < k && tmp[p] == c {
            nodes[p].degree as int
        } else {
            0
        }) + (if p < k && b == c {
            nodes[p].degree as int
        } else {
            0
        }),
    decreases k,
{
    if k > 0 {
        lemma_comm_deg_update(nodes, tmp, p, b, c, k - 1);
    }
}

proof fn lemma_comm_deg_bound(nodes: Seq<Community>, tmp: Seq<usize>, c: usize, p: int, k: int)
    ensures
        comm_deg(nodes, tmp, c, k) + (if 0 <= p < k && tmp[p] != c { nodes[p].degree as int } else { 0 })
            <= total_deg(nodes, k),
        0 <= p < k && tmp[p] == c ==> comm_deg(nodes, tmp, c, k) >= nodes[p].degree,
        comm_deg(nodes, tmp, c, k) >= 0,
    decreases k,
{
    if k > 0 {
        lemma_comm_deg_bound(nodes, tmp, c, p, k - 1);
    }
}

proof fn lemma_comm_deg_identity(nodes: Seq<Community>, c: usize, k: int)
    requires
        0 <= k <= nodes.len(),
        nodes.len() <= usize::MAX,
    ensures
        comm_deg(nodes, Seq::new(nodes.len(), |i: int| i as usize), c, k) == (if (c as int) < k && (c as int) < nodes.len() {
            nodes[c as int].degree as int
        } else {
            0
        }),
    decreases k,
{
    if k > 0 {
        lemma_comm_deg_identity(nodes, c, k - 1);
    }
}

/// With links of weight at least 1, a label has positive weight exactly when
/// some link carries it.
proof fn lemma_sum_lab_pos(s: Seq<(usize, usize)>, t: usize)
    requires
        forall|i: int| 0 <= i < s.len() ==> (#[trigger] s[i]).1 >= 1,
    ensures
        sum_lab(s, t) > 0 <==> s.map_values(|p: (usize, usize)| p.0).contains(t),
    decreases s.len(),
{
    if s.len() > 0 {
        let s0 = s.drop_last();
        assert(s0.push(s.last()) =~= s);
        lemma_sum_lab_pos(s0, t);
        lemma_sum_lab_push(s0, s.last(), t);
        lemma_sum_lab_nonneg(s0, t);
        let m = s.map_values(|p: (usize, usize)| p.0);
        let m0 = s0.map_values(|p: (usize, usize)| p.0);
        assert(m0 =~= m.drop_last());
        if m0.contains(t) {
            let k = choose|k: int| 0 <= k < m0.len() && m0[k] == t;
            assert(m[k] == t);
        }
        if m.contains(t) && s.last().0 != t {
            let k = choose|k: int| 0 <= k < m.len() && m[k] == t;
            assert(k < m.len() - 1);
            assert(m0[k] == t);
        }
        if s.last().0 == t {
            assert(m[m.len() - 1] == t);
        }
    } else {
        assert(s.map_values(|p: (usize, usize)| p.0).len() == 0);
    }
}

proof fn lemma_firsts_contains(s: Seq<usize>, v: usize)
    ensures
        firsts(s).contains(v) <==> s.contains(v),
{
    lemma_firsts(s);
    if s.contains(v) {
        let j = choose|j: int| 0 <= j < s.len() && s[j] == v;
        assert(firsts(s).contains(s[j]));
    }
    if firsts(s).contains(v) {
        let c = choose|c: int| 0 <= c < firsts(s).len() && firsts(s)[c] == v;
        assert(s.contains(firsts(s)[c]));
    }
}

proof fn lemma_mul_bound(a: int, b: int, bound: int)
    requires
        0 <= a <= bound,
        0 <= b <= bound,
    ensures
        0 <= a * b <= bound * bound,
{
    assert(0 <= a * b <= bound * bound) by (nonlinear_arith)
        requires
            0 <= a <= bound,
            0 <= b <= bound,
    ;
}

/// Facts about a well-formed level used while moving its nodes.
pub closed spec fn move_inv(nodes: Seq<Community>, g: int, tmp: Seq<usize>, tot: Seq<usize>) -> bool {
    let n = nodes.len();
    &&& tmp.len() == n
    &&& tot.len() == n
    &&& forall|j: int| 0 <= j < n ==> #[trigger] tmp[j] < n
    &&& forall|c: int| 0 <= c < n ==> #[trigger] tot[c] == comm_deg(nodes, tmp, c as usize, n as int)
}

impl Graph {
    /// Local moving over the nodes in the order `order`; returns the
    /// community each node ends up in (an index of one of the nodes).
    fn local_moving(&self, order: &Vec<usize>) -> (tmp_comm: Vec<usize>)
        requires
            self.wf(),
            order@.len() == self.nodes@.len(),
            forall|k: int| 0 <= k < order@.len() ==> #[trigger] order@[k] < self.nodes@.len(),
        ensures
            tmp_comm@ == local_moving_spec(self.nodes@, self.total_links as int, order@),
            tmp_comm@.len() == self.nodes@.len(),
            forall|i: int| 0 <= i < tmp_comm@.len() ==> #[trigger] tmp_comm@[i] < self.nodes@.len(),
    {
        let ghost nodes = self.nodes@;
        let ghost gi = self.total_links as int;
        let n = self.nodes.len();
        let g_total = self.total_links;
        proof {
            lemma_total_deg(nodes, n as int);
            assert(nodes.take(n as int) =~= nodes);
        }
        let mut tmp_comm: Vec<usize> = Vec::new();
        let mut comm_total: Vec<usize> = Vec::new();
        let mut neigh_links: Vec<usize> = Vec::new();
        let mut i: usize = 0;
        while i < n
            invariant
                i <= n,
                n == nodes.len(),
                nodes == self.nodes@,
                tmp_comm@.len() == i,
                comm_total@.len() == i,
                neigh_links@.len() == i,
                forall|j: int| 0 <= j < i ==> #[trigger] tmp_comm@[j] == j,
                forall|j: int| 0 <= j < i ==> #[trigger] comm_total@[j] == nodes[j].degree,
                forall|j: int| 0 <= j < i ==> #[trigger] neigh_links@[j] == 0,
            decreases n - i,
        {
            tmp_comm.push(i);
            comm_total.push(self.nodes[i].degree);
            neigh_links.push(0);
            i += 1;
        }
        let mut neigh_comm: Vec<usize> = Vec::new();
        let ghost init = MoveState {
            tmp: Seq::new(n as nat, |i: int| i as usize),
            tot: Seq::new(n as nat, |i: int| nodes[i].degree),
            changed: n as nat,
        };
        proof {
            assert(tmp_comm@ =~= init.tmp);
            assert(comm_total@ =~= init.tot);
            assert forall|c: int| 0 <= c < n implies #[trigger] comm_total@[c] == comm_deg(nodes, tmp_comm@, c as usize, n as int) by {
                lemma_comm_deg_identity(nodes, c as usize, n as int);
            }
        }
        let mut changed: usize = n;
        let mut cnt: usize = 0;
        let change_limit = n / 100;
        while changed > change_limit && cnt < MAX_PASSES
            invariant
                n == nodes.len(),
                nodes == self.nodes@,
                gi == g_total,
                g_total == self.total_links,
                self.wf(),
                total_deg(nodes, n as int) <= g_total,
                order@.len() == n,
                forall|k: int| 0 <= k < order@.len() ==> #[trigger] order@[k] < n,
                change_limit == n / 100,
                cnt <= MAX_PASSES,
                changed <= n,
                move_inv(nodes, gi, tmp_comm@, comm_total@),
                neigh_links@.len() == n,
                forall|c: int| 0 <= c < neigh_comm@.len() ==> #[trigger] neigh_comm@[c] < n,
                forall|c: int| 0 <= c < n && !neigh_comm@.contains(c as usize) ==> #[trigger] neigh_links@[c] == 0,
                moving(nodes, gi, order@, MoveState { tmp: tmp_comm@, tot: comm_total@, changed: changed as nat }, cnt as nat)
                    == local_moving_spec(nodes, gi, order@),
            decreases MAX_PASSES - cnt,
        {
            cnt += 1;
            changed = 0;
            let ghost start = MoveState { tmp: tmp_comm@, tot: comm_total@, changed: 0 };
            let mut k: usize = 0;
            while k < order.len()
                invariant
                    n == nodes.len(),
                    nodes == self.nodes@,
                    gi == g_total,
                    g_total == self.total_links,
                    self.wf(),
                    total_deg(nodes, n as int) <= g_total,
                    order@.len() == n,
                    forall|kk: int| 0 <= kk < order@.len() ==> #[trigger] order@[kk] < n,
                    k <= n,
                    changed <= k,
                    move_inv(nodes, gi, tmp_comm@, comm_total@),
                    neigh_links@.len() == n,
                    forall|c: int| 0 <= c < neigh_comm@.len() ==> #[trigger] neigh_comm@[c] < n,
                    forall|c: int| 0 <= c < n && !neigh_comm@.contains(c as usize) ==> #[trigger] neigh_links@[c] == 0,
                    pass_prefix(nodes, gi, start, order@, k as int)
                        == (MoveState { tmp: tmp_comm@, tot: comm_total@, changed: changed as nat }),
                decreases n - k,
            {
                let pos = order[k];
                self.move_one(pos, &mut tmp_comm, &mut comm_total, &mut neigh_links, &mut neigh_comm, &mut changed);
                k += 1;
            }
            proof {
                assert(order@.len() == n);
            }
        }
        tmp_comm
    }

    /// Moves node `pos` to its best community (see `best_among`).
    fn move_one(
        &self,
        pos: usize,
        tmp_comm: &mut Vec<usize>,
        comm_total: &mut Vec<usize>,
        neigh_links: &mut Vec<usize>,
        neigh_comm: &mut Vec<usize>,
        changed: &mut usize,
    )
        requires
            self.wf(),
            pos < self.nodes@.len(),
            total_deg(self.nodes@, self.nodes@.len() as int) <= self.total_links,
            move_inv(self.nodes@, self.total_links as int, old(tmp_comm)@, old(comm_total)@),
            old(neigh_links)@.len() == self.nodes@.len(),
            forall|c: int| 0 <= c < old(neigh_comm)@.len() ==> #[trigger] old(neigh_comm)@[c] < self.nodes@.len(),
            forall|c: int|
                0 <= c < self.nodes@.len() && !old(neigh_comm)@.contains(c as usize) ==> #[trigger] old(neigh_links)@[c] == 0,
            *old(changed) < self.nodes@.len(),
        ensures
            move_inv(self.nodes@, self.total_links as int, final(tmp_comm)@, final(comm_total)@),
            final(neigh_links)@.len() == self.nodes@.len(),
            forall|c: int| 0 <= c < final(neigh_comm)@.len() ==> #[trigger] final(neigh_comm)@[c] < self.nodes@.len(),
            forall|c: int|
                0 <= c < self.nodes@.len() && !final(neigh_comm)@.contains(c as usize) ==> #[trigger] final(neigh_links)@[c] == 0,
            (MoveState { tmp: final(tmp_comm)@, tot: final(comm_total)@, changed: *final(changed) as nat })
                == move_node(
                self.nodes@,
                self.total_links as int,
                MoveState { tmp: old(tmp_comm)@, tot: old(comm_total)@, changed: *old(changed) as nat },
                pos,
            ),
            *final(changed) <= *old(changed) + 1,
    {
        let ghost nodes = self.nodes@;
        let ghost gi = self.total_links as int;
        let ghost tmp = tmp_comm@;
        let ghost tot = comm_total@;
        let n = self.nodes.len();
        let g_total = self.total_links;
        let node = &self.nodes[pos];
        let node_tmp_comm = tmp_comm[pos];
        let node_degree = node.degree;
        let ghost lab = lab_edges(nodes, tmp, pos);
        proof {
            lemma_total_deg_mono(nodes, pos as int, n as int);
            assert(nodes[pos as int].links_ok(n as int));
            lemma_weight_lab(nodes, tmp, pos);
            lemma_sum_lab_nonneg(lab, 0);
            lemma_sum_nonneg_bounds_term_wt(nodes, pos as int);
        }
        // Clear the scratch counters of the previous node.
        let mut r: usize = 0;
        let ghost nc0 = neigh_comm@;
        proof {
            assert(neigh_comm@.subrange(0, neigh_comm@.len() as int) =~= neigh_comm@);
        }
        while r < neigh_comm.len()
            invariant
                r <= neigh_comm@.len(),
                neigh_comm@ == nc0,
                n == nodes.len(),
                neigh_links@.len() == n,
                forall|c: int| 0 <= c < neigh_comm@.len() ==> #[trigger] neigh_comm@[c] < n,
                forall|c: int|
                    0 <= c < n && !neigh_comm@.subrange(r as int, neigh_comm@.len() as int).contains(c as usize)
                        ==> #[trigger] neigh_links@[c] == 0,
            decreases neigh_comm@.len() - r,
        {
            let cc = neigh_comm[r];
            neigh_links.set(cc, 0);
            proof {
                assert forall|c: int|
                    0 <= c < n && !neigh_comm@.subrange(r + 1, neigh_comm@.len() as int).contains(c as usize)
                        implies #[trigger] neigh_links@[c] == 0 by {
                    if c != cc && neigh_comm@.subrange(r as int, neigh_comm@.len() as int).contains(c as usize) {
                        let q = choose|q: int|
                            0 <= q < neigh_comm@.len() - r && neigh_comm@.subrange(r as int, neigh_comm@.len() as int)[q] == c as usize;
                        assert(q != 0);
                        assert(neigh_comm@.subrange(r + 1, neigh_comm@.len() as int)[q - 1] == c as usize);
                    }
                }
            }
            r += 1;
        }
        proof {
            assert(neigh_comm@.subrange(r as int, neigh_comm@.len() as int) =~= Seq::<usize>::empty());
            assert forall|c: int| 0 <= c < n implies #[trigger] neigh_links@[c] == 0 by {
                assert(!neigh_comm@.subrange(r as int, neigh_comm@.len() as int).contains(c as usize));
            }
        }
        neigh_comm.clear();
        // Gather the link weights towards each neighbouring community.
        let ne = node.neighbors.len();
        let mut e: usize = 0;
        proof {
            assert(lab.take(0) =~= Seq::<(usize, usize)>::empty());
            assert forall|c: int| 0 <= c < n implies #[trigger] neigh_links@[c] == sum_lab(lab.take(0), c as usize) by {
                assert(neigh_links@[c] == 0);
            }
            assert(node_labels(nodes, tmp, pos).take(0) =~= Seq::<usize>::empty());
        }
        while e < ne
            invariant
                n == nodes.len(),
                nodes == self.nodes@,
                tmp == tmp_comm@,
                tmp.len() == n,
                *node == nodes[pos as int],
                node.links_ok(n as int),
                forall|j: int| 0 <= j < n ==> #[trigger] tmp[j] < n,
                lab == lab_edges(nodes, tmp, pos),
                ne == lab.len(),
                e <= ne,
                sum_all(lab) <= g_total,
                g_total < link_bound(),
                neigh_links@.len() == n,
                neigh_comm@ == firsts(node_labels(nodes, tmp, pos).take(e as int)),
                forall|c: int| 0 <= c < neigh_comm@.len() ==> #[trigger] neigh_comm@[c] < n,
                forall|c: int| 0 <= c < n ==> #[trigger] neigh_links@[c] == sum_lab(lab.take(e as int), c as usize),
            decreases ne - e,
        {
            let link = &node.neighbors[e];
            let to = tmp_comm[link.other.0];
            let weight = link.weight;
            let ghost s0 = lab.take(e as int);
            proof {
                assert(lab[e as int] == (to, weight));
                assert(lab.take(e + 1) =~= s0.push((to, weight)));
                assert forall|q: int| 0 <= q < lab.len() implies (#[trigger] lab[q]).1 >= 1 by {
                    assert(node.neighbors@[q].weight >= 1);
                }
                assert forall|q: int| 0 <= q < s0.len() implies (#[trigger] s0[q]).1 >= 1 by {
                    assert(s0[q] == lab[q]);
                }
                lemma_sum_lab_pos(s0, to);
                lemma_firsts_contains(node_labels(nodes, tmp, pos).take(e as int), to);
                assert(node_labels(nodes, tmp, pos).take(e as int) =~= s0.map_values(|p: (usize, usize)| p.0));
                assert(node_labels(nodes, tmp, pos).take(e + 1) =~= node_labels(nodes, tmp, pos).take(e as int).push(to));
                assert(node_labels(nodes, tmp, pos).take(e + 1).drop_last() =~= node_labels(nodes, tmp, pos).take(e as int));
                assert forall|c: usize| true implies sum_lab(s0.push((to, weight)), c) == sum_lab(s0, c) + (if to == c {
                    weight as int
                } else {
                    0
                }) by {
                    lemma_sum_lab_push(s0, (to, weight), c);
                }
                lemma_sum_lab_nonneg(lab.take(e + 1), to);
                lemma_sum_prefix_le(lab, e + 1, pair_weight_fn());
                lemma_sum_lab_nonneg(s0, to);
            }
            if neigh_links[to] == 0 {
                neigh_comm.push(to);
                neigh_links.set(to, weight);
            } else {
                let v = neigh_links[to] + weight;
                neigh_links.set(to, v);
            }
            e += 1;
        }
        proof {
            assert(lab.take(ne as int) =~= lab);
            assert(node_labels(nodes, tmp, pos).take(ne as int) =~= node_labels(nodes, tmp, pos));
        }
        // Pick the best community.
        let ghost cs = neigh_comm@;
        let mut best_comm = node_tmp_comm;
        let mut best_l: u128 = 0;
        let mut best_t: u128 = 0;
        let mut q: usize = 0;
        proof {
            assert(cs.take(0) =~= Seq::<usize>::empty());
        }
        while q < neigh_comm.len()
            invariant
                n == nodes.len(),
                nodes == self.nodes@,
                tmp == tmp_comm@,
                tot == comm_total@,
                move_inv(nodes, gi, tmp, tot),
                gi == g_total,
                g_total < link_bound(),
                total_deg(nodes, n as int) <= g_total,
                pos < n,
                node_tmp_comm == tmp[pos as int],
                node_degree == nodes[pos as int].degree,
                node_degree <= g_total,
                neigh_comm@ == cs,
                cs == candidates(nodes, tmp, pos),
                q <= cs.len(),
                forall|c: int| 0 <= c < cs.len() ==> #[trigger] cs[c] < n,
                neigh_links@.len() == n,
                forall|c: int| 0 <= c < n ==> #[trigger] neigh_links@[c] == sum_lab(lab, c as usize),
                lab == lab_edges(nodes, tmp, pos),
                sum_all(lab) <= g_total,
                best_l <= g_total,
                best_t <= g_total,
                best_comm < n,
                best_among(nodes, tmp, tot, pos, gi, cs.take(q as int)).0 == best_comm,
                best_among(nodes, tmp, tot, pos, gi, cs.take(q as int)).1 == best_l * g_total - best_t * node_degree,
            decreases cs.len() - q,
        {
            let c = neigh_comm[q];
            let l = neigh_links[c];
            proof {
                lemma_comm_deg_bound(nodes, tmp, c, pos as int, n as int);
                lemma_sum_lab_nonneg(lab, c);
                assert(comm_total@[c as int] == comm_deg(nodes, tmp, c, n as int));
            }
            let t = if c == node_tmp_comm {
                comm_total[c] - node_degree
            } else {
                comm_total[c]
            };
            proof {
                let bound = 0x2000_0000_0000_0000int;
                lemma_mul_bound(l as int, g_total as int, bound);
                lemma_mul_bound(best_t as int, node_degree as int, bound);
                lemma_mul_bound(best_l as int, g_total as int, bound);
                lemma_mul_bound(t as int, node_degree as int, bound);
                assert(cs.take(q + 1).drop_last() =~= cs.take(q as int));
                assert(cs.take(q + 1).last() == c);
            }
            let lhs = (l as u128) * (g_total as u128) + best_t * (node_degree as u128);
            let rhs = best_l * (g_total as u128) + (t as u128) * (node_degree as u128);
            if lhs > rhs {
                best_comm = c;
                best_l = l as u128;
                best_t = t as u128;
            }
            q += 1;
        }
        proof {
            assert(cs.take(cs.len() as int) =~= cs);
            assert forall|qq: int| 0 <= qq < lab.len() implies (#[trigger] lab[qq]).1 >= 1 by {
                assert(nodes[pos as int].neighbors@[qq].weight >= 1);
            }
            assert(node_labels(nodes, tmp, pos) =~= lab.map_values(|p: (usize, usize)| p.0));
            assert forall|c: int| 0 <= c < n && !neigh_comm@.contains(c as usize) implies #[trigger] neigh_links@[c] == 0 by {
                lemma_firsts_contains(node_labels(nodes, tmp, pos), c as usize);
                lemma_sum_lab_pos(lab, c as usize);
                lemma_sum_lab_nonneg(lab, c as usize);
            }
        }
        if best_comm != node_tmp_comm {
            proof {
                lemma_comm_deg_bound(nodes, tmp, best_comm, pos as int, n as int);
                lemma_comm_deg_bound(nodes, tmp, node_tmp_comm, pos as int, n as int);
                assert(comm_total@[best_comm as int] == comm_deg(nodes, tmp, best_comm, n as int));
                assert(comm_total@[node_tmp_comm as int] == comm_deg(nodes, tmp, node_tmp_comm, n as int));
            }
            *changed = *changed + 1;
            tmp_comm.set(pos, best_comm);
            let own_total = comm_total[node_tmp_comm] - node_degree;
            comm_total.set(node_tmp_comm, own_total);
            let best_total = comm_total[best_comm] + node_degree;
            comm_total.set(best_comm, best_total);
            proof {
                assert forall|c: int| 0 <= c < n implies #[trigger] comm_total@[c] == comm_deg(nodes, tmp_comm@, c as usize, n as int) by {
                    lemma_comm_deg_update(nodes, tmp, pos as int, best_comm, c as usize, n as int);
                }
            }
        }
    }
}

/// A node's degree and total weight are bounded by the level's sums.
proof fn lemma_sum_nonneg_bounds_term_wt(nodes: Seq<Community>, i: int)
    requires
        0 <= i < nodes.len(),
    ensures
        nodes[i].weight_total() <= sum_of(nodes, weight_fn()),
        nodes[i].degree as int <= sum_of(nodes, degree_fn()),
{
    assert forall|j: int| 0 <= j < nodes.len() implies weight_fn()(#[trigger] nodes[j]) >= 0 by {
        lemma_weight_total_nonneg(nodes[j]);
    }
    lemma_sum_nonneg_bounds_term(nodes, i, weight_fn());
    lemma_sum_nonneg_bounds_term(nodes, i, degree_fn());
}


/// Number of levels after which `louvain` gives up.
pub const ITERATIONS: usize = 100;

/// The next level: one community per distinct value of `tmp`, as `aggregate`
/// builds it.
pub closed spec fn level_matches(nodes: Seq<Community>, tmp: Seq<usize>, next: Seq<Community>) -> bool {
    &&& next.len() == firsts(tmp).len()
    &&& forall|c: int| 0 <= c < next.len() ==> community_matches(nodes, tmp, firsts(tmp), c, #[trigger] next[c])
}

/// `order` lists each of `0..n` exactly once.
pub open spec fn is_order(order: Seq<usize>, n: nat) -> bool {
    order.to_multiset() == all_persons(n)
}

/// `next` is one level of the method run on `prev` (of link count `total`):
/// local moving in some visiting order, then one community per group.
pub open spec fn is_level(prev: Seq<Community>, total: int, next: Seq<Community>) -> bool {
    exists|order: Seq<usize>|
        is_order(order, prev.len()) && local_moving_spec(prev, total, order).len() == prev.len() && #[trigger] level_matches(
            prev,
            local_moving_spec(prev, total, order),
            next,
        )
}

/// Entry `i + 1` of `levels` is a level of entry `i`.
pub open spec fn level_step(levels: Seq<Seq<Community>>, total: int, i: int) -> bool {
    is_level(levels[i], total, levels[i + 1])
}

/// `levels` starts at `start` and each entry is a level of the one before.
pub open spec fn levels_from(start: Seq<Community>, total: int, levels: Seq<Seq<Community>>) -> bool {
    &&& levels.len() >= 1
    &&& levels[0] == start
    &&& forall|i: int| 0 <= i < levels.len() - 1 ==> #[trigger] level_step(levels, total, i)
}

/// Entry `i + 1` of `levels` has fewer nodes than entry `i`.
pub open spec fn shrinks(levels: Seq<Seq<Community>>, i: int) -> bool {
    levels[i + 1].len() < levels[i].len()
}

proof fn lemma_levels_push(start: Seq<Community>, total: int, levels: Seq<Seq<Community>>, next: Seq<Community>)
    requires
        levels_from(start, total, levels),
        is_level(levels.last(), total, next),
    ensures
        levels_from(start, total, levels.push(next)),
        levels.push(next).last() == next,
        levels.push(next).len() == levels.len() + 1,
        levels.push(next)[levels.len() - 1] == levels.last(),
{
    let l2 = levels.push(next);
    assert forall|i: int| 0 <= i < l2.len() - 1 implies #[trigger] level_step(l2, total, i) by {
        if i < levels.len() - 1 {
            assert(level_step(levels, total, i));
            assert(l2[i] == levels[i] && l2[i + 1] == levels[i + 1]);
        } else {
            assert(l2[i] == levels.last() && l2[i + 1] == next);
        }
    }
}

proof fn lemma_firsts_len(tmp: Seq<usize>)
    ensures
        firsts(tmp).len() <= tmp.len(),
    decreases tmp.len(),
{
    if tmp.len() > 0 {
        lemma_firsts_len(tmp.drop_last());
    }
}

/// An order that lists `0..n` once has `n` entries, all below `n`.
proof fn lemma_order_bounds(order: Seq<usize>, n: nat)
    requires
        is_order(order, n),
        n <= usize::MAX,
    ensures
        order.len() == n,
        forall|k: int| 0 <= k < order.len() ==> #[trigger] order[k] < n,
{
    broadcast use vstd::seq_lib::group_to_multiset_ensures;
    let ids = Seq::new(n, |i: int| i as usize);
    assert(order.len() == order.to_multiset().len());
    assert(ids.len() == ids.to_multiset().len());
    assert forall|k: int| 0 <= k < order.len() implies #[trigger] order[k] < n by {
        assert(order.to_multiset().count(order[k]) > 0);
        assert(ids.to_multiset().count(order[k]) > 0);
        assert(ids.contains(order[k]));
        let j = choose|j: int| 0 <= j < ids.len() && ids[j] == order[k];
        assert(ids[j] == j as usize);
    }
}

impl Graph {
    /// One level of the Louvain method: local moving over the nodes in an
    /// order that chance decides, then one community per group of nodes.
    pub fn next(self) -> (g: Graph)
        requires
            self.wf(),
        ensures
            g.wf(),
            g.total_links == self.total_links,
            persons_of(g.nodes@) == persons_of(self.nodes@),
            g.nodes@.len() <= self.nodes@.len(),
            g.nodes@.len() == 0 <==> self.nodes@.len() == 0,
            sum_of(g.nodes@, |c: Community| c.degree_view() as int) == sum_of(
                self.nodes@,
                |c: Community| c.weight_total(),
            ),
            exists|order: Seq<usize>|
                is_order(order, self.nodes@.len()) && local_moving_spec(self.nodes@, self.total_links as int, order).len()
                    == self.nodes@.len() && #[trigger] level_matches(
                    self.nodes@,
                    local_moving_spec(self.nodes@, self.total_links as int, order),
                    g.nodes@,
                ),
    {
        let n = self.nodes.len();
        let mut order: Vec<usize> = Vec::new();
        let mut i: usize = 0;
        while i < n
            invariant
                i <= n,
                order@ == Seq::new(i as nat, |j: int| j as usize),
            decreases n - i,
        {
            order.push(i);
            proof {
                assert(Seq::new((i + 1) as nat, |j: int| j as usize) =~= Seq::new(i as nat, |j: int| j as usize).push(i));
            }
            i += 1;
        }
        shuffle(&mut order);
        let ghost o = order@;
        let ghost nodes = self.nodes@;
        let ghost total = self.total_links;
        let g = self.next_in_order(&order);
        proof {
            assert(level_matches(nodes, local_moving_spec(nodes, total as int, o), g.nodes@));
        }
        g
    }

    /// One level of the Louvain method with the nodes visited in `order`:
    /// local moving, then one community per group of nodes.
    pub fn next_in_order(self, order: &Vec<usize>) -> (g: Graph)
        requires
            self.wf(),
            is_order(order@, self.nodes@.len()),
        ensures
            g.wf(),
            g.total_links == self.total_links,
            persons_of(g.nodes@) == persons_of(self.nodes@),
            g.nodes@.len() <= self.nodes@.len(),
            g.nodes@.len() == 0 <==> self.nodes@.len() == 0,
            sum_of(g.nodes@, |c: Community| c.degree_view() as int) == sum_of(
                self.nodes@,
                |c: Community| c.weight_total(),
            ),
            local_moving_spec(self.nodes@, self.total_links as int, order@).len() == self.nodes@.len(),
            level_matches(self.nodes@, local_moving_spec(self.nodes@, self.total_links as int, order@), g.nodes@),
    {
        let n = self.nodes.len();
        proof {
            lemma_order_bounds(order@, n as nat);
        }
        let tmp_comm = self.local_moving(order);
        proof {
            lemma_firsts_len(tmp_comm@);
        }
        let ghost nodes = self.nodes@;
        let ghost total = self.total_links;
        let g = self.aggregate(&tmp_comm);
        proof {
            assert(level_matches(nodes, local_moving_spec(nodes, total as int, order@), g.nodes@));
            assert(degree_fn() =~= (|c: Community| c.degree_view() as int));
            assert(weight_fn() =~= (|c: Community| c.weight_total()));
            if n > 0 {
                lemma_firsts(tmp_comm@);
                assert(firsts(tmp_comm@).contains(tmp_comm@[0]));
            }
        }
        g
    }

    /// Runs levels until one leaves the number of nodes unchanged, and returns
    /// that level; `None` when `ITERATIONS` levels all changed it.
    pub fn louvain(self) -> (r: Option<Graph>)
        requires
            self.wf(),
        ensures
            self.nodes@.len() <= ITERATIONS ==> r is Some,
            r is None ==> exists|levels: Seq<Seq<Community>>|
                #[trigger] levels_from(self.nodes@, self.total_links as int, levels) && levels.len() == ITERATIONS + 1
                    && forall|i: int| 0 <= i < ITERATIONS ==> #[trigger] shrinks(levels, i),
            r matches Some(g) ==> {
                &&& g.wf()
                &&& g.total_links == self.total_links
                &&& persons_of(g.nodes@) == persons_of(self.nodes@)
                &&& g.nodes@.len() <= self.nodes@.len()
                &&& exists|levels: Seq<Seq<Community>>|
                    #[trigger] levels_from(self.nodes@, self.total_links as int, levels) && 2 <= levels.len()
                        <= ITERATIONS + 1 && levels.last() == g.nodes@ && levels[levels.len() - 2].len()
                        == g.nodes@.len()
            },
    {
        let ghost total = self.total_links;
        let ghost persons0 = persons_of(self.nodes@);
        let ghost n0 = self.nodes@.len();
        let ghost start = self.nodes@;
        let ghost mut levels: Seq<Seq<Community>> = seq![self.nodes@];
        let mut g = self;
        let mut i: usize = 0;
        while i < ITERATIONS
            invariant
                g.wf(),
                total == self.total_links,
                persons0 == persons_of(self.nodes@),
                n0 == self.nodes@.len(),
                start == self.nodes@,
                g.total_links == total,
                persons_of(g.nodes@) == persons0,
                g.nodes@.len() <= n0,
                i <= ITERATIONS,
                n0 > 0 ==> g.nodes@.len() > 0,
                g.nodes@.len() + i <= n0,
                levels_from(start, total as int, levels),
                levels.len() == i + 1,
                levels.last() == g.nodes@,
                forall|j: int| 0 <= j < i ==> #[trigger] shrinks(levels, j),
            decreases ITERATIONS - i,
        {
            let old_stats = g.stats();
            let ghost prev = g;
            g = g.next();
            let new_stats = g.stats();
            let ghost before = levels;
            proof {
                lemma_levels_push(start, total as int, levels, g.nodes@);
                levels = levels.push(g.nodes@);
                assert forall|j: int| 0 <= j < i implies #[trigger] shrinks(levels, j) by {
                    assert(shrinks(before, j));
                    assert(levels[j] == before[j] && levels[j + 1] == before[j + 1]);
                }
            }
            if old_stats.0 == new_stats.0 && old_stats.1 == new_stats.1 {
                proof {
                    assert(levels[levels.len() - 2] == prev.nodes@);
                }
                return Some(g);
            }
            proof {
                assert(shrinks(levels, i as int));
            }
            i += 1;
        }
        None
    }
}


/// Every community of a well-formed level has a payload, holding at least
/// one person.
pub proof fn lemma_level_payloads(g: Graph)
    requires
        g.wf(),
    ensures
        forall|i: int| 0 <= i < g.nodes@.len() ==> (#[trigger] g.nodes@[i]).has_payload(),
        forall|i: int| 0 <= i < g.nodes@.len() ==> (#[trigger] g.nodes@[i]).persons().len() > 0,
{
}

impl Community {
    /// The persons the community stands for.
    pub fn payload_persons(&self) -> (r: &[PersonId])
        requires
            self.has_payload(),
        ensures
            r@ == self.persons(),
    {
        match &self.payload {
            Some(p) => p.as_slice(),
            None => {
                proof {
                    assert(false);
                }
                &[]
            },
        }
    }
}

/// When a level holds each of `0..n` once, every person of its communities
/// is below `n`.
pub proof fn lemma_level_persons_in_range(nodes: Seq<Community>, n: nat, i: int, k: int)
    requires
        persons_of(nodes) == all_persons(n),
        0 <= i < nodes.len(),
        0 <= k < nodes[i].persons().len(),
    ensures
        nodes[i].persons()[k].0 < n,
{
    broadcast use vstd::seq_lib::group_to_multiset_ensures;
    let x = nodes[i].persons()[k].0;
    let ps = nodes[i].persons().map_values(|p: PersonId| p.0);
    assert(ps[k] == x);
    assert(ps.contains(x));
    assert(person_mset(nodes[i]).count(x) > 0);
    lemma_msum_term(nodes, pm_fn(), i, x);
    let ids = Seq::new(n, |j: int| j as usize);
    assert(ids.to_multiset().count(x) > 0);
    assert(ids.contains(x));
}

proof fn lemma_msum_term(s: Seq<Community>, f: spec_fn(Community) -> Multiset<usize>, i: int, x: usize)
    requires
        0 <= i < s.len(),
    ensures
        f(s[i]).count(x) <= msum_of(s, f).count(x),
    decreases s.len(),
{
    if i < s.len() - 1 {
        lemma_msum_term(s.drop_last(), f, i, x);
        assert(s.drop_last()[i] == s[i]);
    }
}


impl Graph {
    /// Runs levels until one leaves the number of nodes and links unchanged,
    /// at most `ITERATIONS` of them, and returns the last level reached.
    pub fn run_levels(self) -> (g: Graph)
        requires
            self.wf(),
        ensures
            g.wf(),
            g.total_links == self.total_links,
            persons_of(g.nodes@) == persons_of(self.nodes@),
            g.nodes@.len() <= self.nodes@.len(),
            exists|levels: Seq<Seq<Community>>|
                #[trigger] levels_from(self.nodes@, self.total_links as int, levels) && 2 <= levels.len() <= ITERATIONS
                    + 1 && levels.last() == g.nodes@ && (levels[levels.len() - 2].len() == g.nodes@.len() || levels.len()
                    == ITERATIONS + 1) && (self.nodes@.len() <= ITERATIONS ==> levels[levels.len() - 2].len()
                    == g.nodes@.len()) && forall|i: int| 0 <= i < levels.len() - 2 ==> #[trigger] shrinks(levels, i),
    {
        let ghost total = self.total_links;
        let ghost persons0 = persons_of(self.nodes@);
        let ghost n0 = self.nodes@.len();
        let ghost start = self.nodes@;
        let ghost mut levels: Seq<Seq<Community>> = seq![self.nodes@];
        let mut g = self;
        let mut i: usize = 0;
        while i < ITERATIONS
            invariant
                g.wf(),
                total == self.total_links,
                persons0 == persons_of(self.nodes@),
                n0 == self.nodes@.len(),
                start == self.nodes@,
                g.total_links == total,
                persons_of(g.nodes@) == persons0,
                g.nodes@.len() <= n0,
                i <= ITERATIONS,
                n0 > 0 ==> g.nodes@.len() > 0,
                g.nodes@.len() + i <= n0,
                levels_from(start, total as int, levels),
                levels.len() == i + 1,
                levels.last() == g.nodes@,
                forall|j: int| 0 <= j < i ==> #[trigger] shrinks(levels, j),
            decreases ITERATIONS - i,
        {
            let old_stats = g.stats();
            let ghost prev = g;
            g = g.next();
            let new_stats = g.stats();
            let ghost before = levels;
            proof {
                lemma_levels_push(start, total as int, levels, g.nodes@);
                levels = levels.push(g.nodes@);
                assert forall|j: int| 0 <= j < i implies #[trigger] shrinks(levels, j) by {
                    assert(shrinks(before, j));
                    assert(levels[j] == before[j] && levels[j + 1] == before[j + 1]);
                }
            }
            if old_stats.0 == new_stats.0 && old_stats.1 == new_stats.1 {
                proof {
                    assert(levels[levels.len() - 2] == prev.nodes@);
                }
                return g;
            }
            proof {
                assert(shrinks(levels, i as int));
            }
            i += 1;
        }
        g
    }
}

// ---------------------------------------------------------------------------
// What a level is made of, for callers of `next`.
// ---------------------------------------------------------------------------

proof fn lemma_members_contains(tmp: Seq<usize>, t: usize, x: usize)
    requires
        tmp.len() <= usize::MAX,
    ensures
        members(tmp, t).contains(x) <==> (x < tmp.len() && tmp[x as int] == t),
    decreases tmp.len(),
{
    if tmp.len() > 0 {
        let m = members(tmp.drop_last(), t);
        lemma_members_contains(tmp.drop_last(), t, x);
        if tmp.last() == t {
            assert(members(tmp, t) == m.push((tmp.len() - 1) as usize));
            if members(tmp, t).contains(x) {
                let k = choose|k: int| 0 <= k < members(tmp, t).len() && members(tmp, t)[k] == x;
                if k < m.len() {
                    assert(m[k] == x);
                    assert(m.contains(x));
                }
            }
            if x < tmp.len() && tmp[x as int] == t {
                if x < tmp.len() - 1 {
                    assert(tmp.drop_last()[x as int] == t);
                    let k = choose|k: int| 0 <= k < m.len() && m[k] == x;
                    assert(members(tmp, t)[k] == x);
                } else {
                    assert(members(tmp, t)[m.len() as int] == x);
                }
            }
        } else {
            if x < tmp.len() && tmp[x as int] == t {
                assert(x < tmp.len() - 1);
                assert(tmp.drop_last()[x as int] == t);
            }
        }
    }
}

proof fn lemma_members_sorted(tmp: Seq<usize>, t: usize)
    requires
        tmp.len() <= usize::MAX,
    ensures
        forall|j: int, k: int| 0 <= j < k < members(tmp, t).len() ==> members(tmp, t)[j] < members(tmp, t)[k],
    decreases tmp.len(),
{
    if tmp.len() > 0 {
        lemma_members_sorted(tmp.drop_last(), t);
        lemma_members_bounds(tmp.drop_last(), t);
        let m = members(tmp.drop_last(), t);
        if tmp.last() == t {
            let m2 = members(tmp, t);
            assert(m2 == m.push((tmp.len() - 1) as usize));
            assert forall|j: int, k: int| 0 <= j < k < m2.len() implies m2[j] < m2[k] by {
                if k < m.len() {
                    assert(m2[j] == m[j] && m2[k] == m[k]);
                } else {
                    assert(m2[j] == m[j]);
                    assert(m[j] < tmp.drop_last().len());
                }
            }
        }
    }
}

/// Node `x` of the level below is a child of some community of `next`.
pub open spec fn in_some_community(next: Seq<Community>, x: usize) -> bool {
    exists|d: int| 0 <= d < next.len() && (#[trigger] next[d].children_view()).contains(x)
}

/// The structure of a level built from `prev` with the grouping `tmp`: the
/// communities split the nodes of `prev` into non-empty groups, each listed in
/// increasing order and gathering exactly the nodes of one value of `tmp`;
/// each community stands for the persons of its nodes, in order, and its
/// degree is their total weight.
pub proof fn lemma_level_structure(prev: Seq<Community>, tmp: Seq<usize>, next: Seq<Community>, c: int)
    requires
        level_matches(prev, tmp, next),
        tmp.len() == prev.len(),
        prev.len() <= usize::MAX,
        0 <= c < next.len(),
    ensures
        ({
            let ch = next[c].children_view();
            &&& ch.len() > 0
            &&& forall|j: int, k: int| 0 <= j < k < ch.len() ==> ch[j] < ch[k]
            &&& forall|k: int| 0 <= k < ch.len() ==> #[trigger] ch[k] < prev.len()
            &&& forall|x: usize| x < prev.len() ==> (ch.contains(x) <==> #[trigger] tmp[x as int] == tmp[ch[0] as int])
            &&& forall|d: int| 0 <= d < next.len() && d != c ==> tmp[(#[trigger] next[d].children_view())[0] as int] != tmp[ch[0] as int]
            &&& next[c].has_payload()
            &&& next[c].persons() == flat_persons(prev, ch)
            &&& next[c].parent_view() is None
            &&& next[c].degree_view() == sum_of(ch, |x: usize| prev[x as int].weight_total())
        }),
        forall|x: usize| x < prev.len() ==> #[trigger] in_some_community(next, x),
{
    let f = firsts(tmp);
    lemma_firsts(tmp);
    assert(community_matches(prev, tmp, f, c, next[c]));
    let t = f[c];
    let ch = next[c].children_view();
    assert(ch == members(tmp, t));
    lemma_members_nonempty(tmp, t);
    lemma_members_sorted(tmp, t);
    lemma_members_bounds(tmp, t);
    assert(ch.contains(ch[0]));
    lemma_members_contains(tmp, t, ch[0]);
    assert(tmp[ch[0] as int] == t);
    assert forall|x: usize| x < prev.len() implies (ch.contains(x) <==> #[trigger] tmp[x as int] == tmp[ch[0] as int]) by {
        lemma_members_contains(tmp, t, x);
    }
    assert forall|d: int| 0 <= d < next.len() && d != c implies tmp[(#[trigger] next[d].children_view())[0] as int] != tmp[ch[0] as int] by {
        assert(community_matches(prev, tmp, f, d, next[d]));
        let chd = next[d].children_view();
        lemma_members_nonempty(tmp, f[d]);
        assert(chd.contains(chd[0]));
        lemma_members_contains(tmp, f[d], chd[0]);
    }
    assert(child_wt_fn(prev) =~= (|x: usize| prev[x as int].weight_total()));
    assert forall|x: usize| x < prev.len() implies #[trigger] in_some_community(next, x) by {
        assert(f.contains(tmp[x as int]));
        let d = choose|d: int| 0 <= d < f.len() && f[d] == tmp[x as int];
        assert(community_matches(prev, tmp, f, d, next[d]));
        lemma_members_contains(tmp, f[d], x as usize);
    }
}

/// The weight of a link `(target, weight)` when its target is among `to`.
pub open spec fn link_weight_to(to: Seq<usize>) -> spec_fn((usize, usize)) -> int {
    |e: (usize, usize)| if to.contains(e.0) { e.1 as int } else { 0 }
}

/// Total weight of the links from the nodes `from` of `prev` to the nodes
/// `to`.
pub open spec fn weight_into(prev: Seq<Community>, from: Seq<usize>, to: Seq<usize>) -> int {
    sum_of(from, |x: usize| sum_of(prev[x as int].edges_view(), link_weight_to(to)))
}

proof fn lemma_lab_node(prev: Seq<Community>, tmp: Seq<usize>, x: usize, t: usize)
    requires
        tmp.len() == prev.len(),
        prev.len() <= usize::MAX,
        x < prev.len(),
        forall|k: int| 0 <= k < prev[x as int].edges_view().len() ==> #[trigger] prev[x as int].edges_view()[k].0 < prev.len(),
    ensures
        sum_lab(lab_edges(prev, tmp, x), t) == sum_of(prev[x as int].edges_view(), link_weight_to(members(tmp, t))),
{
    let a = lab_edges(prev, tmp, x);
    let b = prev[x as int].edges_view();
    let m = members(tmp, t);
    assert forall|j: int| 0 <= j < a.len() implies lab_weight(t)(#[trigger] a[j]) == link_weight_to(m)(b[j]) by {
        let e = prev[x as int].neighbors@[j];
        assert(a[j] == (tmp[e.other.0 as int], e.weight));
        assert(b[j] == (e.other.0, e.weight));
        assert(b[j].0 < prev.len());
        lemma_members_contains(tmp, t, e.other.0);
    }
    lemma_sum_eq(a, b, lab_weight(t), link_weight_to(m));
}

proof fn lemma_lab_into(prev: Seq<Community>, tmp: Seq<usize>, ch: Seq<usize>, t: usize)
    requires
        tmp.len() == prev.len(),
        prev.len() <= usize::MAX,
        forall|k: int| 0 <= k < ch.len() ==> #[trigger] ch[k] < prev.len(),
        forall|i: int, k: int|
            0 <= i < prev.len() && 0 <= k < prev[i].edges_view().len() ==> #[trigger] prev[i].edges_view()[k].0 < prev.len(),
    ensures
        sum_lab(flat_lab(prev, tmp, ch), t) == weight_into(prev, ch, members(tmp, t)),
    decreases ch.len(),
{
    if ch.len() > 0 {
        let x = ch.last();
        assert(ch[ch.len() - 1] < prev.len());
        assert forall|k: int| 0 <= k < ch.drop_last().len() implies #[trigger] ch.drop_last()[k] < prev.len() by {
            assert(ch.drop_last()[k] == ch[k]);
        }
        lemma_lab_into(prev, tmp, ch.drop_last(), t);
        lemma_lab_node(prev, tmp, x, t);
        lemma_sum_concat(flat_lab(prev, tmp, ch.drop_last()), lab_edges(prev, tmp, x), lab_weight(t));
    }
}

/// The links of a community of a level built from `prev` with the grouping
/// `tmp`: its self-loop weight is that of its nodes plus the weight of the
/// links among them; it has one link to each other community that its nodes
/// reach, weighing the total weight of the links that reach it.
pub proof fn lemma_level_links(prev: Seq<Community>, tmp: Seq<usize>, next: Seq<Community>, c: int)
    requires
        level_matches(prev, tmp, next),
        tmp.len() == prev.len(),
        prev.len() <= usize::MAX,
        0 <= c < next.len(),
        forall|i: int, k: int|
            0 <= i < prev.len() && 0 <= k < prev[i].edges_view().len() ==> #[trigger] prev[i].edges_view()[k].0 < prev.len(),
    ensures
        ({
            let ch = next[c].children_view();
            let es = next[c].edges_view();
            &&& next[c].self_loops_view() == sum_of(ch, |x: usize| prev[x as int].self_loops_view() as int) + weight_into(
                prev,
                ch,
                ch,
            )
            &&& forall|j: int, k: int| 0 <= j < k < es.len() ==> es[j].0 != es[k].0
            &&& forall|k: int|
                0 <= k < es.len() ==> {
                    &&& (#[trigger] es[k]).0 < next.len()
                    &&& es[k].0 != c
                    &&& es[k].1 > 0
                    &&& es[k].1 == weight_into(prev, ch, next[es[k].0 as int].children_view())
                }
            &&& forall|d: int|
                0 <= d < next.len() && d != c && weight_into(prev, ch, #[trigger] next[d].children_view()) > 0
                    ==> exists|k: int| 0 <= k < es.len() && es[k].0 == d
        }),
{
    let f = firsts(tmp);
    lemma_firsts(tmp);
    assert(community_matches(prev, tmp, f, c, next[c]));
    let t = f[c];
    let ch = next[c].children_view();
    let es = next[c].edges_view();
    let p = flat_lab(prev, tmp, ch);
    lemma_members_bounds(tmp, t);
    lemma_lab_into(prev, tmp, ch, t);
    assert(child_sl_fn(prev) =~= (|x: usize| prev[x as int].self_loops_view() as int));
    assert forall|k: int| 0 <= k < es.len() implies {
        &&& (#[trigger] es[k]).0 < next.len()
        &&& es[k].0 != c
        &&& es[k].1 > 0
        &&& es[k].1 == weight_into(prev, ch, next[es[k].0 as int].children_view())
    } by {
        let d = es[k].0 as int;
        assert(community_matches(prev, tmp, f, d, next[d]));
        lemma_lab_into(prev, tmp, ch, f[d]);
    }
    assert forall|d: int|
        0 <= d < next.len() && d != c && weight_into(prev, ch, #[trigger] next[d].children_view()) > 0 implies exists|k: int|
        0 <= k < es.len() && es[k].0 == d by {
        assert(community_matches(prev, tmp, f, d, next[d]));
        lemma_lab_into(prev, tmp, ch, f[d]);
    }
}

/// The links of a well-formed level point to nodes of that level, of which
/// there are at most `usize::MAX`.
pub proof fn lemma_level_links_in_range(g: Graph)
    requires
        g.wf(),
    ensures
        g.nodes@.len() <= usize::MAX,
        forall|i: int, k: int|
            0 <= i < g.nodes@.len() && 0 <= k < g.nodes@[i].edges_view().len() ==> #[trigger] g.nodes@[i].edges_view()[k].0
                < g.nodes@.len(),
{
    assert forall|i: int, k: int|
        0 <= i < g.nodes@.len() && 0 <= k < g.nodes@[i].edges_view().len() implies #[trigger] g.nodes@[i].edges_view()[k].0
            < g.nodes@.len() by {
        assert(g.nodes@[i].links_ok(g.nodes@.len() as int));
        assert(g.nodes@[i].edges_view()[k].0 == g.nodes@[i].neighbors@[k].other.0);
    }
    assert(g.nodes.len() == g.nodes@.len());
}

/// The total weight of a community is its self-loop weight plus the weight
/// of its links.
pub proof fn lemma_weight_total(c: Community)
    ensures
        c.weight_total() == c.self_loops_view() + sum_of(c.edges_view(), pair_weight_fn()),
{
    lemma_sum_eq(c.neighbors@, c.edges_view(), edge_weight_fn(), pair_weight_fn());
}

// ---------------------------------------------------------------------------
// What a move of local moving does, in terms of modularity.
// ---------------------------------------------------------------------------

/// Weight of the links of node `pos` whose other end lies in community `c`
/// of the assignment `tmp`.
pub open spec fn links_into(nodes: Seq<Community>, tmp: Seq<usize>, pos: usize, c: usize) -> int {
    sum_of(nodes[pos as int].edges_view(), weight_in(tmp, c))
}

/// The weight of a link `(target, weight)` when `tmp` places its target in
/// community `c`.
pub open spec fn weight_in(tmp: Seq<usize>, c: usize) -> spec_fn((usize, usize)) -> int {
    |e: (usize, usize)| if tmp[e.0 as int] == c { e.1 as int } else { 0 }
}

/// Sum of the degrees of the first `k` nodes that `tmp` places in community
/// `c`.
pub open spec fn community_degree(nodes: Seq<Community>, tmp: Seq<usize>, c: usize, k: int) -> int
    decreases k,
{
    if k <= 0 {
        0
    } else {
        community_degree(nodes, tmp, c, k - 1) + (if tmp[k - 1] == c { nodes[k - 1].degree_view() as int } else { 0 })
    }
}

/// Sum of the degrees of all nodes.
pub open spec fn total_degree(nodes: Seq<Community>) -> int {
    sum_of(nodes, |c: Community| c.degree_view() as int)
}

/// The modularity gain of node `pos` joining community `c` of `tmp`, scaled
/// by the link count `g` of the graph: `g` times the weight of its links into
/// `c`, minus its degree times the degree of `c` counted without the node.
pub open spec fn modularity_gain(nodes: Seq<Community>, tmp: Seq<usize>, pos: usize, c: usize, g: int) -> int {
    let d = nodes[pos as int].degree_view() as int;
    let t = community_degree(nodes, tmp, c, nodes.len() as int) - (if tmp[pos as int] == c { d } else { 0 });
    links_into(nodes, tmp, pos, c) * g - t * d
}

/// Some link of node `pos` ends in community `c` of `tmp`.
pub open spec fn next_to(nodes: Seq<Community>, tmp: Seq<usize>, pos: usize, c: usize) -> bool {
    exists|k: int|
        0 <= k < nodes[pos as int].edges_view().len() && tmp[(#[trigger] nodes[pos as int].edges_view()[k]).0 as int] == c
}

/// `tmp` places every node in one of the `n` communities, and `tot` holds
/// the degree of each community.
pub open spec fn degrees_match(nodes: Seq<Community>, tmp: Seq<usize>, tot: Seq<usize>) -> bool {
    let n = nodes.len();
    &&& tmp.len() == n
    &&& tot.len() == n
    &&& forall|j: int| 0 <= j < n ==> #[trigger] tmp[j] < n
    &&& forall|c: int| 0 <= c < n ==> #[trigger] tot[c] == community_degree(nodes, tmp, c as usize, n as int)
}

/// Every link points to a node.
pub open spec fn links_inside(nodes: Seq<Community>) -> bool {
    forall|i: int, k: int|
        0 <= i < nodes.len() && 0 <= k < nodes[i].edges_view().len() ==> #[trigger] nodes[i].edges_view()[k].0 < nodes.len()
}

proof fn lemma_community_degree(nodes: Seq<Community>, tmp: Seq<usize>, c: usize, k: int)
    ensures
        community_degree(nodes, tmp, c, k) == comm_deg(nodes, tmp, c, k),
    decreases k,
{
    if k > 0 {
        lemma_community_degree(nodes, tmp, c, k - 1);
    }
}

proof fn lemma_links_into(nodes: Seq<Community>, tmp: Seq<usize>, pos: usize, c: usize)
    requires
        pos < nodes.len(),
    ensures
        sum_lab(lab_edges(nodes, tmp, pos), c) == links_into(nodes, tmp, pos, c),
{
    let a = lab_edges(nodes, tmp, pos);
    let b = nodes[pos as int].edges_view();
    let f = weight_in(tmp, c);
    assert forall|j: int| 0 <= j < a.len() implies lab_weight(c)(#[trigger] a[j]) == f(b[j]) by {
        let e = nodes[pos as int].neighbors@[j];
        assert(a[j] == (tmp[e.other.0 as int], e.weight));
        assert(b[j] == (e.other.0, e.weight));
    }
    lemma_sum_eq(a, b, lab_weight(c), f);
}

proof fn lemma_next_to(nodes: Seq<Community>, tmp: Seq<usize>, pos: usize, c: usize)
    requires
        pos < nodes.len(),
    ensures
        candidates(nodes, tmp, pos).contains(c) <==> next_to(nodes, tmp, pos, c),
{
    let labels = node_labels(nodes, tmp, pos);
    let es = nodes[pos as int].edges_view();
    lemma_firsts_contains(labels, c);
    assert forall|k: int| 0 <= k < labels.len() implies #[trigger] labels[k] == tmp[es[k].0 as int] by {
        let e = nodes[pos as int].neighbors@[k];
        assert(es[k] == (e.other.0, e.weight));
    }
    if labels.contains(c) {
        let k = choose|k: int| 0 <= k < labels.len() && labels[k] == c;
        assert(tmp[es[k].0 as int] == c);
    }
    if next_to(nodes, tmp, pos, c) {
        let k = choose|k: int| 0 <= k < es.len() && tmp[(#[trigger] es[k]).0 as int] == c;
        assert(labels[k] == c);
    }
}

/// The gain the search compares is the modularity gain when the community
/// degrees match the assignment.
proof fn lemma_gain_value(nodes: Seq<Community>, tmp: Seq<usize>, tot: Seq<usize>, pos: usize, c: usize, g: int)
    requires
        pos < nodes.len(),
        c < nodes.len(),
        degrees_match(nodes, tmp, tot),
    ensures
        gain_value(nodes, tmp, tot, pos, c, g) == modularity_gain(nodes, tmp, pos, c, g),
{
    lemma_links_into(nodes, tmp, pos, c);
    assert(tot[c as int] == community_degree(nodes, tmp, c, nodes.len() as int));
}

proof fn lemma_best_among(nodes: Seq<Community>, tmp: Seq<usize>, tot: Seq<usize>, pos: usize, g: int, cs: Seq<usize>)
    ensures
        best_among(nodes, tmp, tot, pos, g, cs).1 >= 0,
        forall|j: int| 0 <= j < cs.len() ==> gain_value(nodes, tmp, tot, pos, #[trigger] cs[j], g) <= best_among(nodes, tmp, tot, pos, g, cs).1,
        ({
            let r = best_among(nodes, tmp, tot, pos, g, cs);
            (r.0 == tmp[pos as int] && r.1 == 0) || (cs.contains(r.0) && r.1 == gain_value(nodes, tmp, tot, pos, r.0, g) && r.1 > 0)
        }),
        ({
            let r = best_among(nodes, tmp, tot, pos, g, cs);
            r.1 > 0 ==> exists|i: int|
                0 <= i < cs.len() && cs[i] == r.0 && forall|j: int|
                    0 <= j < i ==> gain_value(nodes, tmp, tot, pos, #[trigger] cs[j], g) < r.1
        }),
    decreases cs.len(),
{
    if cs.len() > 0 {
        let c0 = cs.drop_last();
        lemma_best_among(nodes, tmp, tot, pos, g, c0);
        let prev = best_among(nodes, tmp, tot, pos, g, c0);
        assert forall|j: int| 0 <= j < cs.len() implies gain_value(nodes, tmp, tot, pos, #[trigger] cs[j], g) <= best_among(nodes, tmp, tot, pos, g, cs).1 by {
            if j < cs.len() - 1 {
                assert(cs[j] == c0[j]);
            }
        }
        if c0.contains(prev.0) {
            let k = choose|k: int| 0 <= k < c0.len() && c0[k] == prev.0;
            assert(cs[k] == prev.0);
        }
        assert(cs[cs.len() - 1] == cs.last());
        let r = best_among(nodes, tmp, tot, pos, g, cs);
        if r.1 > 0 {
            if gain_value(nodes, tmp, tot, pos, cs.last(), g) > prev.1 {
                let i = cs.len() - 1;
                assert forall|j: int| 0 <= j < i implies gain_value(nodes, tmp, tot, pos, #[trigger] cs[j], g) < r.1 by {
                    assert(cs[j] == c0[j]);
                    assert(gain_value(nodes, tmp, tot, pos, c0[j], g) <= prev.1);
                }
            } else {
                let i = choose|i: int|
                    0 <= i < c0.len() && c0[i] == prev.0 && forall|j: int|
                        0 <= j < i ==> gain_value(nodes, tmp, tot, pos, #[trigger] c0[j], g) < prev.1;
                assert(cs[i] == r.0);
                assert forall|j: int| 0 <= j < i implies gain_value(nodes, tmp, tot, pos, #[trigger] cs[j], g) < r.1 by {
                    assert(cs[j] == c0[j]);
                }
            }
        }
    }
}

/// The distinct values of `s` come in the order of their first appearance:
/// before any occurrence of a later one there is an occurrence of an earlier
/// one.
proof fn lemma_firsts_order(s: Seq<usize>, i: int, j: int, k: int)
    requires
        0 <= i < j < firsts(s).len(),
        0 <= k < s.len(),
        s[k] == firsts(s)[j],
    ensures
        exists|k2: int| 0 <= k2 < k && s[k2] == firsts(s)[i],
    decreases s.len(),
{
    let s0 = s.drop_last();
    let f0 = firsts(s0);
    lemma_firsts(s0);
    lemma_firsts(s);
    if f0.contains(s.last()) {
        assert(firsts(s) == f0);
        if k < s.len() - 1 {
            assert(s0[k] == s[k]);
            lemma_firsts_order(s0, i, j, k);
            let k2 = choose|k2: int| 0 <= k2 < k && s0[k2] == f0[i];
            assert(s[k2] == s0[k2]);
        } else {
            assert(s0.contains(f0[j]));
            let k1 = choose|k1: int| 0 <= k1 < s0.len() && s0[k1] == f0[j];
            lemma_firsts_order(s0, i, j, k1);
            let k2 = choose|k2: int| 0 <= k2 < k1 && s0[k2] == f0[i];
            assert(s[k2] == s0[k2]);
        }
    } else {
        assert(firsts(s) == f0.push(s.last()));
        if j < f0.len() {
            if k < s.len() - 1 {
                assert(s0[k] == s[k]);
                assert(firsts(s)[j] == f0[j]);
                lemma_firsts_order(s0, i, j, k);
                let k2 = choose|k2: int| 0 <= k2 < k && s0[k2] == f0[i];
                assert(s[k2] == s0[k2]);
            } else {
                assert(f0.contains(f0[j]));
                assert(s0.contains(f0[j]));
                assert(false);
            }
        } else {
            assert(firsts(s)[i] == f0[i]);
            assert(s0.contains(f0[i]));
            let k2 = choose|k2: int| 0 <= k2 < s0.len() && s0[k2] == f0[i];
            if k < s.len() - 1 {
                assert(s0[k] == s.last());
                assert(s0.contains(s.last()));
                assert(f0.contains(s.last()));
            }
            assert(s[k2] == s0[k2]);
        }
    }
}

/// Among the communities of greatest gain that the links of node `pos`
/// reach, `b` is the one that they reach first: every link into a community
/// of gain at least that of `b` comes at or after a link into `b`.
pub open spec fn reached_first(nodes: Seq<Community>, tmp: Seq<usize>, pos: usize, b: usize, g: int) -> bool {
    let es = nodes[pos as int].edges_view();
    forall|k: int|
        0 <= k < es.len() && modularity_gain(nodes, tmp, pos, tmp[(#[trigger] es[k]).0 as int], g) >= modularity_gain(nodes, tmp, pos, b, g)
            ==> exists|k2: int| 0 <= k2 <= k && tmp[(#[trigger] es[k2]).0 as int] == b
}

proof fn lemma_move_node_first(nodes: Seq<Community>, g: int, st: MoveState, pos: usize)
    requires
        pos < nodes.len(),
        degrees_match(nodes, st.tmp, st.tot),
        links_inside(nodes),
        next_to(nodes, st.tmp, pos, move_node(nodes, g, st, pos).tmp[pos as int]),
        modularity_gain(nodes, st.tmp, pos, move_node(nodes, g, st, pos).tmp[pos as int], g) > 0,
    ensures
        reached_first(nodes, st.tmp, pos, move_node(nodes, g, st, pos).tmp[pos as int], g),
{
    let cs = candidates(nodes, st.tmp, pos);
    let labels = node_labels(nodes, st.tmp, pos);
    let es = nodes[pos as int].edges_view();
    lemma_best_among(nodes, st.tmp, st.tot, pos, g, cs);
    lemma_firsts(labels);
    let r = best_among(nodes, st.tmp, st.tot, pos, g, cs);
    let b = move_node(nodes, g, st, pos).tmp[pos as int];
    assert(b == r.0);
    let own = st.tmp[pos as int];
    assert(own < nodes.len());
    lemma_gain_value(nodes, st.tmp, st.tot, pos, own, g);
    assert(labels.len() == es.len());
    assert forall|k: int| 0 <= k < labels.len() implies #[trigger] labels[k] == st.tmp[es[k].0 as int] by {
        let e = nodes[pos as int].neighbors@[k];
        assert(es[k] == (e.other.0, e.weight));
    }
    if r.1 == 0 {
        lemma_next_to(nodes, st.tmp, pos, own);
        let j = choose|j: int| 0 <= j < cs.len() && cs[j] == own;
        assert(gain_value(nodes, st.tmp, st.tot, pos, cs[j], g) <= r.1);
        assert(false);
    }
    let i = choose|i: int|
        0 <= i < cs.len() && cs[i] == r.0 && forall|j: int|
            0 <= j < i ==> gain_value(nodes, st.tmp, st.tot, pos, #[trigger] cs[j], g) < r.1;
    assert(r.0 < nodes.len()) by {
        assert(labels.contains(cs[i]));
        let k0 = choose|k0: int| 0 <= k0 < labels.len() && labels[k0] == cs[i];
        assert(es[k0].0 < nodes.len());
    }
    lemma_gain_value(nodes, st.tmp, st.tot, pos, r.0, g);
    assert forall|k: int|
        0 <= k < es.len() && modularity_gain(nodes, st.tmp, pos, st.tmp[(#[trigger] es[k]).0 as int], g) >= modularity_gain(nodes, st.tmp, pos, b, g)
        implies exists|k2: int| 0 <= k2 <= k && st.tmp[(#[trigger] es[k2]).0 as int] == b by {
        let c = st.tmp[es[k].0 as int];
        assert(labels[k] == c);
        assert(es[k].0 < nodes.len());
        lemma_gain_value(nodes, st.tmp, st.tot, pos, c, g);
        assert(cs.contains(labels[k]));
        let j = choose|j: int| 0 <= j < cs.len() && cs[j] == c;
        if c == b {
            assert(st.tmp[es[k].0 as int] == b);
        } else {
            if j < i {
                assert(gain_value(nodes, st.tmp, st.tot, pos, cs[j], g) < r.1);
                assert(false);
            }
            assert(j != i);
            lemma_firsts_order(labels, i, j, k);
            let k2 = choose|k2: int| 0 <= k2 < k && labels[k2] == cs[i];
            assert(st.tmp[es[k2].0 as int] == b);
        }
    }
}

/// A move of local moving puts node `pos` in a community of greatest
/// modularity gain among those its links reach, when that gain is positive,
/// and leaves it where it is otherwise; no other node moves. Among
/// communities of equal gain it takes the one its links reach first.
pub proof fn lemma_move_node_best(nodes: Seq<Community>, g: int, st: MoveState, pos: usize)
    requires
        pos < nodes.len(),
        degrees_match(nodes, st.tmp, st.tot),
        links_inside(nodes),
    ensures
        ({
            let after = move_node(nodes, g, st, pos);
            let b = after.tmp[pos as int];
            let best = if modularity_gain(nodes, st.tmp, pos, b, g) > 0 { modularity_gain(nodes, st.tmp, pos, b, g) } else { 0 };
            &&& after.tmp == st.tmp.update(pos as int, b)
            &&& b == st.tmp[pos as int] || (next_to(nodes, st.tmp, pos, b) && modularity_gain(nodes, st.tmp, pos, b, g) > 0)
            &&& forall|c: usize| #[trigger] next_to(nodes, st.tmp, pos, c) ==> modularity_gain(nodes, st.tmp, pos, c, g) <= best
            &&& next_to(nodes, st.tmp, pos, b) && modularity_gain(nodes, st.tmp, pos, b, g) > 0 ==> reached_first(nodes, st.tmp, pos, b, g)
        }),
{
    let b0 = move_node(nodes, g, st, pos).tmp[pos as int];
    if next_to(nodes, st.tmp, pos, b0) && modularity_gain(nodes, st.tmp, pos, b0, g) > 0 {
        lemma_move_node_first(nodes, g, st, pos);
    }
    let cs = candidates(nodes, st.tmp, pos);
    lemma_best_among(nodes, st.tmp, st.tot, pos, g, cs);
    let r = best_among(nodes, st.tmp, st.tot, pos, g, cs);
    let own = st.tmp[pos as int];
    let after = move_node(nodes, g, st, pos);
    assert(after.tmp[pos as int] == r.0);
    assert(after.tmp == st.tmp.update(pos as int, r.0));
    assert(own < nodes.len());
    lemma_gain_value(nodes, st.tmp, st.tot, pos, own, g);
    if cs.contains(r.0) {
        lemma_next_to(nodes, st.tmp, pos, r.0);
        let k = choose|k: int| 0 <= k < nodes[pos as int].edges_view().len() && st.tmp[(#[trigger] nodes[pos as int].edges_view()[k]).0 as int] == r.0;
        assert(nodes[pos as int].edges_view()[k].0 < nodes.len());
        lemma_gain_value(nodes, st.tmp, st.tot, pos, r.0, g);
    }
    assert forall|c: usize| #[trigger] next_to(nodes, st.tmp, pos, c) implies modularity_gain(nodes, st.tmp, pos, c, g) <= (if modularity_gain(nodes, st.tmp, pos, r.0, g) > 0 { modularity_gain(nodes, st.tmp, pos, r.0, g) } else { 0 }) by {
        lemma_next_to(nodes, st.tmp, pos, c);
        let j = choose|j: int| 0 <= j < cs.len() && cs[j] == c;
        let k = choose|k: int| 0 <= k < nodes[pos as int].edges_view().len() && st.tmp[(#[trigger] nodes[pos as int].edges_view()[k]).0 as int] == c;
        assert(nodes[pos as int].edges_view()[k].0 < nodes.len());
        lemma_gain_value(nodes, st.tmp, st.tot, pos, c, g);
        assert(gain_value(nodes, st.tmp, st.tot, pos, cs[j], g) <= r.1);
    }
}

proof fn lemma_total_degree(nodes: Seq<Community>)
    ensures
        total_deg(nodes, nodes.len() as int) == total_degree(nodes),
{
    lemma_total_deg(nodes, nodes.len() as int);
    assert(nodes.take(nodes.len() as int) =~= nodes);
    assert(degree_fn() =~= (|c: Community| c.degree_view() as int));
}

/// A move keeps the community degrees matching the assignment.
pub proof fn lemma_move_node_degrees(nodes: Seq<Community>, g: int, st: MoveState, pos: usize)
    requires
        pos < nodes.len(),
        nodes.len() <= usize::MAX,
        degrees_match(nodes, st.tmp, st.tot),
        links_inside(nodes),
        total_degree(nodes) <= usize::MAX,
    ensures
        degrees_match(nodes, move_node(nodes, g, st, pos).tmp, move_node(nodes, g, st, pos).tot),
{
    let n = nodes.len() as int;
    let cs = candidates(nodes, st.tmp, pos);
    lemma_best_among(nodes, st.tmp, st.tot, pos, g, cs);
    let b = best_among(nodes, st.tmp, st.tot, pos, g, cs).0;
    let own = st.tmp[pos as int];
    let d = nodes[pos as int].degree;
    lemma_total_degree(nodes);
    if b != own {
        assert(cs.contains(b));
        lemma_next_to(nodes, st.tmp, pos, b);
        let k = choose|k: int| 0 <= k < nodes[pos as int].edges_view().len() && st.tmp[(#[trigger] nodes[pos as int].edges_view()[k]).0 as int] == b;
        assert(nodes[pos as int].edges_view()[k].0 < nodes.len());
        assert(b < n);
        let after = move_node(nodes, g, st, pos);
        lemma_comm_deg_bound(nodes, st.tmp, own, pos as int, n);
        lemma_comm_deg_bound(nodes, st.tmp, b, pos as int, n);
        lemma_community_degree(nodes, st.tmp, own, n);
        lemma_community_degree(nodes, st.tmp, b, n);
        assert forall|j: int| 0 <= j < n implies #[trigger] after.tmp[j] < n by {
            if j != pos as int {
                assert(after.tmp[j] == st.tmp[j]);
            }
        }
        assert(after.tmp == st.tmp.update(pos as int, b));
        assert(st.tot[own as int] >= d);
        assert(st.tot[b as int] + d <= usize::MAX);
        assert(after.tot == st.tot.update(own as int, (st.tot[own as int] - d) as usize).update(
            b as int,
            (st.tot[b as int] + d) as usize,
        ));
        assert forall|c: int| 0 <= c < n implies #[trigger] after.tot[c] == community_degree(nodes, after.tmp, c as usize, n) by {
            lemma_comm_deg_update(nodes, st.tmp, pos as int, b, c as usize, n);
            lemma_community_degree(nodes, after.tmp, c as usize, n);
            lemma_community_degree(nodes, st.tmp, c as usize, n);
            assert(st.tot[c] == community_degree(nodes, st.tmp, c as usize, n));
            assert((c as usize) as int == c);
            assert(st.tmp[pos as int] == own);
            assert(comm_deg(nodes, after.tmp, c as usize, n) == comm_deg(nodes, st.tmp, c as usize, n) - (if own == c as usize {
                d as int
            } else {
                0
            }) + (if b == c as usize {
                d as int
            } else {
                0
            }));
            if c == b as int {
                assert(after.tot[c] == st.tot[b as int] + d);
            } else if c == own as int {
                assert(after.tot[c] == st.tot[own as int] - d);
            } else {
                assert(after.tot[c] == st.tot[c]);
            }
        }
    }
}

/// The state local moving starts from: each node in its own community.
pub open spec fn start_state(nodes: Seq<Community>) -> MoveState {
    MoveState {
        tmp: Seq::new(nodes.len(), |i: int| i as usize),
        tot: Seq::new(nodes.len(), |i: int| nodes[i].degree_view()),
        changed: nodes.len(),
    }
}

/// One pass of local moving from `st`: every node of `order` moved in turn.
pub open spec fn pass(nodes: Seq<Community>, g: int, order: Seq<usize>, st: MoveState) -> MoveState {
    pass_prefix(nodes, g, MoveState { tmp: st.tmp, tot: st.tot, changed: 0 }, order, order.len() as int)
}

/// The state after `p` passes of local moving.
pub open spec fn after_passes(nodes: Seq<Community>, g: int, order: Seq<usize>, p: nat) -> MoveState
    decreases p,
{
    if p == 0 {
        start_state(nodes)
    } else {
        pass(nodes, g, order, after_passes(nodes, g, order, (p - 1) as nat))
    }
}

/// Each node in its own community: the community degrees are the nodes'.
pub proof fn lemma_start_degrees(nodes: Seq<Community>)
    requires
        nodes.len() <= usize::MAX,
    ensures
        degrees_match(nodes, start_state(nodes).tmp, start_state(nodes).tot),
{
    let n = nodes.len() as int;
    let st = start_state(nodes);
    assert forall|c: int| 0 <= c < n implies #[trigger] st.tot[c] == community_degree(nodes, st.tmp, c as usize, n) by {
        lemma_comm_deg_identity(nodes, c as usize, n);
        lemma_community_degree(nodes, st.tmp, c as usize, n);
        assert(st.tmp == Seq::new(nodes.len(), |i: int| i as usize));
    }
}

/// The moves of a pass keep the community degrees matching the assignment;
/// move `k` of a pass is a move of node `order[k]` from the state the first
/// `k` moves reached.
pub proof fn lemma_pass_prefix_degrees(nodes: Seq<Community>, g: int, st: MoveState, order: Seq<usize>, k: int)
    requires
        nodes.len() <= usize::MAX,
        degrees_match(nodes, st.tmp, st.tot),
        links_inside(nodes),
        total_degree(nodes) <= usize::MAX,
        forall|j: int| 0 <= j < order.len() ==> #[trigger] order[j] < nodes.len(),
        0 <= k <= order.len(),
    ensures
        degrees_match(nodes, pass_prefix(nodes, g, st, order, k).tmp, pass_prefix(nodes, g, st, order, k).tot),
        k < order.len() ==> pass_prefix(nodes, g, st, order, k + 1) == move_node(
            nodes,
            g,
            pass_prefix(nodes, g, st, order, k),
            order[k],
        ),
    decreases k,
{
    if k > 0 {
        lemma_pass_prefix_degrees(nodes, g, st, order, k - 1);
        lemma_move_node_degrees(nodes, g, pass_prefix(nodes, g, st, order, k - 1), order[k - 1]);
    }
}

/// After any number of passes the community degrees still match the
/// assignment.
pub proof fn lemma_after_passes_degrees(nodes: Seq<Community>, g: int, order: Seq<usize>, p: nat)
    requires
        nodes.len() <= usize::MAX,
        links_inside(nodes),
        total_degree(nodes) <= usize::MAX,
        forall|j: int| 0 <= j < order.len() ==> #[trigger] order[j] < nodes.len(),
    ensures
        degrees_match(nodes, after_passes(nodes, g, order, p).tmp, after_passes(nodes, g, order, p).tot),
    decreases p,
{
    if p == 0 {
        lemma_start_degrees(nodes);
    } else {
        lemma_after_passes_degrees(nodes, g, order, (p - 1) as nat);
        let st = after_passes(nodes, g, order, (p - 1) as nat);
        lemma_pass_prefix_degrees(nodes, g, MoveState { tmp: st.tmp, tot: st.tot, changed: 0 }, order, order.len() as int);
    }
}

/// Every move of every pass of local moving puts its node in a community of
/// greatest modularity gain among those its links reach, when that gain is
/// positive, and leaves it where it is otherwise; among communities of equal
/// gain it takes the one its links reach first.
pub proof fn lemma_local_moving_moves_best(nodes: Seq<Community>, g: int, order: Seq<usize>, p: nat, k: int)
    requires
        nodes.len() <= usize::MAX,
        links_inside(nodes),
        total_degree(nodes) <= usize::MAX,
        forall|j: int| 0 <= j < order.len() ==> #[trigger] order[j] < nodes.len(),
        0 <= k < order.len(),
    ensures
        ({
            let st = after_passes(nodes, g, order, p);
            let before = pass_prefix(nodes, g, MoveState { tmp: st.tmp, tot: st.tot, changed: 0 }, order, k);
            let after = pass_prefix(nodes, g, MoveState { tmp: st.tmp, tot: st.tot, changed: 0 }, order, k + 1);
            let pos = order[k];
            let b = after.tmp[pos as int];
            let best = if modularity_gain(nodes, before.tmp, pos, b, g) > 0 { modularity_gain(nodes, before.tmp, pos, b, g) } else { 0 };
            &&& after.tmp == before.tmp.update(pos as int, b)
            &&& b == before.tmp[pos as int] || (next_to(nodes, before.tmp, pos, b) && modularity_gain(nodes, before.tmp, pos, b, g) > 0)
            &&& forall|c: usize| #[trigger] next_to(nodes, before.tmp, pos, c) ==> modularity_gain(nodes, before.tmp, pos, c, g) <= best
            &&& next_to(nodes, before.tmp, pos, b) && modularity_gain(nodes, before.tmp, pos, b, g) > 0 ==> reached_first(nodes, before.tmp, pos, b, g)
        }),
{
    let st = after_passes(nodes, g, order, p);
    let st0 = MoveState { tmp: st.tmp, tot: st.tot, changed: 0 };
    lemma_after_passes_degrees(nodes, g, order, p);
    lemma_pass_prefix_degrees(nodes, g, st0, order, k);
    lemma_move_node_best(nodes, g, pass_prefix(nodes, g, st0, order, k), order[k]);
}

/// A well-formed level meets what the laws of local moving ask: its links
/// point to its nodes, and its node count and total degree fit in a `usize`.
pub proof fn lemma_level_moving_ready(g: Graph)
    requires
        g.wf(),
    ensures
        links_inside(g.nodes@),
        total_degree(g.nodes@) <= usize::MAX,
        g.nodes@.len() <= usize::MAX,
{
    lemma_level_links_in_range(g);
    assert(degree_fn() =~= (|c: Community| c.degree_view() as int));
    assert(sum_of(g.nodes@, degree_fn()) <= g.total_links);
}

/// The number of the first `k` moves of a pass from `st` that changed the
/// assignment.
pub open spec fn pass_moves(nodes: Seq<Community>, g: int, st: MoveState, order: Seq<usize>, k: int) -> nat
    decreases k,
{
    if k <= 0 {
        0
    } else {
        pass_moves(nodes, g, st, order, k - 1) + (if pass_prefix(nodes, g, st, order, k).tmp != pass_prefix(
            nodes,
            g,
            st,
            order,
            k - 1,
        ).tmp {
            1nat
        } else {
            0nat
        })
    }
}

/// Whether local moving goes on after `p` passes: more than one node in a
/// hundred moved in the last pass (all of them count as moved before the
/// first).
pub open spec fn still_moving(nodes: Seq<Community>, g: int, order: Seq<usize>, p: nat) -> bool {
    if p == 0 {
        nodes.len() > nodes.len() / 100
    } else {
        let st = after_passes(nodes, g, order, (p - 1) as nat);
        pass_moves(nodes, g, MoveState { tmp: st.tmp, tot: st.tot, changed: 0 }, order, order.len() as int)
            > nodes.len() / 100
    }
}

proof fn lemma_pass_changed(nodes: Seq<Community>, g: int, st: MoveState, order: Seq<usize>, k: int)
    requires
        st.tmp.len() == nodes.len(),
        forall|j: int| 0 <= j < order.len() ==> #[trigger] order[j] < nodes.len(),
        0 <= k <= order.len(),
    ensures
        pass_prefix(nodes, g, st, order, k).changed == st.changed + pass_moves(nodes, g, st, order, k),
        pass_prefix(nodes, g, st, order, k).tmp.len() == nodes.len(),
    decreases k,
{
    if k > 0 {
        lemma_pass_changed(nodes, g, st, order, k - 1);
        let before = pass_prefix(nodes, g, st, order, k - 1);
        let pos = order[k - 1];
        let own = before.tmp[pos as int];
        let b = best_among(nodes, before.tmp, before.tot, pos, g, candidates(nodes, before.tmp, pos)).0;
        if b != own {
            let after = pass_prefix(nodes, g, st, order, k);
            assert(after.tmp[pos as int] == b);
            assert(after.tmp != before.tmp);
        }
    }
}

proof fn lemma_moving_stops(nodes: Seq<Community>, g: int, order: Seq<usize>, p: nat)
    requires
        p <= MAX_PASSES,
        forall|j: int| 0 <= j < order.len() ==> #[trigger] order[j] < nodes.len(),
        forall|q: nat| q < p ==> #[trigger] still_moving(nodes, g, order, q),
    ensures
        exists|q: nat|
            p <= q <= MAX_PASSES && #[trigger] after_passes(nodes, g, order, q).tmp == moving(
                nodes,
                g,
                order,
                after_passes(nodes, g, order, p),
                p,
            ) && (forall|r: nat| r < q ==> #[trigger] still_moving(nodes, g, order, r)) && (q < MAX_PASSES
                ==> !still_moving(nodes, g, order, q)),
    decreases MAX_PASSES - p,
{
    let st = after_passes(nodes, g, order, p);
    assert(st.tmp.len() == nodes.len() && st.changed == (if p == 0 { nodes.len() } else {
        let s0 = after_passes(nodes, g, order, (p - 1) as nat);
        pass_moves(nodes, g, MoveState { tmp: s0.tmp, tot: s0.tot, changed: 0 }, order, order.len() as int)
    })) by {
        if p > 0 {
            lemma_after_passes_len(nodes, g, order, (p - 1) as nat);
            let s0 = after_passes(nodes, g, order, (p - 1) as nat);
            lemma_pass_changed(nodes, g, MoveState { tmp: s0.tmp, tot: s0.tot, changed: 0 }, order, order.len() as int);
        }
    }
    if st.changed > nodes.len() / 100 && p < MAX_PASSES {
        assert(still_moving(nodes, g, order, p));
        assert forall|q: nat| q < p + 1 implies #[trigger] still_moving(nodes, g, order, q) by {
            if q < p {
                assert(still_moving(nodes, g, order, q));
            }
        }
        lemma_moving_stops(nodes, g, order, p + 1);
        assert(after_passes(nodes, g, order, p + 1) == pass(nodes, g, order, st));
    } else {
        assert(after_passes(nodes, g, order, p).tmp == moving(nodes, g, order, st, p));
        assert(p < MAX_PASSES ==> !still_moving(nodes, g, order, p));
    }
}

proof fn lemma_after_passes_len(nodes: Seq<Community>, g: int, order: Seq<usize>, p: nat)
    requires
        forall|j: int| 0 <= j < order.len() ==> #[trigger] order[j] < nodes.len(),
    ensures
        after_passes(nodes, g, order, p).tmp.len() == nodes.len(),
    decreases p,
{
    if p > 0 {
        lemma_after_passes_len(nodes, g, order, (p - 1) as nat);
        let s0 = after_passes(nodes, g, order, (p - 1) as nat);
        lemma_pass_changed(nodes, g, MoveState { tmp: s0.tmp, tot: s0.tot, changed: 0 }, order, order.len() as int);
    }
}

/// Local moving makes whole passes, from each node in its own community, as
/// long as more than one node in a hundred moved in the last pass, and at
/// most `MAX_PASSES` of them; it ends on the assignment the last pass
/// reached.
pub proof fn lemma_local_moving_stops(nodes: Seq<Community>, g: int, order: Seq<usize>)
    requires
        forall|j: int| 0 <= j < order.len() ==> #[trigger] order[j] < nodes.len(),
    ensures
        exists|p: nat|
            p <= MAX_PASSES && #[trigger] after_passes(nodes, g, order, p).tmp == local_moving_spec(nodes, g, order) && (forall|
                q: nat,
            | q < p ==> #[trigger] still_moving(nodes, g, order, q)) && (p < MAX_PASSES ==> !still_moving(
                nodes,
                g,
                order,
                p,
            )),
{
    let n = nodes.len();
    let init = MoveState {
        tmp: Seq::new(n, |i: int| i as usize),
        tot: Seq::new(n, |i: int| nodes[i].degree),
        changed: n,
    };
    assert(init.tot =~= start_state(nodes).tot);
    assert(init == start_state(nodes));
    lemma_moving_stops(nodes, g, order, 0);
}

} // verus!
