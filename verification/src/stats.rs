//! The figures shown next to the graph: how many persons the degree filter
//! keeps and in which communities, the friendship paradox of a person, and
//! the per-node data handed to the renderer.
use vstd::prelude::*;
use crate::algorithms::AbstractNode;
use crate::algorithms::pathfinding::{adjacency, links_in_range};
use crate::graph_format::{EdgeStore, Point};
use crate::graph_storage::{ModularityClass, Person};
use crate::third_party::{pairs_sorted, sort_pairs};
use crate::sums::sum_of;

verus! {

/// The persons and communities a tab shows.
pub struct ViewerData {
    pub persons: Vec<Person>,
    pub modularity_classes: Vec<ModularityClass>,
}

impl ViewerData {
    pub fn new(persons: Vec<Person>, modularity_classes: Vec<ModularityClass>) -> (d: ViewerData)
        ensures
            d.persons@ == persons@,
            d.modularity_classes@ == modularity_classes@,
    {
        ViewerData { persons, modularity_classes }
    }
}

/// Which persons are drawn: with `filter_nodes`, those whose degree lies in
/// `degree_filter` (bounds included).
#[derive(Clone, Copy)]
pub struct NodeFilter {
    pub degree_filter: (u16, u16),
    pub filter_nodes: bool,
}

impl Default for NodeFilter {
    fn default() -> (f: NodeFilter)
        ensures
            f.degree_filter == (0u16, u16::MAX),
            !f.filter_nodes,
    {
        NodeFilter { degree_filter: (0, u16::MAX), filter_nodes: false }
    }
}

/// The degree of a person as the filters see it: its number of neighbours,
/// as a `u16`.
pub open spec fn degree16(p: Person) -> u16 {
    (p.neighbors@.len() % 0x1_0000) as u16
}

/// Whether the filter keeps person `p`.
pub open spec fn kept(p: Person, f: NodeFilter) -> bool {
    !f.filter_nodes || (f.degree_filter.0 <= degree16(p) && degree16(p) <= f.degree_filter.1)
}

/// The number of persons the filter keeps.
pub open spec fn kept_count(ps: Seq<Person>, f: NodeFilter) -> nat
    decreases ps.len(),
{
    if ps.len() == 0 {
        0
    } else {
        kept_count(ps.drop_last(), f) + (if kept(ps.last(), f) {
            1nat
        } else {
            0nat
        })
    }
}

/// The number of persons of community `c` the filter keeps.
pub open spec fn kept_in_class(ps: Seq<Person>, f: NodeFilter, c: int) -> nat
    decreases ps.len(),
{
    if ps.len() == 0 {
        0
    } else {
        kept_in_class(ps.drop_last(), f, c) + (if kept(ps.last(), f) && ps.last().modularity_class == c {
            1nat
        } else {
            0nat
        })
    }
}

/// Community `a` is listed before community `b`: it has more persons, or as
/// many and a smaller number.
pub open spec fn ranks_before(a: (usize, usize), b: (usize, usize)) -> bool {
    a.1 > b.1 || (a.1 == b.1 && a.0 < b.0)
}

/// The persons the degree filter keeps: how many, and how many in each
/// community that has some, largest first.
pub struct NodeStats {
    pub node_count: usize,
    pub node_classes: Vec<(usize, usize)>,
}

proof fn lemma_kept_bounds(ps: Seq<Person>, f: NodeFilter, c: int)
    ensures
        kept_count(ps, f) <= ps.len(),
        kept_in_class(ps, f, c) <= kept_count(ps, f),
    decreases ps.len(),
{
    if ps.len() > 0 {
        lemma_kept_bounds(ps.drop_last(), f, c);
    }
}

/// The community numbers `0..k`.
pub open spec fn class_range(k: nat) -> Seq<int> {
    Seq::new(k, |c: int| c)
}

proof fn lemma_sum_split(s: Seq<int>, a: spec_fn(int) -> int, b: spec_fn(int) -> int)
    ensures
        sum_of(s, |c: int| a(c) + b(c)) == sum_of(s, a) + sum_of(s, b),
    decreases s.len(),
{
    if s.len() > 0 {
        lemma_sum_split(s.drop_last(), a, b);
    }
}

proof fn lemma_sum_indicator(k: nat, t: int)
    ensures
        sum_of(class_range(k), |c: int| if c == t { 1int } else { 0int }) == if 0 <= t < k { 1int } else { 0int },
    decreases k,
{
    if k > 0 {
        assert(class_range(k).drop_last() =~= class_range((k - 1) as nat));
        lemma_sum_indicator((k - 1) as nat, t);
    }
}

/// When every person's community is below `k`, the persons the filter keeps
/// in the communities `0..k` add up to all the persons it keeps: the
/// per-community counts of the statistics cover every person shown once.
pub proof fn lemma_class_counts_add_up(ps: Seq<Person>, f: NodeFilter, k: nat)
    requires
        forall|i: int| 0 <= i < ps.len() ==> (#[trigger] ps[i]).modularity_class < k,
    ensures
        sum_of(class_range(k), |c: int| kept_in_class(ps, f, c) as int) == kept_count(ps, f),
    decreases ps.len(),
{
    if ps.len() == 0 {
        lemma_sum_zero(class_range(k));
        assert((|c: int| kept_in_class(ps, f, c) as int) =~= (|c: int| 0int));
    } else {
        let t = ps.drop_last();
        let x = ps.last();
        assert forall|i: int| 0 <= i < t.len() implies (#[trigger] t[i]).modularity_class < k by {
            assert(t[i] == ps[i]);
        }
        lemma_class_counts_add_up(t, f, k);
        let a = |c: int| kept_in_class(t, f, c) as int;
        let ind = |c: int| if c == x.modularity_class as int { 1int } else { 0int };
        let zero = |c: int| 0int;
        let b = if kept(x, f) { ind } else { zero };
        assert((|c: int| kept_in_class(ps, f, c) as int) =~= (|c: int| a(c) + b(c)));
        lemma_sum_split(class_range(k), a, b);
        lemma_sum_indicator(k, x.modularity_class as int);
        lemma_sum_zero(class_range(k));
    }
}

proof fn lemma_sum_zero(s: Seq<int>)
    ensures
        sum_of(s, |c: int| 0int) == 0,
    decreases s.len(),
{
    if s.len() > 0 {
        lemma_sum_zero(s.drop_last());
    }
}

/// Inserts `x` into a list sorted by `ranks_before`, keeping it sorted.
fn insert_ranked(out: &mut Vec<(usize, usize)>, x: (usize, usize))
    requires
        forall|i: int, j: int| 0 <= i < j < old(out)@.len() ==> ranks_before(old(out)@[i], old(out)@[j]),
        forall|i: int| 0 <= i < old(out)@.len() ==> old(out)@[i].0 != x.0,
    ensures
        forall|i: int, j: int| 0 <= i < j < final(out)@.len() ==> ranks_before(final(out)@[i], final(out)@[j]),
        final(out)@.to_set() == old(out)@.to_set().insert(x),
        final(out)@.len() == old(out)@.len() + 1,
{
    let ghost o = out@;
    let mut pos: usize = 0;
    while pos < out.len() && !(x.1 > out[pos].1 || (x.1 == out[pos].1 && x.0 < out[pos].0))
        invariant
            o == out@,
            forall|i: int| 0 <= i < o.len() ==> o[i].0 != x.0,
            pos <= out@.len(),
            forall|i: int| 0 <= i < pos ==> ranks_before(#[trigger] out@[i], x),
        decreases out@.len() - pos,
    {
        pos += 1;
    }
    out.insert(pos, x);
    proof {
        assert forall|i: int, j: int| 0 <= i < j < out@.len() implies ranks_before(out@[i], out@[j]) by {
            if j < pos {
                assert(out@[i] == o[i] && out@[j] == o[j]);
            } else if j == pos {
                assert(out@[i] == o[i]);
            } else if i < pos {
                assert(out@[i] == o[i] && out@[j] == o[j - 1]);
                assert(ranks_before(o[i], x));
                assert(ranks_before(x, o[pos as int]) || pos == o.len());
                if (pos as int) < j - 1 {
                    assert(ranks_before(o[pos as int], o[j - 1]));
                }
            } else if i == pos {
                assert(out@[j] == o[j - 1]);
                assert(ranks_before(x, o[pos as int]));
                if (pos as int) < j - 1 {
                    assert(ranks_before(o[pos as int], o[j - 1]));
                }
            } else {
                assert(out@[i] == o[i - 1] && out@[j] == o[j - 1]);
            }
        }
        assert forall|e: (usize, usize)| #[trigger] out@.to_set().contains(e) implies o.to_set().insert(x).contains(e) by {
            let k = choose|k: int| 0 <= k < out@.len() && out@[k] == e;
            if k < pos {
                assert(o[k] == e);
            } else if k > pos {
                assert(o[k - 1] == e);
            }
        }
        assert forall|e: (usize, usize)| #[trigger] o.to_set().insert(x).contains(e) implies out@.to_set().contains(e) by {
            if e == x {
                assert(out@[pos as int] == x);
            } else {
                let k = choose|k: int| 0 <= k < o.len() && o[k] == e;
                if k < pos {
                    assert(out@[k] == e);
                } else {
                    assert(out@[k + 1] == e);
                }
            }
        }
        assert(out@.to_set() =~= o.to_set().insert(x));
    }
}

impl NodeStats {
    /// Counts the persons the filter keeps, in all and per community; lists
    /// the communities that keep some, the largest first (ties by number).
    pub fn new(data: &ViewerData, filter: NodeFilter) -> (s: NodeStats)
        requires
            forall|i: int| 0 <= i < data.persons@.len() ==> (#[trigger] data.persons@[i]).modularity_class
                < data.modularity_classes@.len(),
        ensures
            s.node_count == kept_count(data.persons@, filter),
            s.node_classes@.to_set() == Set::new(
                |e: (usize, usize)|
                    e.0 < data.modularity_classes@.len() && e.1 == kept_in_class(data.persons@, filter, e.0 as int)
                        && e.1 > 0,
            ),
            forall|i: int, j: int| 0 <= i < j < s.node_classes@.len() ==> ranks_before(s.node_classes@[i], s.node_classes@[j]),
    {
        let k = data.modularity_classes.len();
        let ps = &data.persons;
        let mut count_classes: Vec<usize> = Vec::new();
        while count_classes.len() < k
            invariant
                count_classes@.len() <= k,
                forall|c: int| 0 <= c < count_classes@.len() ==> #[trigger] count_classes@[c] == 0,
            decreases k - count_classes@.len(),
        {
            count_classes.push(0);
        }
        let mut node_count: usize = 0;
        let mut i: usize = 0;
        while i < ps.len()
            invariant
                k == data.modularity_classes@.len(),
                forall|j: int| 0 <= j < ps@.len() ==> (#[trigger] ps@[j]).modularity_class < k,
                i <= ps@.len(),
                count_classes@.len() == k,
                node_count == kept_count(ps@.take(i as int), filter),
                forall|c: int| 0 <= c < k ==> #[trigger] count_classes@[c] == kept_in_class(ps@.take(i as int), filter, c),
            decreases ps@.len() - i,
        {
            let p = &ps[i];
            let len = p.neighbors.len();
            let deg = len as u16;
            assert(deg == (len % 0x1_0000) as u16) by (bit_vector)
                requires
                    deg == len as u16;
            let ok = if filter.filter_nodes {
                deg >= filter.degree_filter.0 && deg <= filter.degree_filter.1
            } else {
                true
            };
            proof {
                assert(ps@.take(i + 1).drop_last() =~= ps@.take(i as int));
                assert(ok == kept(ps@[i as int], filter));
                lemma_kept_bounds(ps@.take(i + 1), filter, p.modularity_class as int);
            }
            if ok {
                node_count += 1;
                let c = p.modularity_class as usize;
                count_classes.set(c, count_classes[c] + 1);
            }
            i += 1;
        }
        proof {
            assert(ps@.take(i as int) =~= ps@);
        }
        let mut node_classes: Vec<(usize, usize)> = Vec::new();
        let mut c: usize = 0;
        while c < k
            invariant
                count_classes@.len() == k,
                c <= k,
                forall|i: int, j: int| 0 <= i < j < node_classes@.len() ==> ranks_before(node_classes@[i], node_classes@[j]),
                forall|i: int| 0 <= i < node_classes@.len() ==> (#[trigger] node_classes@[i]).0 < c,
                node_classes@.to_set() == Set::new(
                    |e: (usize, usize)| e.0 < c && e.1 == count_classes@[e.0 as int] && e.1 > 0,
                ),
            decreases k - c,
        {
            let ghost before = node_classes@;
            if count_classes[c] != 0 {
                insert_ranked(&mut node_classes, (c, count_classes[c]));
                proof {
                    assert forall|i: int| 0 <= i < node_classes@.len() implies (#[trigger] node_classes@[i]).0 < c + 1 by {
                        assert(node_classes@.to_set().contains(node_classes@[i]));
                        assert(before.to_set().insert((c, count_classes@[c as int])).contains(node_classes@[i]));
                        if node_classes@[i] != (c, count_classes@[c as int]) {
                            let t = choose|t: int| 0 <= t < before.len() && before[t] == node_classes@[i];
                        }
                    }
                }
            }
            proof {
                assert(node_classes@.to_set() =~= Set::new(
                    |e: (usize, usize)| e.0 < c + 1 && e.1 == count_classes@[e.0 as int] && e.1 > 0,
                ));
            }
            c += 1;
        }
        proof {
            assert(node_classes@.to_set() =~= Set::new(
                |e: (usize, usize)|
                    e.0 < data.modularity_classes@.len() && e.1 == kept_in_class(data.persons@, filter, e.0 as int)
                        && e.1 > 0,
            ));
        }
        NodeStats { node_count, node_classes }
    }
}


// ---------------------------------------------------------------------------
// Friendship paradox
// ---------------------------------------------------------------------------

/// The numbers of friends of the friends of a person, shown once computed:
/// their sum, least and greatest.
pub struct ParadoxState {
    pub current: Option<usize>,
    pub sum: usize,
    pub min: usize,
    pub max: usize,
}

/// The least element of `s`, or 0 when it is empty.
pub open spec fn min_of(s: Seq<int>) -> int
    decreases s.len(),
{
    if s.len() == 0 {
        0
    } else if s.len() == 1 {
        s[0]
    } else {
        let m = min_of(s.drop_last());
        if s.last() < m {
            s.last()
        } else {
            m
        }
    }
}

/// The greatest element of `s`, or 0 when it is empty.
pub open spec fn max_of(s: Seq<int>) -> int
    decreases s.len(),
{
    if s.len() == 0 {
        0
    } else if s.len() == 1 {
        s[0]
    } else {
        let m = max_of(s.drop_last());
        if s.last() > m {
            s.last()
        } else {
            m
        }
    }
}

/// The numbers of friends of the friends of person `id`, in list order.
pub open spec fn friend_degrees(g: Seq<Seq<usize>>, id: int) -> Seq<int> {
    g[id].map_values(|nb: usize| g[nb as int].len() as int)
}

pub open spec fn seq_sum(s: Seq<int>) -> int
    decreases s.len(),
{
    if s.len() == 0 {
        0
    } else {
        seq_sum(s.drop_last()) + s.last()
    }
}

/// Computes the friendship-paradox figures of person `id`.
pub fn friendship_paradox<N: AbstractNode>(persons: &[N], id: usize) -> (r: ParadoxState)
    requires
        id < persons@.len(),
        links_in_range(adjacency(persons@)),
        seq_sum(friend_degrees(adjacency(persons@), id as int)) <= usize::MAX,
    ensures
        r.current == Some(id),
        r.sum == seq_sum(friend_degrees(adjacency(persons@), id as int)),
        r.min == min_of(friend_degrees(adjacency(persons@), id as int)),
        r.max == max_of(friend_degrees(adjacency(persons@), id as int)),
{
    let ghost g = adjacency(persons@);
    let ghost d = friend_degrees(g, id as int);
    let nbs = persons[id].neighbors();
    assert(nbs@ == g[id as int]);
    let mut sum: usize = 0;
    let mut min: usize = 0;
    let mut max: usize = 0;
    let mut k: usize = 0;
    while k < nbs.len()
        invariant
            g == adjacency(persons@),
            links_in_range(g),
            id < g.len(),
            nbs@ == g[id as int],
            d == friend_degrees(g, id as int),
            seq_sum(d) <= usize::MAX,
            k <= nbs@.len(),
            sum == seq_sum(d.take(k as int)),
            min == min_of(d.take(k as int)),
            max == max_of(d.take(k as int)),
        decreases nbs@.len() - k,
    {
        let nb = nbs[k];
        assert(nb < g.len()) by {
            assert(g[id as int][k as int] == nb);
        }
        let n = persons[nb].neighbors().len();
        proof {
            assert(d.take(k + 1).drop_last() =~= d.take(k as int));
            assert(d[k as int] == n);
            lemma_seq_sum_prefix(d, k + 1);
            lemma_seq_sum_nonneg(d, g);
        }
        sum = sum + n;
        if k == 0 {
            min = n;
            max = n;
        } else {
            if n < min {
                min = n;
            }
            if n > max {
                max = n;
            }
        }
        k += 1;
    }
    proof {
        assert(d.take(k as int) =~= d);
    }
    ParadoxState { current: Some(id), sum, min, max }
}

proof fn lemma_seq_sum_nonneg(d: Seq<int>, g: Seq<Seq<usize>>)
    requires
        forall|i: int| 0 <= i < d.len() ==> #[trigger] d[i] >= 0,
    ensures
        seq_sum(d) >= 0,
    decreases d.len(),
{
    if d.len() > 0 {
        lemma_seq_sum_nonneg(d.drop_last(), g);
    }
}

proof fn lemma_seq_sum_prefix(d: Seq<int>, j: int)
    requires
        0 <= j <= d.len(),
        forall|i: int| 0 <= i < d.len() ==> #[trigger] d[i] >= 0,
    ensures
        seq_sum(d.take(j)) <= seq_sum(d),
    decreases d.len() - j,
{
    if j < d.len() {
        lemma_seq_sum_prefix(d, j + 1);
        assert(d.take(j + 1).drop_last() =~= d.take(j));
    } else {
        assert(d.take(j) =~= d);
    }
}

/// The average lies between the least and the greatest: for a person with
/// friends, `min * n <= sum <= max * n`, `n` the number of friends.
pub proof fn lemma_paradox_bounds(s: Seq<int>)
    requires
        s.len() > 0,
    ensures
        min_of(s) * s.len() <= seq_sum(s) <= max_of(s) * s.len(),
        forall|i: int| 0 <= i < s.len() ==> min_of(s) <= #[trigger] s[i] <= max_of(s),
    decreases s.len(),
{
    if s.len() == 1 {
        assert(s.drop_last() =~= Seq::<int>::empty());
        assert(seq_sum(s.drop_last()) == 0);
        assert(s.last() == s[0]);
        assert(seq_sum(s) == s[0]);
        assert(min_of(s) == s[0] && max_of(s) == s[0]);
        assert(s[0] * 1 == s[0]) by (nonlinear_arith);
    } else {
        let t = s.drop_last();
        let x = s.last();
        lemma_paradox_bounds(t);
        let n: int = t.len() as int;
        let lo = min_of(s);
        let hi = max_of(s);
        let lt = min_of(t);
        let ht = max_of(t);
        assert(lo <= lt && lo <= x);
        assert(hi >= ht && hi >= x);
        assert(seq_sum(s) == seq_sum(t) + x);
        assert(lt * n <= seq_sum(t) <= ht * n);
        assert(lo * (n + 1) <= seq_sum(t) + x) by (nonlinear_arith)
            requires
                lo <= lt,
                lo <= x,
                lt * n <= seq_sum(t),
                n >= 0,
        ;
        assert(seq_sum(t) + x <= hi * (n + 1)) by (nonlinear_arith)
            requires
                hi >= ht,
                hi >= x,
                seq_sum(t) <= ht * n,
                n >= 0,
        ;
        assert(s.len() == n + 1);
        assert forall|i: int| 0 <= i < s.len() implies lo <= #[trigger] s[i] <= hi by {
            if i < n {
                assert(s[i] == t[i]);
            }
        }
    }
}

// ---------------------------------------------------------------------------
// What the renderer is given
// ---------------------------------------------------------------------------

/// A person's community in the upper 16 bits and its degree in the lower
/// ones (a degree past 16 bits spills into the community's bits).
pub fn degree_and_class(class: u16, degree: usize) -> (r: u32)
    ensures
        r == ((class as u32) << 16u32 | (degree as u32)),
        degree < 0x1_0000 ==> r == class * 0x1_0000 + degree,
{
    let c = class as u32;
    let d = degree as u32;
    let r = c << 16u32 | d;
    proof {
        if degree < 0x1_0000 {
            assert(d == degree);
            assert((c << 16u32 | d) == c * 0x1_0000 + d) by (bit_vector)
                requires
                    c < 0x1_0000,
                    d < 0x1_0000,
            ;
        }
    }
    r
}

/// What the renderer draws for a node.
#[derive(Clone, Copy)]
pub struct NodeInstanceData {
    pub position: Point,
    pub degree_and_class: u32,
}

/// What the renderer draws for a link.
#[derive(Clone, Copy)]
pub struct EdgeInstanceData {
    pub position_a: Point,
    pub position_b: Point,
    pub degree_and_class_a: u32,
    pub degree_and_class_b: u32,
}

pub open spec fn node_instance(p: Person) -> NodeInstanceData {
    NodeInstanceData {
        position: p.position,
        degree_and_class: ((p.modularity_class as u32) << 16u32 | (p.neighbors@.len() as u32)),
    }
}

/// The node data of every person, in order.
pub fn node_instances(persons: &[Person]) -> (r: Vec<NodeInstanceData>)
    ensures
        r@ == persons@.map_values(|p: Person| node_instance(p)),
{
    let mut r: Vec<NodeInstanceData> = Vec::new();
    let mut i: usize = 0;
    while i < persons.len()
        invariant
            i <= persons@.len(),
            r@ == persons@.take(i as int).map_values(|p: Person| node_instance(p)),
        decreases persons@.len() - i,
    {
        let p = &persons[i];
        r.push(
            NodeInstanceData {
                position: p.position,
                degree_and_class: degree_and_class(p.modularity_class, p.neighbors.len()),
            },
        );
        proof {
            assert(persons@.take(i + 1).map_values(|p: Person| node_instance(p)) =~= r@);
        }
        i += 1;
    }
    proof {
        assert(persons@.take(i as int) =~= persons@);
    }
    r
}

pub open spec fn edge_instance(pa: Person, pb: Person) -> EdgeInstanceData {
    EdgeInstanceData {
        position_a: pa.position,
        position_b: pb.position,
        degree_and_class_a: node_instance(pa).degree_and_class,
        degree_and_class_b: node_instance(pb).degree_and_class,
    }
}

// ---------------------------------------------------------------------------
// The links of a graph
// ---------------------------------------------------------------------------

/// The links of node `a` to larger neighbours, in list order.
pub open spec fn upper_links(a: int, nbs: Seq<usize>) -> Seq<(usize, usize)>
    decreases nbs.len(),
{
    if nbs.len() == 0 {
        Seq::empty()
    } else {
        upper_links(a, nbs.drop_last()) + (if a < nbs.last() {
            seq![(a as usize, nbs.last())]
        } else {
            Seq::empty()
        })
    }
}

/// Every link once, from its smaller end, node by node.
pub open spec fn graph_edges(nl: Seq<Seq<usize>>) -> Seq<(usize, usize)>
    decreases nl.len(),
{
    if nl.len() == 0 {
        Seq::empty()
    } else {
        graph_edges(nl.drop_last()) + upper_links(nl.len() - 1, nl.last())
    }
}

/// A graph given by its nodes' neighbour lists.
pub trait AbstractGraph {
    spec fn lists(&self) -> Seq<Seq<usize>>;

    /// Every link once, from its smaller end to its larger one.
    fn get_edges(&self) -> (r: Vec<(usize, usize)>)
        ensures
            r@ == graph_edges(self.lists()),
    ;
}

impl<N: AbstractNode> AbstractGraph for Vec<N> {
    open spec fn lists(&self) -> Seq<Seq<usize>> {
        adjacency(self@)
    }

    fn get_edges(&self) -> (r: Vec<(usize, usize)>) {
        let ghost g = adjacency(self@);
        let mut r: Vec<(usize, usize)> = Vec::new();
        let mut i: usize = 0;
        proof {
            assert(g.take(0) =~= Seq::<Seq<usize>>::empty());
        }
        while i < self.len()
            invariant
                g == adjacency(self@),
                i <= self@.len(),
                r@ == graph_edges(g.take(i as int)),
            decreases self@.len() - i,
        {
            let nbs = self[i].neighbors();
            assert(nbs@ == g[i as int]);
            let ghost base = r@;
            let mut k: usize = 0;
            proof {
                assert(upper_links(i as int, nbs@.take(0)) =~= Seq::<(usize, usize)>::empty());
            }
            while k < nbs.len()
                invariant
                    k <= nbs@.len(),
                    r@ == base + upper_links(i as int, nbs@.take(k as int)),
                decreases nbs@.len() - k,
            {
                let j = nbs[k];
                proof {
                    assert(nbs@.take(k + 1).drop_last() =~= nbs@.take(k as int));
                }
                if i < j {
                    r.push((i, j));
                }
                proof {
                    assert(r@ =~= base + upper_links(i as int, nbs@.take(k + 1)));
                }
                k += 1;
            }
            proof {
                assert(nbs@.take(k as int) =~= nbs@);
                assert(g.take(i + 1).drop_last() =~= g.take(i as int));
            }
            i += 1;
        }
        proof {
            assert(g.take(i as int) =~= g);
        }
        r
    }
}


/// The key of each link: its length (as the bit pattern of a non-negative
/// float, which orders as the length does) and its number.
pub open spec fn length_keys(length_bits: Seq<u32>) -> Seq<(usize, usize)> {
    Seq::new(length_bits.len(), |i: int| (length_bits[i] as usize, i as usize))
}

/// The link data of every link, the longest first (ties: the later link
/// first), so that short links are drawn over long ones.
pub fn edge_instances(persons: &[Person], edges: &[EdgeStore], length_bits: &[u32]) -> (r: Vec<EdgeInstanceData>)
    requires
        edges@.len() == length_bits@.len(),
        forall|i: int|
            0 <= i < edges@.len() ==> (#[trigger] edges@[i]).a < persons@.len() && edges@[i].b < persons@.len(),
    ensures
        exists|keys: Seq<(usize, usize)>|
            {
                &&& keys.to_multiset() == length_keys(length_bits@).to_multiset()
                &&& keys.len() == edges@.len()
                &&& pairs_sorted(keys)
                &&& r@.len() == keys.len()
                &&& forall|j: int|
                    0 <= j < r@.len() ==> {
                        let e = edges@[keys[keys.len() - 1 - j].1 as int];
                        #[trigger] r@[j] == edge_instance(persons@[e.a as int], persons@[e.b as int])
                    }
            },
{
    let m = edges.len();
    let mut keys: Vec<(usize, usize)> = Vec::new();
    let mut i: usize = 0;
    while i < m
        invariant
            m == edges@.len(),
            m == length_bits@.len(),
            i <= m,
            keys@ == length_keys(length_bits@).take(i as int),
        decreases m - i,
    {
        keys.push((length_bits[i] as usize, i));
        proof {
            assert(keys@ =~= length_keys(length_bits@).take(i + 1));
        }
        i += 1;
    }
    proof {
        assert(length_keys(length_bits@).take(m as int) =~= length_keys(length_bits@));
    }
    sort_pairs(&mut keys);
    proof {
        assert forall|t: int| 0 <= t < keys@.len() implies #[trigger] keys@[t].1 < m by {
            keys@.to_multiset_ensures();
            length_keys(length_bits@).to_multiset_ensures();
            assert(keys@.contains(keys@[t]));
            assert(keys@.to_multiset().count(keys@[t]) > 0);
            assert(length_keys(length_bits@).to_multiset().count(keys@[t]) > 0);
            assert(length_keys(length_bits@).contains(keys@[t]));
        }
    }
    let mut r: Vec<EdgeInstanceData> = Vec::new();
    let mut j: usize = 0;
    while j < m
        invariant
            m == edges@.len(),
            keys@.len() == m,
            forall|t: int| 0 <= t < keys@.len() ==> #[trigger] keys@[t].1 < m,
            forall|i: int|
                0 <= i < edges@.len() ==> (#[trigger] edges@[i]).a < persons@.len() && edges@[i].b < persons@.len(),
            j <= m,
            r@.len() == j,
            forall|t: int|
                0 <= t < j ==> {
                    let e = edges@[keys@[m - 1 - t].1 as int];
                    #[trigger] r@[t] == edge_instance(persons@[e.a as int], persons@[e.b as int])
                },
        decreases m - j,
    {
        let idx = keys[m - 1 - j].1;
        let e = edges[idx];
        let pa = &persons[e.a as usize];
        let pb = &persons[e.b as usize];
        r.push(
            EdgeInstanceData {
                position_a: pa.position,
                position_b: pb.position,
                degree_and_class_a: degree_and_class(pa.modularity_class, pa.neighbors.len()),
                degree_and_class_b: degree_and_class(pb.modularity_class, pb.neighbors.len()),
            },
        );
        j += 1;
    }
    r
}

} // verus!
