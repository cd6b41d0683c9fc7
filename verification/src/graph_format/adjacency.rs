//! The neighbour lists of a stored graph.
use vstd::prelude::*;
use crate::graph_format::{GraphFile, GraphFileView, NodeStoreView};

verus! {

/// The links stored at node `i`, as pairs (node, stored neighbour).
pub open spec fn node_links(i: int, n: NodeStoreView) -> Seq<(u32, u32)> {
    n.edges.map_values(|e: u32| (i as u32, e))
}

/// Every stored link, node by node, each node's in its stored order.
pub open spec fn link_pairs(nodes: Seq<NodeStoreView>) -> Seq<(u32, u32)>
    decreases nodes.len(),
{
    if nodes.len() == 0 {
        Seq::empty()
    } else {
        link_pairs(nodes.drop_last()) + node_links(nodes.len() - 1, nodes.last())
    }
}

/// The neighbour list of `u` built from `pairs`: for each link, in order,
/// its other end, once for each end that is `u`.
pub open spec fn neighbors_from(pairs: Seq<(u32, u32)>, u: int) -> Seq<u32>
    decreases pairs.len(),
{
    if pairs.len() == 0 {
        Seq::empty()
    } else {
        let (a, b) = pairs.last();
        neighbors_from(pairs.drop_last(), u) + (if a == u {
            seq![b]
        } else {
            Seq::empty()
        }) + (if b == u {
            seq![a]
        } else {
            Seq::empty()
        })
    }
}

/// Every stored link ends at a node of the file.
pub open spec fn links_valid(f: GraphFileView) -> bool {
    forall|i: int, k: int| 0 <= i < f.nodes.len() && 0 <= k < f.nodes[i].edges.len() ==> #[trigger] f.nodes[i].edges[k] < f.nodes.len()
}

impl GraphFile {
    /// The neighbour list of every node: each stored link is listed at both
    /// of its ends.
    pub fn get_adjacency(&self) -> (r: Vec<Vec<u32>>)
        requires
            links_valid(self@),
            self@.nodes.len() <= 0x1_0000_0000,
        ensures
            r@.len() == self@.nodes.len(),
            forall|u: int| 0 <= u < r@.len() ==> (#[trigger] r@[u])@ == neighbors_from(link_pairs(self@.nodes), u),
    {
        let ghost nv = self@.nodes;
        let n = self.nodes.len();
        let mut persons: Vec<Vec<u32>> = Vec::new();
        while persons.len() < n
            invariant
                n == nv.len(),
                persons@.len() <= n,
                forall|u: int| 0 <= u < persons@.len() ==> (#[trigger] persons@[u])@ == Seq::<u32>::empty(),
            decreases n - persons@.len(),
        {
            persons.push(Vec::new());
        }
        proof {
            assert forall|u: int| 0 <= u < persons@.len() implies (#[trigger] persons@[u])@ == neighbors_from(
                link_pairs(nv.take(0)),
                u,
            ) by {
                assert(nv.take(0) =~= Seq::<NodeStoreView>::empty());
            }
        }
        let mut i: usize = 0;
        while i < n
            invariant
                nv == self@.nodes,
                n == nv.len(),
                n <= 0x1_0000_0000,
                links_valid(self@),
                i <= n,
                persons@.len() == n,
                forall|u: int| 0 <= u < n ==> (#[trigger] persons@[u])@ == neighbors_from(link_pairs(nv.take(i as int)), u),
            decreases n - i,
        {
            let node = &self.nodes[i];
            assert(node@ == nv[i as int]);
            let ghost base = link_pairs(nv.take(i as int));
            let ghost links = node_links(i as int, nv[i as int]);
            let mut k: usize = 0;
            proof {
                assert(links.take(0) =~= Seq::<(u32, u32)>::empty());
                assert(base + links.take(0) =~= base);
            }
            while k < node.edges.len()
                invariant
                    nv == self@.nodes,
                    n == nv.len(),
                    n <= 0x1_0000_0000,
                    links_valid(self@),
                    i < n,
                    node@ == nv[i as int],
                    links == node_links(i as int, nv[i as int]),
                    k <= node.edges@.len(),
                    persons@.len() == n,
                    forall|u: int| 0 <= u < n ==> (#[trigger] persons@[u])@ == neighbors_from(base + links.take(k as int), u),
                decreases node.edges@.len() - k,
            {
                let e = node.edges[k];
                assert(e < n) by {
                    assert(nv[i as int].edges[k as int] == e);
                }
                let ghost before = persons@;
                persons[i].push(e);
                persons[e as usize].push(i as u32);
                proof {
                    let p0 = base + links.take(k as int);
                    let p1 = base + links.take(k + 1);
                    assert(p1.drop_last() =~= p0);
                    assert(p1.last() == (i as u32, e));
                    assert forall|u: int| 0 <= u < n implies (#[trigger] persons@[u])@ == neighbors_from(p1, u) by {
                        assert(neighbors_from(p1, u) == neighbors_from(p0, u) + (if i as u32 == u {
                            seq![e]
                        } else {
                            Seq::empty()
                        }) + (if e == u {
                            seq![i as u32]
                        } else {
                            Seq::empty()
                        }));
                        if u == i && u == e {
                            assert(persons@[u]@ =~= before[u]@.push(e).push(i as u32));
                        } else if u == i {
                            assert(persons@[u]@ =~= before[u]@.push(e));
                        } else if u == e {
                            assert(persons@[u]@ =~= before[u]@.push(i as u32));
                        } else {
                            assert(persons@[u]@ =~= before[u]@);
                        }
                        assert(neighbors_from(p1, u) =~= persons@[u]@);
                    }
                }
                k += 1;
            }
            proof {
                assert(links.take(k as int) =~= links);
                assert(nv.take(i + 1).drop_last() =~= nv.take(i as int));
                assert(link_pairs(nv.take(i + 1)) == base + links);
            }
            i += 1;
        }
        proof {
            assert(nv.take(n as int) =~= nv);
        }
        persons
    }
}


/// The number of times `v` occurs in `s`.
pub open spec fn count_in(s: Seq<u32>, v: u32) -> nat
    decreases s.len(),
{
    if s.len() == 0 {
        0
    } else {
        count_in(s.drop_last(), v) + (if s.last() == v {
            1nat
        } else {
            0nat
        })
    }
}

proof fn lemma_count_concat(a: Seq<u32>, b: Seq<u32>, v: u32)
    ensures
        count_in(a + b, v) == count_in(a, v) + count_in(b, v),
    decreases b.len(),
{
    if b.len() > 0 {
        lemma_count_concat(a, b.drop_last(), v);
        assert((a + b).drop_last() =~= a + b.drop_last());
    } else {
        assert(a + b =~= a);
    }
}

/// Neighbour lists built from links are symmetric: `v` is listed at `u` as
/// often as `u` is listed at `v`.
pub proof fn lemma_neighbors_symmetric(pairs: Seq<(u32, u32)>, u: u32, v: u32)
    ensures
        count_in(neighbors_from(pairs, u as int), v) == count_in(neighbors_from(pairs, v as int), u),
    decreases pairs.len(),
{
    if pairs.len() > 0 {
        lemma_neighbors_symmetric(pairs.drop_last(), u, v);
        let (a, b) = pairs.last();
        let x = if a == u {
            seq![b]
        } else {
            Seq::empty()
        };
        let y = if b == u {
            seq![a]
        } else {
            Seq::empty()
        };
        let x2 = if a == v {
            seq![b]
        } else {
            Seq::empty()
        };
        let y2 = if b == v {
            seq![a]
        } else {
            Seq::empty()
        };
        lemma_count_concat(neighbors_from(pairs.drop_last(), u as int), x, v);
        lemma_count_concat(neighbors_from(pairs.drop_last(), u as int) + x, y, v);
        lemma_count_concat(neighbors_from(pairs.drop_last(), v as int), x2, u);
        lemma_count_concat(neighbors_from(pairs.drop_last(), v as int) + x2, y2, u);
        reveal_with_fuel(count_in, 2);
    }
}

} // verus!
