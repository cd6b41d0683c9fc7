//! Building a graph file from a person database: persons and their strings,
//! links, the layout and the communities computed elsewhere, and a check
//! that every person can be reached.
use vstd::prelude::*;
use vstd::utf8::encode_utf8;
use crate::graph_format::{Color3b, GraphFile, GraphFileView, NodeStore, NodeStoreView, Point};
use crate::graph_format::adjacency::{link_pairs, neighbors_from, node_links};
use crate::subgraph::{ball, one_step};
use ahash::AHashMap;
use crate::third_party::{id_map_contents, id_map_get, id_map_insert, id_map_new, pairs_sorted, sort_pairs};

verus! {

/// A person just read from the database: no position, size, community or
/// links yet; its strings start where the tables ended.
pub open spec fn new_node(offset_id: u32, offset_name: u32) -> NodeStoreView {
    NodeStoreView {
        position: Point { x_bits: 0, y_bits: 0 },
        size_bits: 0,
        class: 0,
        offset_id,
        offset_name,
        total_edge_count: 0,
        edge_count: 0,
        edges: Seq::empty(),
    }
}

/// Appends the bytes of `s` and a zero byte.
fn push_cstr(table: &mut Vec<u8>, s: &str)
    ensures
        final(table)@ == old(table)@ + encode_utf8(s@) + seq![0u8],
{
    let bytes = s.as_bytes();
    let mut i: usize = 0;
    while i < bytes.len()
        invariant
            i <= bytes@.len(),
            bytes@ == encode_utf8(s@),
            table@ == old(table)@ + bytes@.take(i as int),
        decreases bytes@.len() - i,
    {
        table.push(bytes[i]);
        i += 1;
        proof {
            assert(table@ =~= old(table)@ + bytes@.take(i as int));
        }
    }
    table.push(0);
    proof {
        assert(bytes@.take(i as int) =~= bytes@);
        assert(table@ =~= old(table)@ + encode_utf8(s@) + seq![0u8]);
    }
}

/// The number of link ends at `v`: a link from `v` to itself counts twice.
pub open spec fn end_count(es: Seq<(usize, usize)>, v: int) -> nat
    decreases es.len(),
{
    if es.len() == 0 {
        0
    } else {
        end_count(es.drop_last(), v) + (if es.last().0 == v {
            1nat
        } else {
            0nat
        }) + (if es.last().1 == v {
            1nat
        } else {
            0nat
        })
    }
}

/// The first ends of the links whose second end is `v`, in order.
pub open spec fn lower_ends(es: Seq<(usize, usize)>, v: int) -> Seq<u32>
    decreases es.len(),
{
    if es.len() == 0 {
        Seq::empty()
    } else {
        lower_ends(es.drop_last(), v) + (if es.last().1 == v {
            seq![es.last().0 as u32]
        } else {
            Seq::empty()
        })
    }
}

/// The persons reachable from the first one.
pub open spec fn reached_from_first(g: Seq<Seq<usize>>, v: usize) -> bool {
    exists|d: nat| #[trigger] ball(g, 0, d).contains(v)
}

/// The persons, in increasing order, below `k` that cannot be reached from
/// the first one.
pub open spec fn unreached_below(g: Seq<Seq<usize>>, k: nat) -> Seq<usize>
    decreases k,
{
    if k == 0 {
        Seq::empty()
    } else {
        unreached_below(g, (k - 1) as nat) + (if !reached_from_first(g, (k - 1) as usize) {
            seq![(k - 1) as usize]
        } else {
            Seq::empty()
        })
    }
}

/// Neighbour lists with their entries as indices.
pub open spec fn as_index_lists(adj: Seq<Vec<u32>>) -> Seq<Seq<usize>> {
    adj.map_values(|l: Vec<u32>| l@.map_values(|x: u32| x as usize))
}

impl GraphFile {
    /// Appends a person, its id and its name; returns its number.
    pub fn add_person(&mut self, uid: &str, name: &str) -> (r: usize)
        requires
            old(self).ids@.len() <= u32::MAX,
            old(self).names@.len() <= u32::MAX,
        ensures
            r == old(self)@.nodes.len(),
            final(self)@.nodes == old(self)@.nodes.push(
                new_node(old(self)@.ids.len() as u32, old(self)@.names.len() as u32),
            ),
            final(self)@.ids == old(self)@.ids + encode_utf8(uid@) + seq![0u8],
            final(self)@.names == old(self)@.names + encode_utf8(name@) + seq![0u8],
            final(self)@.classes == old(self)@.classes,
            final(self)@.class_count == old(self)@.class_count,
            final(self)@.node_count == old(self)@.node_count,
            final(self)@.ids_size == old(self)@.ids_size,
            final(self)@.names_size == old(self)@.names_size,
    {
        let r = self.nodes.len();
        let pers = NodeStore {
            position: Point { x_bits: 0, y_bits: 0 },
            size_bits: 0,
            class: 0,
            offset_id: self.ids.len() as u32,
            offset_name: self.names.len() as u32,
            total_edge_count: 0,
            edge_count: 0,
            edges: Vec::new(),
        };
        self.nodes.push(pers);
        push_cstr(&mut self.ids, uid);
        push_cstr(&mut self.names, name);
        proof {
            assert(self@.nodes =~= old(self)@.nodes.push(
                new_node(old(self)@.ids.len() as u32, old(self)@.names.len() as u32),
            ));
        }
        r
    }

    /// Sorts the links (by first end, then second) and stores each at its
    /// second end, counting it at both ends; then sets every stored edge
    /// count.
    pub fn attach_edges(&mut self, edges: &mut Vec<(usize, usize)>)
        requires
            old(self)@.nodes.len() <= 0x1_0000_0000,
            forall|i: int|
                0 <= i < old(edges)@.len() ==> (#[trigger] old(edges)@[i]).0 < old(self)@.nodes.len()
                    && old(edges)@[i].1 < old(self)@.nodes.len(),
            forall|v: int|
                0 <= v < old(self)@.nodes.len() ==> #[trigger] old(self)@.nodes[v].total_edge_count + end_count(
                    old(edges)@,
                    v,
                ) <= u16::MAX,
        ensures
            final(edges)@.to_multiset() == old(edges)@.to_multiset(),
            pairs_sorted(final(edges)@),
            final(self)@.nodes.len() == old(self)@.nodes.len(),
            forall|v: int|
                0 <= v < final(self)@.nodes.len() ==> {
                    let o = old(self)@.nodes[v];
                    let n = #[trigger] final(self)@.nodes[v];
                    &&& n.position == o.position
                    &&& n.size_bits == o.size_bits
                    &&& n.class == o.class
                    &&& n.offset_id == o.offset_id
                    &&& n.offset_name == o.offset_name
                    &&& n.total_edge_count == o.total_edge_count + end_count(final(edges)@, v)
                    &&& n.edges == o.edges + lower_ends(final(edges)@, v)
                    &&& n.edge_count == (n.edges.len() % 0x1_0000) as u16
                },
            final(self)@.classes == old(self)@.classes,
            final(self)@.ids == old(self)@.ids,
            final(self)@.names == old(self)@.names,
            final(self)@.class_count == old(self)@.class_count,
            final(self)@.node_count == old(self)@.node_count,
            final(self)@.ids_size == old(self)@.ids_size,
            final(self)@.names_size == old(self)@.names_size,
    {
        sort_pairs(edges);
        let ghost es = edges@;
        let ghost o = self@.nodes;
        proof {
            assert forall|v: int| 0 <= v < o.len() implies #[trigger] o[v].total_edge_count + end_count(es, v) <= u16::MAX by {
                lemma_end_count_perm(old(edges)@, es, v);
            }
            assert forall|i: int| 0 <= i < es.len() implies (#[trigger] es[i]).0 < o.len() && es[i].1 < o.len() by {
                broadcast use vstd::seq_lib::group_to_multiset_ensures;
                assert(es.to_multiset().count(es[i]) > 0);
                assert(old(edges)@.contains(es[i]));
            }
        }
        let n = self.nodes.len();
        let mut i: usize = 0;
        while i < edges.len()
            invariant
                es == edges@,
                n == o.len(),
                n <= 0x1_0000_0000,
                self@.nodes.len() == n,
                forall|j: int| 0 <= j < es.len() ==> (#[trigger] es[j]).0 < n && es[j].1 < n,
                forall|v: int| 0 <= v < n ==> #[trigger] o[v].total_edge_count + end_count(es, v) <= u16::MAX,
                i <= es.len(),
                forall|v: int|
                    0 <= v < n ==> {
                        let a = o[v];
                        let b = #[trigger] self@.nodes[v];
                        &&& b.position == a.position
                        &&& b.size_bits == a.size_bits
                        &&& b.class == a.class
                        &&& b.offset_id == a.offset_id
                        &&& b.offset_name == a.offset_name
                        &&& b.edge_count == a.edge_count
                        &&& b.total_edge_count == a.total_edge_count + end_count(es.take(i as int), v)
                        &&& b.edges == a.edges + lower_ends(es.take(i as int), v)
                    },
                self@.classes == old(self)@.classes,
                self@.ids == old(self)@.ids,
                self@.names == old(self)@.names,
                self@.class_count == old(self)@.class_count,
                self@.node_count == old(self)@.node_count,
                self@.ids_size == old(self)@.ids_size,
                self@.names_size == old(self)@.names_size,
            decreases es.len() - i,
        {
            let (a, b) = edges[i];
            proof {
                assert(es.take(i + 1).drop_last() =~= es.take(i as int));
                lemma_end_count_prefix(es, i + 1, a as int);
                lemma_end_count_prefix(es, i + 1, b as int);
            }
            let ghost before = self@.nodes;
            proof {
                assert(self.nodes@[a as int]@ == before[a as int]);
                assert(self.nodes@[b as int]@ == before[b as int]);
                assert(end_count(es.take(i + 1), a as int) >= end_count(es.take(i as int), a as int) + 1);
                assert(end_count(es.take(i + 1), b as int) >= end_count(es.take(i as int), b as int) + 1);
                if a == b {
                    assert(end_count(es.take(i + 1), b as int) == end_count(es.take(i as int), b as int) + 2);
                }
            }
            self.nodes[a].total_edge_count = self.nodes[a].total_edge_count + 1;
            let ghost mid = self@.nodes;
            proof {
                assert(self.nodes@[b as int]@ == mid[b as int]);
            }
            self.nodes[b].edges.push(a as u32);
            self.nodes[b].total_edge_count = self.nodes[b].total_edge_count + 1;
            proof {
                assert forall|v: int| 0 <= v < n implies {
                    let x = o[v];
                    let y = #[trigger] self@.nodes[v];
                    &&& y.position == x.position
                    &&& y.size_bits == x.size_bits
                    &&& y.class == x.class
                    &&& y.offset_id == x.offset_id
                    &&& y.offset_name == x.offset_name
                    &&& y.edge_count == x.edge_count
                    &&& y.total_edge_count == x.total_edge_count + end_count(es.take(i + 1), v)
                    &&& y.edges == x.edges + lower_ends(es.take(i + 1), v)
                } by {
                    assert(self@.nodes[v] == self.nodes@[v]@);
                    if v == b {
                        assert(self@.nodes[v].edges =~= before[v].edges.push(a as u32));
                        assert(o[v].edges + lower_ends(es.take(i + 1), v) =~= o[v].edges + lower_ends(
                            es.take(i as int),
                            v,
                        ) + seq![a as u32]);
                    } else {
                        assert(self@.nodes[v].edges =~= before[v].edges);
                        assert(lower_ends(es.take(i + 1), v) =~= lower_ends(es.take(i as int), v));
                    }
                }
            }
            i += 1;
        }
        proof {
            assert(es.take(i as int) =~= es);
        }
        let mut k: usize = 0;
        while k < n
            invariant
                n == o.len(),
                self@.nodes.len() == n,
                k <= n,
                forall|v: int|
                    0 <= v < n ==> {
                        let a = o[v];
                        let b = #[trigger] self@.nodes[v];
                        &&& b.position == a.position
                        &&& b.size_bits == a.size_bits
                        &&& b.class == a.class
                        &&& b.offset_id == a.offset_id
                        &&& b.offset_name == a.offset_name
                        &&& b.total_edge_count == a.total_edge_count + end_count(es, v)
                        &&& b.edges == a.edges + lower_ends(es, v)
                        &&& v < k ==> b.edge_count == (b.edges.len() % 0x1_0000) as u16
                    },
                self@.classes == old(self)@.classes,
                self@.ids == old(self)@.ids,
                self@.names == old(self)@.names,
                self@.class_count == old(self)@.class_count,
                self@.node_count == old(self)@.node_count,
                self@.ids_size == old(self)@.ids_size,
                self@.names_size == old(self)@.names_size,
            decreases n - k,
        {
            let len = self.nodes[k].edges.len();
            let c = len as u16;
            assert(c == (len % 0x1_0000) as u16) by (bit_vector)
                requires
                    c == len as u16;
            let ghost before = self@.nodes;
            proof {
                assert(self.nodes@[k as int]@ == before[k as int]);
            }
            self.nodes[k].edge_count = c;
            proof {
                assert forall|v: int| 0 <= v < n implies #[trigger] self@.nodes[v] == (if v == k {
                    NodeStoreView { edge_count: c, ..before[v] }
                } else {
                    before[v]
                }) by {
                    assert(self@.nodes[v] == self.nodes@[v]@);
                }
            }
            k += 1;
        }
    }
}

proof fn lemma_end_count_prefix(es: Seq<(usize, usize)>, j: int, v: int)
    requires
        0 <= j <= es.len(),
    ensures
        end_count(es.take(j), v) <= end_count(es, v),
    decreases es.len() - j,
{
    if j < es.len() {
        lemma_end_count_prefix(es, j + 1, v);
        assert(es.take(j + 1).drop_last() =~= es.take(j));
    } else {
        assert(es.take(j) =~= es);
    }
}

/// The number of link ends at a node does not depend on the order of the
/// links.
proof fn lemma_end_count_perm(a: Seq<(usize, usize)>, b: Seq<(usize, usize)>, v: int)
    requires
        a.to_multiset() == b.to_multiset(),
    ensures
        end_count(a, v) == end_count(b, v),
    decreases a.len(),
{
    broadcast use vstd::seq_lib::group_to_multiset_ensures;
    if a.len() == 0 {
        assert(a.to_multiset().len() == 0);
        assert(b.to_multiset().len() == b.len());
        assert(b.len() == 0);
    } else {
        let x = a.last();
        assert(b.to_multiset().count(x) > 0);
        assert(b.contains(x));
        let k = choose|k: int| 0 <= k < b.len() && b[k] == x;
        let b2 = b.remove(k);
        assert(a.drop_last().to_multiset() == b2.to_multiset()) by {
            assert(a =~= a.drop_last().push(x));
            assert(a.to_multiset() == a.drop_last().to_multiset().insert(x));
            assert(b2.to_multiset() == b.to_multiset().remove(x));
        }
        lemma_end_count_perm(a.drop_last(), b2, v);
        lemma_end_count_remove(b, k, v);
    }
}

/// Removing a link removes its ends.
proof fn lemma_end_count_remove(b: Seq<(usize, usize)>, k: int, v: int)
    requires
        0 <= k < b.len(),
    ensures
        end_count(b, v) == end_count(b.remove(k), v) + (if b[k].0 == v {
            1nat
        } else {
            0nat
        }) + (if b[k].1 == v {
            1nat
        } else {
            0nat
        }),
    decreases b.len(),
{
    if k < b.len() - 1 {
        lemma_end_count_remove(b.drop_last(), k, v);
        assert(b.remove(k).drop_last() =~= b.drop_last().remove(k));
        assert(b.remove(k).last() == b.last());
    } else {
        assert(b.remove(k) =~= b.drop_last());
    }
}


/// The number of ends of the stored links `pairs` that are `u`.
pub open spec fn pair_ends(pairs: Seq<(u32, u32)>, u: int) -> nat
    decreases pairs.len(),
{
    if pairs.len() == 0 {
        0
    } else {
        pair_ends(pairs.drop_last(), u) + (if pairs.last().0 == u {
            1nat
        } else {
            0nat
        }) + (if pairs.last().1 == u {
            1nat
        } else {
            0nat
        })
    }
}

proof fn lemma_neighbors_len(pairs: Seq<(u32, u32)>, u: int)
    ensures
        neighbors_from(pairs, u).len() == pair_ends(pairs, u),
    decreases pairs.len(),
{
    if pairs.len() > 0 {
        lemma_neighbors_len(pairs.drop_last(), u);
    }
}

proof fn lemma_pair_ends_concat(s: Seq<(u32, u32)>, t: Seq<(u32, u32)>, u: int)
    ensures
        pair_ends(s + t, u) == pair_ends(s, u) + pair_ends(t, u),
    decreases t.len(),
{
    if t.len() > 0 {
        assert((s + t).drop_last() =~= s + t.drop_last());
        lemma_pair_ends_concat(s, t.drop_last(), u);
    } else {
        assert(s + t =~= s);
    }
}

proof fn lemma_no_links(nodes: Seq<NodeStoreView>)
    requires
        forall|v: int| 0 <= v < nodes.len() ==> (#[trigger] nodes[v]).edges.len() == 0,
    ensures
        link_pairs(nodes).len() == 0,
    decreases nodes.len(),
{
    if nodes.len() > 0 {
        let t = nodes.drop_last();
        assert forall|v: int| 0 <= v < t.len() implies (#[trigger] t[v]).edges.len() == 0 by {
            assert(t[v] == nodes[v]);
        }
        lemma_no_links(t);
    }
}

/// Storing one more link `e` at node `b` adds one end at `b` and one at `e`.
proof fn lemma_pair_ends_store(nodes: Seq<NodeStoreView>, b: int, e: u32, u: int)
    requires
        0 <= b < nodes.len(),
        nodes.len() <= 0x1_0000_0000,
    ensures
        pair_ends(link_pairs(nodes.update(b, NodeStoreView { edges: nodes[b].edges.push(e), ..nodes[b] })), u)
            == pair_ends(link_pairs(nodes), u) + (if b == u {
            1nat
        } else {
            0nat
        }) + (if e == u {
            1nat
        } else {
            0nat
        }),
    decreases nodes.len(),
{
    let m = NodeStoreView { edges: nodes[b].edges.push(e), ..nodes[b] };
    let nodes2 = nodes.update(b, m);
    let last = nodes.len() - 1;
    if b == last {
        assert(nodes2.drop_last() =~= nodes.drop_last());
        assert(node_links(last, m) =~= node_links(last, nodes[b]).push((last as u32, e)));
        lemma_pair_ends_concat(link_pairs(nodes.drop_last()), node_links(last, nodes[b]), u);
        lemma_pair_ends_concat(link_pairs(nodes.drop_last()), node_links(last, m), u);
        assert(node_links(last, m).drop_last() =~= node_links(last, nodes[b]));
    } else {
        assert(nodes2.drop_last() =~= nodes.drop_last().update(b, m));
        assert(nodes2.last() == nodes.last());
        lemma_pair_ends_store(nodes.drop_last(), b, e, u);
        lemma_pair_ends_concat(link_pairs(nodes.drop_last()), node_links(last, nodes.last()), u);
        lemma_pair_ends_concat(link_pairs(nodes2.drop_last()), node_links(last, nodes.last()), u);
    }
}

/// Nodes whose stored links are those that `attach_edges` stores for `es`
/// have, at every node, as many link ends as `es` has.
proof fn lemma_pair_ends_attached(nodes: Seq<NodeStoreView>, es: Seq<(usize, usize)>, u: int)
    requires
        nodes.len() <= 0x1_0000_0000,
        forall|i: int| 0 <= i < es.len() ==> (#[trigger] es[i]).0 < nodes.len() && es[i].1 < nodes.len(),
        forall|v: int| 0 <= v < nodes.len() ==> (#[trigger] nodes[v]).edges == lower_ends(es, v),
    ensures
        pair_ends(link_pairs(nodes), u) == end_count(es, u),
    decreases es.len(),
{
    if es.len() == 0 {
        lemma_no_links(nodes);
    } else {
        let e0 = es.drop_last();
        let (a, b) = es.last();
        let prev = Seq::new(nodes.len(), |v: int| NodeStoreView { edges: lower_ends(e0, v), ..nodes[v] });
        assert forall|i: int| 0 <= i < e0.len() implies (#[trigger] e0[i]).0 < prev.len() && e0[i].1 < prev.len() by {
            assert(e0[i] == es[i]);
        }
        lemma_pair_ends_attached(prev, e0, u);
        assert(es[es.len() - 1] == es.last());
        let m = NodeStoreView { edges: prev[b as int].edges.push(a as u32), ..prev[b as int] };
        assert(nodes =~= prev.update(b as int, m)) by {
            assert forall|v: int| 0 <= v < nodes.len() implies nodes[v] == prev.update(b as int, m)[v] by {
                if v == b {
                    assert(nodes[v].edges =~= m.edges);
                } else {
                    assert(nodes[v].edges =~= prev[v].edges);
                }
            }
        }
        lemma_pair_ends_store(prev, b as int, a as u32, u);
    }
}

/// The number of links stored for a node, counted at both ends, is the
/// length of its neighbour list: for persons added with no links, the
/// count that `attach_edges` stores at each node is the length of the list
/// that `get_adjacency` gives it.
pub proof fn lemma_stored_degree_is_neighbor_count(
    before: Seq<NodeStoreView>,
    es: Seq<(usize, usize)>,
    after: Seq<NodeStoreView>,
    v: int,
)
    requires
        before.len() <= 0x1_0000_0000,
        after.len() == before.len(),
        0 <= v < before.len(),
        forall|i: int| 0 <= i < es.len() ==> (#[trigger] es[i]).0 < before.len() && es[i].1 < before.len(),
        forall|w: int|
            0 <= w < before.len() ==> (#[trigger] before[w]).edges.len() == 0 && before[w].total_edge_count == 0,
        forall|w: int|
            0 <= w < after.len() ==> {
                &&& (#[trigger] after[w]).total_edge_count == before[w].total_edge_count + end_count(es, w)
                &&& after[w].edges == before[w].edges + lower_ends(es, w)
            },
    ensures
        after[v].total_edge_count == neighbors_from(link_pairs(after), v).len(),
{
    assert forall|w: int| 0 <= w < after.len() implies (#[trigger] after[w]).edges == lower_ends(es, w) by {
        assert(before[w].edges + lower_ends(es, w) =~= lower_ends(es, w));
    }
    lemma_pair_ends_attached(after, es, v);
    lemma_neighbors_len(link_pairs(after), v);
}

/// A graph file being built from a person database: the file, the node
/// number of each database number read, and the links read so far, as
/// pairs of node numbers.
pub struct Importer {
    pub file: GraphFile,
    pub node_ids: AHashMap<u64, usize>,
    pub edges: Vec<(usize, usize)>,
}

impl Importer {
    /// Every node number known is a node of the file, and so is every end of
    /// a link read.
    pub open spec fn wf(&self) -> bool {
        &&& forall|k: u64| #[trigger] id_map_contents(self.node_ids).contains_key(k)
            ==> id_map_contents(self.node_ids)[k] < self.file@.nodes.len()
        &&& forall|i: int|
            0 <= i < self.edges@.len() ==> (#[trigger] self.edges@[i]).0 < self.file@.nodes.len()
                && self.edges@[i].1 < self.file@.nodes.len()
    }

    /// An empty file, no database number known, no link read.
    pub fn new() -> (r: Importer)
        ensures
            r.wf(),
            r.file@.nodes.len() == 0,
            r.file@.ids.len() == 0,
            r.file@.names.len() == 0,
            r.file@.classes.len() == 0,
            id_map_contents(r.node_ids).is_empty(),
            r.edges@.len() == 0,
    {
        Importer { file: GraphFile::default(), node_ids: id_map_new(), edges: Vec::new() }
    }

    /// Adds the person read under database number `id`, with its id and
    /// name; returns its node number.
    pub fn add_node(&mut self, id: u64, uid: &str, name: &str) -> (r: usize)
        requires
            old(self).wf(),
            old(self).file.ids@.len() <= u32::MAX,
            old(self).file.names@.len() <= u32::MAX,
        ensures
            final(self).wf(),
            r == old(self).file@.nodes.len(),
            final(self).file@.nodes == old(self).file@.nodes.push(
                new_node(old(self).file@.ids.len() as u32, old(self).file@.names.len() as u32),
            ),
            final(self).file@.ids == old(self).file@.ids + encode_utf8(uid@) + seq![0u8],
            final(self).file@.names == old(self).file@.names + encode_utf8(name@) + seq![0u8],
            final(self).file@.classes == old(self).file@.classes,
            id_map_contents(final(self).node_ids) == id_map_contents(old(self).node_ids).insert(id, r),
            final(self).edges@ == old(self).edges@,
    {
        let r = self.file.add_person(uid, name);
        id_map_insert(&mut self.node_ids, id, r);
        r
    }

    /// Reads the link between the persons of database numbers `id1` and
    /// `id2`; a link to a person not read is skipped. Returns whether it
    /// was kept.
    pub fn add_link(&mut self, id1: u64, id2: u64) -> (r: bool)
        requires
            old(self).wf(),
        ensures
            final(self).wf(),
            final(self).file@ == old(self).file@,
            id_map_contents(final(self).node_ids) == id_map_contents(old(self).node_ids),
            r == (id_map_contents(old(self).node_ids).contains_key(id1) && id_map_contents(
                old(self).node_ids,
            ).contains_key(id2)),
            r ==> final(self).edges@ == old(self).edges@.push(
                (id_map_contents(old(self).node_ids)[id1], id_map_contents(old(self).node_ids)[id2]),
            ),
            !r ==> final(self).edges@ == old(self).edges@,
    {
        let a = match id_map_get(&self.node_ids, id1) {
            Some(a) => a,
            None => {
                return false;
            },
        };
        let b = match id_map_get(&self.node_ids, id2) {
            Some(b) => b,
            None => {
                return false;
            },
        };
        self.edges.push((a, b));
        true
    }
}

impl GraphFile {
    /// Places nodes where the layout puts them: each entry gives a node's
    /// number and the bit patterns of its coordinates; a later entry for the
    /// same node wins.
    pub fn apply_layout(&mut self, layout: &[(u32, u32, u32)])
        requires
            forall|i: int| 0 <= i < layout@.len() ==> (#[trigger] layout@[i]).0 < old(self)@.nodes.len(),
        ensures
            final(self)@.nodes.len() == old(self)@.nodes.len(),
            forall|v: int|
                0 <= v < final(self)@.nodes.len() ==> #[trigger] final(self)@.nodes[v] == (NodeStoreView {
                    position: placed(layout@, v, old(self)@.nodes[v].position),
                    ..old(self)@.nodes[v]
                }),
            final(self)@.classes == old(self)@.classes,
            final(self)@.ids == old(self)@.ids,
            final(self)@.names == old(self)@.names,
            final(self)@.class_count == old(self)@.class_count,
            final(self)@.node_count == old(self)@.node_count,
            final(self)@.ids_size == old(self)@.ids_size,
            final(self)@.names_size == old(self)@.names_size,
    {
        let ghost o = self@.nodes;
        let mut i: usize = 0;
        while i < layout.len()
            invariant
                i <= layout@.len(),
                forall|j: int| 0 <= j < layout@.len() ==> (#[trigger] layout@[j]).0 < o.len(),
                self@.nodes.len() == o.len(),
                forall|v: int|
                    0 <= v < o.len() ==> #[trigger] self@.nodes[v] == (NodeStoreView {
                        position: placed(layout@.take(i as int), v, o[v].position),
                        ..o[v]
                    }),
                self@.classes == old(self)@.classes,
                self@.ids == old(self)@.ids,
                self@.names == old(self)@.names,
                self@.class_count == old(self)@.class_count,
                self@.node_count == old(self)@.node_count,
                self@.ids_size == old(self)@.ids_size,
                self@.names_size == old(self)@.names_size,
            decreases layout@.len() - i,
        {
            let (id, x, y) = layout[i];
            let ghost before = self@.nodes;
            self.nodes[id as usize].position = Point { x_bits: x, y_bits: y };
            proof {
                assert(layout@.take(i + 1).drop_last() =~= layout@.take(i as int));
                assert forall|v: int| 0 <= v < o.len() implies #[trigger] self@.nodes[v] == NodeStoreView {
                    position: placed(layout@.take(i + 1), v, o[v].position),
                    ..o[v]
                } by {
                    assert(self@.nodes[v] == self.nodes@[v]@);
                    assert(before[v] == self.nodes@[v]@ || v == id);
                    if v == id {
                        assert(self@.nodes[v] =~= NodeStoreView { position: Point { x_bits: x, y_bits: y }, ..before[v] });
                    }
                }
            }
            i += 1;
        }
        proof {
            assert(layout@.take(i as int) =~= layout@);
        }
    }

    /// Adds the communities' colours and gives node `i` community
    /// `comms[i]`.
    pub fn apply_modularity(&mut self, colors: &[Color3b], comms: &[u16])
        requires
            comms@.len() <= old(self)@.nodes.len(),
        ensures
            final(self)@.classes == old(self)@.classes + colors@,
            final(self)@.nodes.len() == old(self)@.nodes.len(),
            forall|v: int|
                0 <= v < final(self)@.nodes.len() ==> #[trigger] final(self)@.nodes[v] == (if v < comms@.len() {
                    NodeStoreView { class: comms@[v], ..old(self)@.nodes[v] }
                } else {
                    old(self)@.nodes[v]
                }),
            final(self)@.ids == old(self)@.ids,
            final(self)@.names == old(self)@.names,
            final(self)@.class_count == old(self)@.class_count,
            final(self)@.node_count == old(self)@.node_count,
            final(self)@.ids_size == old(self)@.ids_size,
            final(self)@.names_size == old(self)@.names_size,
    {
        let mut c: usize = 0;
        while c < colors.len()
            invariant
                c <= colors@.len(),
                self@.classes == old(self)@.classes + colors@.take(c as int),
                self@.nodes == old(self)@.nodes,
                self@.ids == old(self)@.ids,
                self@.names == old(self)@.names,
                self@.class_count == old(self)@.class_count,
                self@.node_count == old(self)@.node_count,
                self@.ids_size == old(self)@.ids_size,
                self@.names_size == old(self)@.names_size,
            decreases colors@.len() - c,
        {
            self.classes.push(colors[c]);
            c += 1;
            proof {
                assert(self@.classes =~= old(self)@.classes + colors@.take(c as int));
            }
        }
        proof {
            assert(colors@.take(c as int) =~= colors@);
        }
        let ghost o = self@.nodes;
        let mut i: usize = 0;
        while i < comms.len()
            invariant
                comms@.len() <= o.len(),
                o == old(self)@.nodes,
                i <= comms@.len(),
                self@.nodes.len() == o.len(),
                forall|v: int|
                    0 <= v < o.len() ==> #[trigger] self@.nodes[v] == (if v < i {
                        NodeStoreView { class: comms@[v], ..o[v] }
                    } else {
                        o[v]
                    }),
                self@.classes == old(self)@.classes + colors@,
                self@.ids == old(self)@.ids,
                self@.names == old(self)@.names,
                self@.class_count == old(self)@.class_count,
                self@.node_count == old(self)@.node_count,
                self@.ids_size == old(self)@.ids_size,
                self@.names_size == old(self)@.names_size,
            decreases comms@.len() - i,
        {
            let ghost before = self@.nodes;
            self.nodes[i].class = comms[i];
            proof {
                assert forall|v: int| 0 <= v < o.len() implies #[trigger] self@.nodes[v] == (if v < i + 1 {
                    NodeStoreView { class: comms@[v], ..o[v] }
                } else {
                    o[v]
                }) by {
                    assert(self@.nodes[v] == self.nodes@[v]@);
                    if v == i {
                        assert(self@.nodes[v] =~= NodeStoreView { class: comms@[v], ..before[v] });
                    } else {
                        assert(before[v] == self.nodes@[v]@);
                    }
                }
            }
            i += 1;
        }
    }

    /// Stores the length of every list in its length field.
    pub fn finish_metadata(&mut self)
        ensures
            final(self)@ == (GraphFileView {
                class_count: (old(self)@.classes.len() % 0x1_0000) as u16,
                node_count: old(self)@.nodes.len() as u64,
                ids_size: old(self)@.ids.len() as u64,
                names_size: old(self)@.names.len() as u64,
                ..old(self)@
            }),
            (old(self)@.classes.len() <= u16::MAX && nodes_wf(old(self)@.nodes)) ==> final(self)@.wf(),
    {
        let len = self.classes.len();
        let c = len as u16;
        assert(c == (len % 0x1_0000) as u16) by (bit_vector)
            requires
                c == len as u16;
        self.class_count = c;
        self.node_count = self.nodes.len() as u64;
        self.ids_size = self.ids.len() as u64;
        self.names_size = self.names.len() as u64;
    }
}

/// Every node's stored edge count is its number of edges.
pub open spec fn nodes_wf(nodes: Seq<NodeStoreView>) -> bool {
    forall|i: int| 0 <= i < nodes.len() ==> (#[trigger] nodes[i]).wf()
}

/// The position a node gets from a layout: that of the last entry for it,
/// or `p` when there is none.
pub open spec fn placed(layout: Seq<(u32, u32, u32)>, v: int, p: Point) -> Point
    decreases layout.len(),
{
    if layout.len() == 0 {
        p
    } else if layout.last().0 == v {
        Point { x_bits: layout.last().1, y_bits: layout.last().2 }
    } else {
        placed(layout.drop_last(), v, p)
    }
}

/// The number of `false` entries.
pub open spec fn count_false(s: Seq<bool>) -> nat
    decreases s.len(),
{
    if s.len() == 0 {
        0
    } else {
        count_false(s.drop_last()) + (if s.last() {
            0nat
        } else {
            1nat
        })
    }
}

proof fn lemma_count_false_set(s: Seq<bool>, i: int)
    requires
        0 <= i < s.len(),
        !s[i],
    ensures
        count_false(s.update(i, true)) + 1 == count_false(s),
    decreases s.len(),
{
    if i < s.len() - 1 {
        lemma_count_false_set(s.drop_last(), i);
        assert(s.update(i, true).drop_last() =~= s.drop_last().update(i, true));
    } else {
        assert(s.update(i, true).drop_last() =~= s.drop_last());
    }
}

/// A set of covered nodes that holds the first one and every neighbour of
/// each node it holds holds every ball around the first node.
proof fn lemma_closed_holds_ball(g: Seq<Seq<usize>>, covered: Seq<bool>, d: nat)
    requires
        covered.len() == g.len(),
        g.len() > 0,
        covered[0],
        forall|u: int, k: int| 0 <= u < g.len() && 0 <= k < g[u].len() ==> #[trigger] g[u][k] < g.len(),
        forall|v: int, k: int| 0 <= v < g.len() && covered[v] && 0 <= k < g[v].len() ==> covered[#[trigger] g[v][k] as int],
    ensures
        forall|v: usize| #[trigger] ball(g, 0, d).contains(v) ==> v < g.len() && covered[v as int],
    decreases d,
{
    if d > 0 {
        lemma_closed_holds_ball(g, covered, (d - 1) as nat);
        assert forall|v: usize| #[trigger] ball(g, 0, d).contains(v) implies v < g.len() && covered[v as int] by {
            if !ball(g, 0, (d - 1) as nat).contains(v) {
                let u = choose|u: usize| ball(g, 0, (d - 1) as nat).contains(u) && u < g.len() && #[trigger] g[u as int].contains(v);
                let k = choose|k: int| 0 <= k < g[u as int].len() && g[u as int][k] == v;
                assert(covered[g[u as int][k] as int]);
            }
        }
    }
}

/// The persons that cannot be reached from the first one, found by a
/// breadth-first search over the neighbour lists; in increasing order.
pub fn unconnected_nodes(adj: &Vec<Vec<u32>>) -> (r: Vec<usize>)
    requires
        adj@.len() > 0,
        adj@.len() <= 0x1_0000_0000,
        forall|u: int, k: int|
            0 <= u < adj@.len() && 0 <= k < adj@[u]@.len() ==> #[trigger] adj@[u]@[k] < adj@.len(),
    ensures
        r@ == unreached_below(as_index_lists(adj@), adj@.len()),
{
    let ghost g = as_index_lists(adj@);
    let n = adj.len();
    proof {
        assert forall|u: int, k: int| 0 <= u < n && 0 <= k < g[u].len() implies #[trigger] g[u][k] < n by {
            assert(g[u][k] == adj@[u]@[k] as usize);
        }
    }
    let mut covered: Vec<bool> = Vec::new();
    while covered.len() < n
        invariant
            covered@.len() <= n,
            forall|v: int| 0 <= v < covered@.len() ==> !#[trigger] covered@[v],
        decreases n - covered@.len(),
    {
        covered.push(false);
    }
    let mut queue: std::collections::VecDeque<u32> = std::collections::VecDeque::new();
    queue.push_back(0);
    covered.set(0, true);
    proof {
        assert(ball(g, 0, 0).contains(0usize));
        assert forall|v: int| 0 <= v < n && #[trigger] covered@[v] implies reached_from_first(g, v as usize) by {
            assert(v == 0);
            assert(ball(g, 0, 0).contains(v as usize));
        }
        assert forall|v: int, k: int|
            0 <= v < n && covered@[v] && !queue@.contains(v as u32) && 0 <= k < g[v].len() implies covered@[#[trigger] g[v][k] as int] by {
            assert(v == 0);
            assert(queue@[0] == 0u32);
        }
    }
    while queue.len() > 0
        invariant
            g == as_index_lists(adj@),
            n == adj@.len(),
            n == g.len(),
            n <= 0x1_0000_0000,
            covered@.len() == n,
            forall|u: int, k: int| 0 <= u < n && 0 <= k < g[u].len() ==> #[trigger] g[u][k] < n,
            covered@[0],
            forall|t: int| 0 <= t < queue@.len() ==> (#[trigger] queue@[t]) < n && covered@[queue@[t] as int],
            forall|v: int| 0 <= v < n && #[trigger] covered@[v] ==> reached_from_first(g, v as usize),
            forall|v: int, k: int|
                0 <= v < n && covered@[v] && !queue@.contains(v as u32) && 0 <= k < g[v].len() ==> covered@[#[trigger] g[
                    v
                ][k] as int],
        decreases count_false(covered@), queue@.len(),
    {
        let ghost q0 = queue@;
        let ghost c0 = covered@;
        let node = queue.pop_front().unwrap();
        let ghost q1 = queue@;
        proof {
            assert(q0[0] == node);
            assert(q1 =~= q0.subrange(1, q0.len() as int));
        }
        let nbs = &adj[node as usize];
        proof {
            assert(forall|k: int| 0 <= k < nbs@.len() ==> #[trigger] g[node as int][k] == nbs@[k] as usize);
            assert(queue@.subrange(0, q1.len() as int) =~= q1);
        }
        let mut k: usize = 0;
        while k < nbs.len()
            invariant
                g == as_index_lists(adj@),
                n == adj@.len(),
                n == g.len(),
                node < n,
                covered@[node as int],
                nbs@ == adj@[node as int]@,
                forall|j: int| 0 <= j < nbs@.len() ==> #[trigger] g[node as int][j] == nbs@[j] as usize,
                covered@.len() == n,
                forall|u: int, j: int| 0 <= u < n && 0 <= j < g[u].len() ==> #[trigger] g[u][j] < n,
                covered@[0],
                forall|t: int| 0 <= t < queue@.len() ==> (#[trigger] queue@[t]) < n && covered@[queue@[t] as int],
                forall|v: int| 0 <= v < n && #[trigger] covered@[v] ==> reached_from_first(g, v as usize),
                n <= 0x1_0000_0000,
                node as int == q0[0],
                q0.len() > 0,
                q1 == q0.subrange(1, q0.len() as int),
                forall|v: int| 0 <= v < n && c0[v] ==> #[trigger] covered@[v],
                c0.len() == n,
                forall|v: int| 0 <= v < n && #[trigger] covered@[v] && !c0[v] ==> queue@.contains(v as u32),
                forall|v: int, j: int|
                    0 <= v < n && v != node && c0[v] && !q0.contains(v as u32) && 0 <= j < g[v].len()
                        ==> covered@[#[trigger] g[v][j] as int],
                forall|j: int| 0 <= j < k ==> covered@[#[trigger] g[node as int][j] as int],
                k <= nbs@.len(),
                count_false(covered@) <= count_false(c0),
                count_false(covered@) < count_false(c0) || queue@ == q1,
                queue@.len() >= q1.len(),
                queue@.subrange(0, q1.len() as int) == q1,
            decreases nbs@.len() - k,
        {
            let neigh = nbs[k];
            proof {
                assert(g[node as int][k as int] == neigh as usize);
            }
            if !covered[neigh as usize] {
                proof {
                    lemma_count_false_set(covered@, neigh as int);
                    let d = choose|d: nat| #[trigger] ball(g, 0, d).contains(node as usize);
                    assert(g[node as int].contains(neigh as usize));
                    assert(one_step(g, ball(g, 0, d)).contains(neigh as usize));
                    assert(ball(g, 0, d + 1).contains(neigh as usize));
                }
                let ghost qb = queue@;
                covered.set(neigh as usize, true);
                queue.push_back(neigh);
                proof {
                    assert(queue@.subrange(0, q1.len() as int) =~= qb.subrange(0, q1.len() as int));
                    assert(queue@[qb.len() as int] == neigh);
                    assert forall|v: int| 0 <= v < n && #[trigger] covered@[v] && !c0[v] implies queue@.contains(v as u32) by {
                        if v != neigh as int {
                            assert(qb.contains(v as u32));
                            let t = choose|t: int| 0 <= t < qb.len() && qb[t] == v as u32;
                            assert(queue@[t] == v as u32);
                        }
                    }
                }
            }
            k += 1;
        }
        proof {
            assert forall|v: int, j: int|
                0 <= v < n && covered@[v] && !queue@.contains(v as u32) && 0 <= j < g[v].len() implies covered@[#[trigger] g[
                    v
                ][j] as int] by {
                assert(c0[v]);
                if v != node {
                    if q0.contains(v as u32) {
                        let t = choose|t: int| 0 <= t < q0.len() && q0[t] == v as u32;
                        assert(t != 0);
                        assert(q1[t - 1] == v as u32);
                        assert(queue@.subrange(0, q1.len() as int)[t - 1] == v as u32);
                        assert(queue@[t - 1] == v as u32);
                    }
                }
            }
        }
    }
    proof {
        lemma_closed_holds_ball(g, covered@, 0);
        assert forall|v: int| 0 <= v < n implies (covered@[v] <==> reached_from_first(g, v as usize)) by {
            if reached_from_first(g, v as usize) {
                let d = choose|d: nat| #[trigger] ball(g, 0, d).contains(v as usize);
                lemma_closed_holds_ball(g, covered@, d);
            }
        }
    }
    let mut r: Vec<usize> = Vec::new();
    let mut i: usize = 0;
    while i < n
        invariant
            n == g.len(),
            covered@.len() == n,
            forall|v: int| 0 <= v < n ==> (covered@[v] <==> reached_from_first(g, v as usize)),
            i <= n,
            r@ == unreached_below(g, i as nat),
        decreases n - i,
    {
        if !covered[i] {
            r.push(i);
        }
        i += 1;
    }
    r
}

} // verus!
