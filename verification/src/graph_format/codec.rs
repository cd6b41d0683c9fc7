//! Reading and writing the graph file, and why each reading is the only one.
use vstd::prelude::*;
use crate::graph_format::bytes::{
    holds_at, le_bytes, lemma_holds_concat, lemma_le_bytes, lemma_le_unique, lemma_pow256_values, pow256,
    push_bytes, push_le, read_le,
};
use crate::graph_format::{
    enc_color, enc_colors, enc_node, enc_nodes, enc_u32s, encode_file, node_header, Color3b, FormatError, GraphFile,
    GraphFileView, LengthField,
    NodeStore, NodeStoreView, Point,
};

verus! {

// ---------------------------------------------------------------------------
// Lengths
// ---------------------------------------------------------------------------

proof fn lemma_u32s_len(s: Seq<u32>)
    ensures
        enc_u32s(s).len() == 4 * s.len(),
    decreases s.len(),
{
    if s.len() > 0 {
        lemma_u32s_len(s.drop_last());
        lemma_pow256_values();
        lemma_le_bytes(s.last() as nat, 4);
    }
}

proof fn lemma_colors_len(s: Seq<Color3b>)
    ensures
        enc_colors(s).len() == 3 * s.len(),
    decreases s.len(),
{
    if s.len() > 0 {
        lemma_colors_len(s.drop_last());
    }
}

/// The bytes of the fields of a node header, at their offsets.
proof fn lemma_header_fields(n: NodeStoreView)
    ensures
        node_header(n).len() == 26,
        node_header(n).subrange(0, 4) == le_bytes(n.position.x_bits as nat, 4),
        node_header(n).subrange(4, 8) == le_bytes(n.position.y_bits as nat, 4),
        node_header(n).subrange(8, 12) == le_bytes(n.size_bits as nat, 4),
        node_header(n).subrange(12, 14) == le_bytes(n.class as nat, 2),
        node_header(n).subrange(14, 18) == le_bytes(n.offset_id as nat, 4),
        node_header(n).subrange(18, 22) == le_bytes(n.offset_name as nat, 4),
        node_header(n).subrange(22, 24) == le_bytes(n.total_edge_count as nat, 2),
        node_header(n).subrange(24, 26) == le_bytes(n.edge_count as nat, 2),
{
    lemma_pow256_values();
    lemma_le_bytes(n.position.x_bits as nat, 4);
    lemma_le_bytes(n.position.y_bits as nat, 4);
    lemma_le_bytes(n.size_bits as nat, 4);
    lemma_le_bytes(n.class as nat, 2);
    lemma_le_bytes(n.offset_id as nat, 4);
    lemma_le_bytes(n.offset_name as nat, 4);
    lemma_le_bytes(n.total_edge_count as nat, 2);
    lemma_le_bytes(n.edge_count as nat, 2);
    let h = node_header(n);
    assert(h.subrange(0, 4) =~= le_bytes(n.position.x_bits as nat, 4));
    assert(h.subrange(4, 8) =~= le_bytes(n.position.y_bits as nat, 4));
    assert(h.subrange(8, 12) =~= le_bytes(n.size_bits as nat, 4));
    assert(h.subrange(12, 14) =~= le_bytes(n.class as nat, 2));
    assert(h.subrange(14, 18) =~= le_bytes(n.offset_id as nat, 4));
    assert(h.subrange(18, 22) =~= le_bytes(n.offset_name as nat, 4));
    assert(h.subrange(22, 24) =~= le_bytes(n.total_edge_count as nat, 2));
    assert(h.subrange(24, 26) =~= le_bytes(n.edge_count as nat, 2));
}

proof fn lemma_node_len(n: NodeStoreView)
    ensures
        enc_node(n).len() == 26 + 4 * n.edges.len(),
{
    lemma_header_fields(n);
    lemma_u32s_len(n.edges);
}

// ---------------------------------------------------------------------------
// Uniqueness: at a given place, at most one value of each kind is held
// ---------------------------------------------------------------------------

proof fn lemma_le_inj(v: nat, w: nat, n: nat)
    requires
        v < pow256(n),
        w < pow256(n),
        le_bytes(v, n) == le_bytes(w, n),
    ensures
        v == w,
{
    lemma_le_bytes(v, n);
    lemma_le_bytes(w, n);
}

proof fn lemma_u32s_unique(b: Seq<u8>, p: int, s1: Seq<u32>, s2: Seq<u32>)
    requires
        s1.len() == s2.len(),
        holds_at(b, p, enc_u32s(s1)),
        holds_at(b, p, enc_u32s(s2)),
    ensures
        s1 == s2,
    decreases s1.len(),
{
    if s1.len() > 0 {
        let a1 = s1.drop_last();
        let a2 = s2.drop_last();
        lemma_holds_concat(b, p, enc_u32s(a1), le_bytes(s1.last() as nat, 4));
        lemma_holds_concat(b, p, enc_u32s(a2), le_bytes(s2.last() as nat, 4));
        lemma_u32s_unique(b, p, a1, a2);
        lemma_u32s_len(a1);
        lemma_pow256_values();
        lemma_le_unique(b, p + enc_u32s(a1).len(), s1.last() as nat, s2.last() as nat, 4);
        assert(s1 =~= a1.push(s1.last()));
        assert(s2 =~= a2.push(s2.last()));
    } else {
        assert(s1 =~= s2);
    }
}

proof fn lemma_colors_unique(b: Seq<u8>, p: int, s1: Seq<Color3b>, s2: Seq<Color3b>)
    requires
        s1.len() == s2.len(),
        holds_at(b, p, enc_colors(s1)),
        holds_at(b, p, enc_colors(s2)),
    ensures
        s1 == s2,
    decreases s1.len(),
{
    if s1.len() > 0 {
        let a1 = s1.drop_last();
        let a2 = s2.drop_last();
        lemma_holds_concat(b, p, enc_colors(a1), enc_color(s1.last()));
        lemma_holds_concat(b, p, enc_colors(a2), enc_color(s2.last()));
        lemma_colors_unique(b, p, a1, a2);
        lemma_colors_len(a1);
        let q = p + enc_colors(a1).len();
        assert(enc_color(s1.last()) == b.subrange(q, q + 3));
        assert(enc_color(s2.last()) == b.subrange(q, q + 3));
        assert(enc_color(s1.last())[0] == enc_color(s2.last())[0]);
        assert(enc_color(s1.last())[1] == enc_color(s2.last())[1]);
        assert(enc_color(s1.last())[2] == enc_color(s2.last())[2]);
        assert(s1 =~= a1.push(s1.last()));
        assert(s2 =~= a2.push(s2.last()));
    } else {
        assert(s1 =~= s2);
    }
}

/// Two node headers with the same bytes have the same fields.
proof fn lemma_header_inj(n1: NodeStoreView, n2: NodeStoreView)
    requires
        node_header(n1) == node_header(n2),
    ensures
        n1.position == n2.position,
        n1.size_bits == n2.size_bits,
        n1.class == n2.class,
        n1.offset_id == n2.offset_id,
        n1.offset_name == n2.offset_name,
        n1.total_edge_count == n2.total_edge_count,
        n1.edge_count == n2.edge_count,
{
    lemma_header_fields(n1);
    lemma_header_fields(n2);
    lemma_pow256_values();
    lemma_le_inj(n1.position.x_bits as nat, n2.position.x_bits as nat, 4);
    lemma_le_inj(n1.position.y_bits as nat, n2.position.y_bits as nat, 4);
    lemma_le_inj(n1.size_bits as nat, n2.size_bits as nat, 4);
    lemma_le_inj(n1.class as nat, n2.class as nat, 2);
    lemma_le_inj(n1.offset_id as nat, n2.offset_id as nat, 4);
    lemma_le_inj(n1.offset_name as nat, n2.offset_name as nat, 4);
    lemma_le_inj(n1.total_edge_count as nat, n2.total_edge_count as nat, 2);
    lemma_le_inj(n1.edge_count as nat, n2.edge_count as nat, 2);
}

proof fn lemma_node_unique(b: Seq<u8>, p: int, n1: NodeStoreView, n2: NodeStoreView)
    requires
        n1.wf(),
        n2.wf(),
        holds_at(b, p, enc_node(n1)),
        holds_at(b, p, enc_node(n2)),
    ensures
        n1 == n2,
{
    lemma_holds_concat(b, p, node_header(n1), enc_u32s(n1.edges));
    lemma_holds_concat(b, p, node_header(n2), enc_u32s(n2.edges));
    lemma_header_fields(n1);
    lemma_header_fields(n2);
    lemma_header_inj(n1, n2);
    lemma_u32s_unique(b, p + 26, n1.edges, n2.edges);
    assert(n1 =~= n2);
}

proof fn lemma_nodes_unique(b: Seq<u8>, p: int, s1: Seq<NodeStoreView>, s2: Seq<NodeStoreView>)
    requires
        s1.len() == s2.len(),
        forall|i: int| 0 <= i < s1.len() ==> (#[trigger] s1[i]).wf(),
        forall|i: int| 0 <= i < s2.len() ==> (#[trigger] s2[i]).wf(),
        holds_at(b, p, enc_nodes(s1)),
        holds_at(b, p, enc_nodes(s2)),
    ensures
        s1 == s2,
    decreases s1.len(),
{
    if s1.len() > 0 {
        let a1 = s1.drop_last();
        let a2 = s2.drop_last();
        lemma_holds_concat(b, p, enc_nodes(a1), enc_node(s1.last()));
        lemma_holds_concat(b, p, enc_nodes(a2), enc_node(s2.last()));
        assert forall|i: int| 0 <= i < a1.len() implies (#[trigger] a1[i]).wf() by {
            assert(a1[i] == s1[i]);
        }
        assert forall|i: int| 0 <= i < a2.len() implies (#[trigger] a2[i]).wf() by {
            assert(a2[i] == s2[i]);
        }
        lemma_nodes_unique(b, p, a1, a2);
        assert(s1[s1.len() - 1].wf() && s2[s2.len() - 1].wf());
        lemma_node_unique(b, p + enc_nodes(a1).len(), s1.last(), s2.last());
        assert(s1 =~= a1.push(s1.last()));
        assert(s2 =~= a2.push(s2.last()));
    } else {
        assert(s1 =~= s2);
    }
}


// ---------------------------------------------------------------------------
// Prefixes
// ---------------------------------------------------------------------------

proof fn lemma_holds_prefix_of(b: Seq<u8>, p: int, s: Seq<u8>, t: Seq<u8>)
    requires
        holds_at(b, p, s),
        t.is_prefix_of(s),
    ensures
        holds_at(b, p, t),
{
    assert(b.subrange(p, p + t.len()) =~= s.subrange(0, t.len() as int));
}

/// The nodes before `j` are encoded first.
proof fn lemma_nodes_take_prefix(s: Seq<NodeStoreView>, j: int)
    requires
        0 <= j <= s.len(),
    ensures
        enc_nodes(s.take(j)).is_prefix_of(enc_nodes(s)),
    decreases s.len() - j,
{
    if j < s.len() {
        lemma_nodes_take_prefix(s, j + 1);
        assert(s.take(j + 1).drop_last() =~= s.take(j));
        assert(enc_nodes(s.take(j + 1)) == enc_nodes(s.take(j)) + enc_node(s[j]));
    } else {
        assert(s.take(j) =~= s);
    }
}

/// Where each part of a file's encoding lies.
proof fn lemma_file_parts(b: Seq<u8>, m: GraphFileView)
    requires
        m.wf(),
        holds_at(b, 0, encode_file(m)),
    ensures
        holds_at(b, 0, le_bytes(m.class_count as nat, 2)),
        holds_at(b, 2, enc_colors(m.classes)),
        holds_at(b, 2int + 3 * m.classes.len(), le_bytes(m.node_count as nat, 8)),
        holds_at(b, 10int + 3 * m.classes.len(), enc_nodes(m.nodes)),
        holds_at(b, 10int + 3 * m.classes.len() + enc_nodes(m.nodes).len(), le_bytes(m.ids_size as nat, 8)),
        holds_at(b, 18int + 3 * m.classes.len() + enc_nodes(m.nodes).len(), m.ids),
        holds_at(b, 18int + 3 * m.classes.len() + enc_nodes(m.nodes).len() + m.ids.len(), le_bytes(m.names_size as nat, 8)),
        holds_at(b, 26int + 3 * m.classes.len() + enc_nodes(m.nodes).len() + m.ids.len(), m.names),
{
    lemma_pow256_values();
    lemma_le_bytes(m.class_count as nat, 2);
    lemma_le_bytes(m.node_count as nat, 8);
    lemma_le_bytes(m.ids_size as nat, 8);
    lemma_le_bytes(m.names_size as nat, 8);
    lemma_colors_len(m.classes);
    let a = le_bytes(m.class_count as nat, 2);
    let c = enc_colors(m.classes);
    let d = le_bytes(m.node_count as nat, 8);
    let e = enc_nodes(m.nodes);
    let f = le_bytes(m.ids_size as nat, 8);
    let g = m.ids;
    let h = le_bytes(m.names_size as nat, 8);
    let k = m.names;
    lemma_holds_concat(b, 0, a + c + d + e + f + g + h, k);
    lemma_holds_concat(b, 0, a + c + d + e + f + g, h);
    lemma_holds_concat(b, 0, a + c + d + e + f, g);
    lemma_holds_concat(b, 0, a + c + d + e, f);
    lemma_holds_concat(b, 0, a + c + d, e);
    lemma_holds_concat(b, 0, a + c, d);
    lemma_holds_concat(b, 0, a, c);
}

/// A byte string begins with the encoding of at most one well-formed file.
pub proof fn lemma_encoding_prefix_free(b: Seq<u8>, m1: GraphFileView, m2: GraphFileView)
    requires
        m1.wf(),
        m2.wf(),
        encode_file(m1).is_prefix_of(b),
        encode_file(m2).is_prefix_of(b),
    ensures
        m1 == m2,
{
    lemma_file_parts(b, m1);
    lemma_file_parts(b, m2);
    lemma_pow256_values();
    lemma_le_unique(b, 0, m1.class_count as nat, m2.class_count as nat, 2);
    lemma_colors_unique(b, 2, m1.classes, m2.classes);
    let o2: int = 2int + 3 * m1.classes.len();
    lemma_le_unique(b, o2, m1.node_count as nat, m2.node_count as nat, 8);
    lemma_nodes_unique(b, o2 + 8, m1.nodes, m2.nodes);
    let o4: int = o2 + 8 + enc_nodes(m1.nodes).len();
    lemma_le_unique(b, o4, m1.ids_size as nat, m2.ids_size as nat, 8);
    assert(m1.ids == m2.ids);
    let o6: int = o4 + 8 + m1.ids.len();
    lemma_le_unique(b, o6, m1.names_size as nat, m2.names_size as nat, 8);
    assert(m1.names == m2.names);
    assert(m1 =~= m2);
}


// ---------------------------------------------------------------------------
// Reading
// ---------------------------------------------------------------------------

/// A header is held where each of its fields is held at its offset.
proof fn lemma_header_holds(b: Seq<u8>, p: int, n: NodeStoreView)
    requires
        holds_at(b, p, le_bytes(n.position.x_bits as nat, 4)),
        holds_at(b, p + 4, le_bytes(n.position.y_bits as nat, 4)),
        holds_at(b, p + 8, le_bytes(n.size_bits as nat, 4)),
        holds_at(b, p + 12, le_bytes(n.class as nat, 2)),
        holds_at(b, p + 14, le_bytes(n.offset_id as nat, 4)),
        holds_at(b, p + 18, le_bytes(n.offset_name as nat, 4)),
        holds_at(b, p + 22, le_bytes(n.total_edge_count as nat, 2)),
        holds_at(b, p + 24, le_bytes(n.edge_count as nat, 2)),
    ensures
        holds_at(b, p, node_header(n)),
{
    lemma_pow256_values();
    let f0 = le_bytes(n.position.x_bits as nat, 4);
    let f1 = le_bytes(n.position.y_bits as nat, 4);
    let f2 = le_bytes(n.size_bits as nat, 4);
    let f3 = le_bytes(n.class as nat, 2);
    let f4 = le_bytes(n.offset_id as nat, 4);
    let f5 = le_bytes(n.offset_name as nat, 4);
    let f6 = le_bytes(n.total_edge_count as nat, 2);
    let f7 = le_bytes(n.edge_count as nat, 2);
    lemma_le_bytes(n.position.x_bits as nat, 4);
    lemma_le_bytes(n.position.y_bits as nat, 4);
    lemma_le_bytes(n.size_bits as nat, 4);
    lemma_le_bytes(n.class as nat, 2);
    lemma_le_bytes(n.offset_id as nat, 4);
    lemma_le_bytes(n.offset_name as nat, 4);
    lemma_le_bytes(n.total_edge_count as nat, 2);
    lemma_le_bytes(n.edge_count as nat, 2);
    lemma_holds_concat(b, p, f0, f1);
    lemma_holds_concat(b, p, f0 + f1, f2);
    lemma_holds_concat(b, p, f0 + f1 + f2, f3);
    lemma_holds_concat(b, p, f0 + f1 + f2 + f3, f4);
    lemma_holds_concat(b, p, f0 + f1 + f2 + f3 + f4, f5);
    lemma_holds_concat(b, p, f0 + f1 + f2 + f3 + f4 + f5, f6);
    lemma_holds_concat(b, p, f0 + f1 + f2 + f3 + f4 + f5 + f6, f7);
}

/// Reads the node at position `p`, if one is held there.
fn read_node(buf: &[u8], p: usize) -> (r: Option<(NodeStore, usize)>)
    requires
        p <= buf@.len(),
    ensures
        match r {
            Some((n, q)) => {
                &&& n@.wf()
                &&& holds_at(buf@, p as int, enc_node(n@))
                &&& q == p + enc_node(n@).len()
            },
            None => forall|nv: NodeStoreView| nv.wf() ==> !holds_at(buf@, p as int, #[trigger] enc_node(nv)),
        },
{
    let len = buf.len();
    if len - p < 26 {
        proof {
            assert forall|nv: NodeStoreView| nv.wf() implies !holds_at(buf@, p as int, #[trigger] enc_node(nv)) by {
                lemma_node_len(nv);
            }
        }
        return None;
    }
    proof {
        lemma_pow256_values();
    }
    let x_bits = read_le(buf, p, 4) as u32;
    let y_bits = read_le(buf, p + 4, 4) as u32;
    let size_bits = read_le(buf, p + 8, 4) as u32;
    let class = read_le(buf, p + 12, 2) as u16;
    let offset_id = read_le(buf, p + 14, 4) as u32;
    let offset_name = read_le(buf, p + 18, 4) as u32;
    let total_edge_count = read_le(buf, p + 22, 2) as u16;
    let edge_count = read_le(buf, p + 24, 2) as u16;
    let ghost hv = NodeStoreView {
        position: Point { x_bits, y_bits },
        size_bits,
        class,
        offset_id,
        offset_name,
        total_edge_count,
        edge_count,
        edges: Seq::empty(),
    };
    proof {
        lemma_header_holds(buf@, p as int, hv);
    }
    if (len - p - 26) / 4 < edge_count as usize {
        proof {
            assert forall|nv: NodeStoreView| nv.wf() implies !holds_at(buf@, p as int, #[trigger] enc_node(nv)) by {
                if holds_at(buf@, p as int, enc_node(nv)) {
                    lemma_holds_concat(buf@, p as int, node_header(nv), enc_u32s(nv.edges));
                    lemma_header_fields(nv);
                    lemma_header_fields(hv);
                    assert(node_header(nv) == node_header(hv));
                    lemma_header_inj(nv, hv);
                    lemma_node_len(nv);
                }
            }
        }
        return None;
    }
    let mut edges: Vec<u32> = Vec::new();
    let mut i: usize = 0;
    let mut q: usize = p + 26;
    proof {
        assert(enc_u32s(edges@) =~= Seq::<u8>::empty());
        assert(buf@.subrange(p + 26, p + 26) =~= Seq::<u8>::empty());
    }
    while i < edge_count as usize
        invariant
            len == buf@.len(),
            p + 26 + 4 * (edge_count as int) <= len,
            i <= edge_count,
            q == p + 26 + 4 * i,
            edges@.len() == i,
            holds_at(buf@, p + 26, enc_u32s(edges@)),
            pow256(4) == 0x1_0000_0000,
        decreases edge_count - i,
    {
        let e = read_le(buf, q, 4) as u32;
        let ghost old_edges = edges@;
        edges.push(e);
        proof {
            lemma_u32s_len(old_edges);
            assert(edges@.drop_last() =~= old_edges);
            lemma_holds_concat(buf@, p + 26, enc_u32s(old_edges), le_bytes(e as nat, 4));
        }
        q = q + 4;
        i = i + 1;
    }
    let n = NodeStore {
        position: Point { x_bits, y_bits },
        size_bits,
        class,
        offset_id,
        offset_name,
        total_edge_count,
        edge_count,
        edges,
    };
    proof {
        assert(node_header(n@) == node_header(hv));
        lemma_header_fields(hv);
        lemma_holds_concat(buf@, p as int, node_header(n@), enc_u32s(n@.edges));
        lemma_node_len(n@);
    }
    Some((n, q))
}


/// Reads a length of eight bytes at `p` and the bytes it counts.
fn read_table(buf: &[u8], p: usize) -> (r: Result<(u64, Vec<u8>, usize), FormatError>)
    requires
        p <= buf@.len(),
    ensures
        match r {
            Ok((size, bytes, q)) => {
                &&& bytes@.len() == size
                &&& holds_at(buf@, p as int, le_bytes(size as nat, 8))
                &&& holds_at(buf@, p + 8, bytes@)
                &&& q == p + 8 + size
            },
            Err(e) => {
                &&& e == FormatError::InputTooShort
                &&& forall|size: u64, bytes: Seq<u8>|
                    #![trigger le_bytes(size as nat, 8), holds_at(buf@, p + 8, bytes)]
                    bytes.len() == size ==> !(holds_at(buf@, p as int, le_bytes(size as nat, 8)) && holds_at(
                        buf@,
                        p + 8,
                        bytes,
                    ))
            },
        },
{
    let len = buf.len();
    proof {
        lemma_pow256_values();
    }
    if len - p < 8 {
        proof {
            assert forall|size: u64, bytes: Seq<u8>|
                #![trigger le_bytes(size as nat, 8), holds_at(buf@, p + 8, bytes)]
                bytes.len() == size implies !(holds_at(buf@, p as int, le_bytes(size as nat, 8)) && holds_at(
                buf@,
                p + 8,
                bytes,
            )) by {
                lemma_le_bytes(size as nat, 8);
            }
        }
        return Err(FormatError::InputTooShort);
    }
    let size = read_le(buf, p, 8);
    if ((len - p - 8) as u64) < size {
        proof {
            assert forall|sz: u64, bytes: Seq<u8>|
                #![trigger le_bytes(sz as nat, 8), holds_at(buf@, p + 8, bytes)]
                bytes.len() == sz implies !(holds_at(buf@, p as int, le_bytes(sz as nat, 8)) && holds_at(
                buf@,
                p + 8,
                bytes,
            )) by {
                if holds_at(buf@, p as int, le_bytes(sz as nat, 8)) {
                    lemma_le_unique(buf@, p as int, sz as nat, size as nat, 8);
                }
            }
        }
        return Err(FormatError::InputTooShort);
    }
    let mut bytes: Vec<u8> = Vec::new();
    push_bytes(&mut bytes, buf, p + 8, size as usize);
    proof {
        assert(bytes@ =~= buf@.subrange(p + 8, p + 8 + size));
    }
    Ok((size, bytes, p + 8 + size as usize))
}

/// Reads the number of classes, the classes and the number of nodes.
fn read_head(buf: &[u8]) -> (r: Result<(u16, Vec<Color3b>, u64), FormatError>)
    ensures
        match r {
            Ok((class_count, classes, node_count)) => {
                &&& classes@.len() == class_count
                &&& holds_at(buf@, 0, le_bytes(class_count as nat, 2))
                &&& holds_at(buf@, 2, enc_colors(classes@))
                &&& holds_at(buf@, 2 + 3 * class_count, le_bytes(node_count as nat, 8))
                &&& forall|m: GraphFileView|
                    m.wf() && #[trigger] encode_file(m).is_prefix_of(buf@) ==> m.class_count == class_count
                        && m.classes == classes@ && m.node_count == node_count
            },
            Err(e) => {
                &&& e == FormatError::InputTooShort
                &&& forall|m: GraphFileView| m.wf() ==> !(#[trigger] encode_file(m)).is_prefix_of(buf@)
            },
        },
{
    let len = buf.len();
    proof {
        lemma_pow256_values();
    }
    if len < 2 {
        proof {
            assert forall|m: GraphFileView| m.wf() implies !(#[trigger] encode_file(m)).is_prefix_of(buf@) by {
                if encode_file(m).is_prefix_of(buf@) {
                    lemma_file_parts(buf@, m);
                    lemma_le_bytes(m.class_count as nat, 2);
                }
            }
        }
        return Err(FormatError::InputTooShort);
    }
    let class_count = read_le(buf, 0, 2) as u16;
    proof {
        assert forall|m: GraphFileView| m.wf() && #[trigger] encode_file(m).is_prefix_of(buf@) implies m.class_count
            == class_count by {
            lemma_file_parts(buf@, m);
            lemma_le_unique(buf@, 0, m.class_count as nat, class_count as nat, 2);
        }
    }
    if (len - 2) / 3 < class_count as usize {
        proof {
            assert forall|m: GraphFileView| m.wf() implies !(#[trigger] encode_file(m)).is_prefix_of(buf@) by {
                if encode_file(m).is_prefix_of(buf@) {
                    lemma_file_parts(buf@, m);
                    lemma_colors_len(m.classes);
                }
            }
        }
        return Err(FormatError::InputTooShort);
    }
    let mut classes: Vec<Color3b> = Vec::new();
    let mut p: usize = 2;
    proof {
        assert(enc_colors(classes@) =~= Seq::<u8>::empty());
        assert(buf@.subrange(2, 2) =~= Seq::<u8>::empty());
    }
    while classes.len() < class_count as usize
        invariant
            len == buf@.len(),
            2 + 3 * (class_count as int) <= len,
            classes@.len() <= class_count,
            p == 2 + 3 * classes@.len(),
            holds_at(buf@, 2, enc_colors(classes@)),
        decreases class_count - classes@.len(),
    {
        let c = Color3b::new(buf[p], buf[p + 1], buf[p + 2]);
        let ghost old_classes = classes@;
        classes.push(c);
        proof {
            lemma_colors_len(old_classes);
            assert(classes@.drop_last() =~= old_classes);
            assert(buf@.subrange(p as int, p + 3) =~= enc_color(c));
            lemma_holds_concat(buf@, 2, enc_colors(old_classes), enc_color(c));
        }
        p = p + 3;
    }
    proof {
        assert forall|m: GraphFileView| m.wf() && #[trigger] encode_file(m).is_prefix_of(buf@) implies m.classes
            == classes@ by {
            lemma_file_parts(buf@, m);
            lemma_colors_unique(buf@, 2, m.classes, classes@);
        }
    }
    if len - p < 8 {
        proof {
            assert forall|m: GraphFileView| m.wf() implies !(#[trigger] encode_file(m)).is_prefix_of(buf@) by {
                if encode_file(m).is_prefix_of(buf@) {
                    lemma_file_parts(buf@, m);
                    lemma_le_bytes(m.node_count as nat, 8);
                }
            }
        }
        return Err(FormatError::InputTooShort);
    }
    let node_count = read_le(buf, p, 8);
    proof {
        assert forall|m: GraphFileView| m.wf() && #[trigger] encode_file(m).is_prefix_of(buf@) implies m.node_count
            == node_count by {
            lemma_file_parts(buf@, m);
            lemma_le_unique(buf@, p as int, m.node_count as nat, node_count as nat, 8);
        }
    }
    Ok((class_count, classes, node_count))
}

/// Reads `node_count` nodes from position `p0`, where every file that `buf`
/// begins with has its nodes.
fn read_node_list(buf: &[u8], p0: usize, node_count: u64) -> (r: Result<(Vec<NodeStore>, usize), FormatError>)
    requires
        p0 <= buf@.len(),
        forall|m: GraphFileView|
            m.wf() && #[trigger] encode_file(m).is_prefix_of(buf@) ==> m.node_count == node_count && 10 + 3
                * m.classes.len() == p0,
    ensures
        match r {
            Ok((nodes, q)) => {
                let nv = nodes@.map_values(|n: NodeStore| n@);
                &&& nodes@.len() == node_count
                &&& forall|k: int| 0 <= k < nv.len() ==> (#[trigger] nv[k]).wf()
                &&& holds_at(buf@, p0 as int, enc_nodes(nv))
                &&& q == p0 + enc_nodes(nv).len()
                &&& forall|m: GraphFileView| m.wf() && #[trigger] encode_file(m).is_prefix_of(buf@) ==> m.nodes == nv
            },
            Err(e) => {
                &&& e == FormatError::InputTooShort
                &&& forall|m: GraphFileView| m.wf() ==> !(#[trigger] encode_file(m)).is_prefix_of(buf@)
            },
        },
{
    let len = buf.len();
    let mut p = p0;
    let mut nodes: Vec<NodeStore> = Vec::new();
    let ghost mut nv: Seq<NodeStoreView> = Seq::empty();
    let mut i: u64 = 0;
    proof {
        assert(buf@.subrange(p0 as int, p0 as int) =~= Seq::<u8>::empty());
        assert(nv =~= nodes@.map_values(|n: NodeStore| n@));
    }
    while i < node_count
        invariant
            len == buf@.len(),
            p0 <= p <= len,
            i <= node_count,
            nodes@.len() == i,
            nv == nodes@.map_values(|n: NodeStore| n@),
            forall|k: int| 0 <= k < nv.len() ==> (#[trigger] nv[k]).wf(),
            holds_at(buf@, p0 as int, enc_nodes(nv)),
            p == p0 + enc_nodes(nv).len(),
            forall|m: GraphFileView|
                m.wf() && #[trigger] encode_file(m).is_prefix_of(buf@) ==> m.node_count == node_count && 10 + 3
                    * m.classes.len() == p0,
        decreases node_count - i,
    {
        match read_node(buf, p) {
            Some((n, q)) => {
                let ghost old_nv = nv;
                nodes.push(n);
                proof {
                    nv = nv.push(n@);
                    assert(nv =~= nodes@.map_values(|n: NodeStore| n@));
                    assert(nv.drop_last() =~= old_nv);
                    lemma_holds_concat(buf@, p0 as int, enc_nodes(old_nv), enc_node(n@));
                }
                p = q;
                i = i + 1;
            },
            None => {
                proof {
                    assert forall|m: GraphFileView| m.wf() implies !(#[trigger] encode_file(m)).is_prefix_of(buf@) by {
                        if encode_file(m).is_prefix_of(buf@) {
                            lemma_file_parts(buf@, m);
                            let j = i as int;
                            lemma_nodes_take_prefix(m.nodes, j + 1);
                            lemma_holds_prefix_of(buf@, p0 as int, enc_nodes(m.nodes), enc_nodes(m.nodes.take(j + 1)));
                            assert(m.nodes.take(j + 1).drop_last() =~= m.nodes.take(j));
                            lemma_holds_concat(buf@, p0 as int, enc_nodes(m.nodes.take(j)), enc_node(m.nodes[j]));
                            assert forall|k: int| 0 <= k < m.nodes.take(j).len() implies (#[trigger] m.nodes.take(
                                j,
                            )[k]).wf() by {
                                assert(m.nodes.take(j)[k] == m.nodes[k]);
                            }
                            lemma_nodes_unique(buf@, p0 as int, m.nodes.take(j), nv);
                            assert(m.nodes[j].wf());
                        }
                    }
                }
                return Err(FormatError::InputTooShort);
            },
        }
    }
    proof {
        assert forall|m: GraphFileView| m.wf() && #[trigger] encode_file(m).is_prefix_of(buf@) implies m.nodes == nv by {
            lemma_file_parts(buf@, m);
            lemma_nodes_unique(buf@, p0 as int, m.nodes, nv);
        }
    }
    Ok((nodes, p))
}

impl GraphFile {
    /// Reads a file from the start of `buf`; bytes after its end are
    /// ignored. By `lemma_encoding_prefix_free`, the file read is the only
    /// well-formed one whose encoding `buf` begins with.
    pub fn read_from_buffer(buf: &[u8]) -> (r: Result<GraphFile, FormatError>)
        ensures
            match r {
                Ok(f) => f@.wf() && encode_file(f@).is_prefix_of(buf@),
                Err(e) => {
                    &&& e == FormatError::InputTooShort
                    &&& forall|m: GraphFileView| m.wf() ==> !(#[trigger] encode_file(m)).is_prefix_of(buf@)
                },
            },
    {
        let (class_count, classes, node_count) = match read_head(buf) {
            Ok(h) => h,
            Err(e) => {
                return Err(e);
            },
        };
        proof {
            lemma_pow256_values();
            lemma_le_bytes(node_count as nat, 8);
        }
        let p0: usize = 10 + 3 * (class_count as usize);
        let (nodes, p) = match read_node_list(buf, p0, node_count) {
            Ok(x) => x,
            Err(e) => {
                return Err(e);
            },
        };
        let ghost nv = nodes@.map_values(|n: NodeStore| n@);
        let (ids_size, ids, p2) = match read_table(buf, p) {
            Ok(t) => t,
            Err(e) => {
                proof {
                    assert forall|m: GraphFileView| m.wf() implies !(#[trigger] encode_file(m)).is_prefix_of(buf@) by {
                        if encode_file(m).is_prefix_of(buf@) {
                            lemma_file_parts(buf@, m);
                            assert(m.nodes == nv);
                            assert(m.classes.len() == class_count);
                            assert(holds_at(buf@, p as int, le_bytes(m.ids_size as nat, 8)));
                            assert(holds_at(buf@, p + 8, m.ids));
                        }
                    }
                }
                return Err(e);
            },
        };
        let (names_size, names, _p3) = match read_table(buf, p2) {
            Ok(t) => t,
            Err(e) => {
                proof {
                    assert forall|m: GraphFileView| m.wf() implies !(#[trigger] encode_file(m)).is_prefix_of(buf@) by {
                        if encode_file(m).is_prefix_of(buf@) {
                            lemma_file_parts(buf@, m);
                            assert(m.nodes == nv);
                            assert(m.classes.len() == class_count);
                            lemma_pow256_values();
                            lemma_le_unique(buf@, p as int, m.ids_size as nat, ids_size as nat, 8);
                            assert(holds_at(buf@, p2 as int, le_bytes(m.names_size as nat, 8)));
                            assert(holds_at(buf@, p2 + 8, m.names));
                        }
                    }
                }
                return Err(e);
            },
        };
        let f = GraphFile { class_count, classes, node_count, nodes, ids_size, ids, names_size, names };
        proof {
            lemma_pow256_values();
            let a = le_bytes(class_count as nat, 2);
            let c = enc_colors(f@.classes);
            let d = le_bytes(node_count as nat, 8);
            let e = enc_nodes(f@.nodes);
            let g = le_bytes(ids_size as nat, 8);
            let h = f@.ids;
            let k = le_bytes(names_size as nat, 8);
            let l = f@.names;
            assert(f@.nodes == nv);
            lemma_colors_len(f@.classes);
            lemma_le_bytes(class_count as nat, 2);
            lemma_le_bytes(node_count as nat, 8);
            lemma_le_bytes(ids_size as nat, 8);
            lemma_le_bytes(names_size as nat, 8);
            lemma_holds_concat(buf@, 0, a, c);
            lemma_holds_concat(buf@, 0, a + c, d);
            lemma_holds_concat(buf@, 0, a + c + d, e);
            lemma_holds_concat(buf@, 0, a + c + d + e, g);
            lemma_holds_concat(buf@, 0, a + c + d + e + g, h);
            lemma_holds_concat(buf@, 0, a + c + d + e + g + h, k);
            lemma_holds_concat(buf@, 0, a + c + d + e + g + h + k, l);
        }
        Ok(f)
    }
}


// ---------------------------------------------------------------------------
// Writing
// ---------------------------------------------------------------------------

/// The first list, in the order the file stores them, whose stored length
/// is not its length.
pub open spec fn first_mismatch(f: GraphFileView) -> LengthField {
    if f.classes.len() != f.class_count {
        LengthField::Classes
    } else if f.nodes.len() != f.node_count {
        LengthField::Nodes
    } else if exists|i: int| 0 <= i < f.nodes.len() && !(#[trigger] f.nodes[i]).wf() {
        LengthField::Edges
    } else if f.ids.len() != f.ids_size {
        LengthField::Ids
    } else {
        LengthField::Names
    }
}

/// Appends the encoding of a node.
fn write_node(out: &mut Vec<u8>, n: &NodeStore)
    requires
        n@.wf(),
    ensures
        final(out)@ == old(out)@ + enc_node(n@),
{
    let ghost start = out@;
    push_le(out, n.position.x_bits as u64, 4);
    push_le(out, n.position.y_bits as u64, 4);
    push_le(out, n.size_bits as u64, 4);
    push_le(out, n.class as u64, 2);
    push_le(out, n.offset_id as u64, 4);
    push_le(out, n.offset_name as u64, 4);
    push_le(out, n.total_edge_count as u64, 2);
    push_le(out, n.edge_count as u64, 2);
    proof {
        assert(out@ =~= start + node_header(n@));
    }
    let mut i: usize = 0;
    while i < n.edges.len()
        invariant
            i <= n.edges@.len(),
            out@ == start + node_header(n@) + enc_u32s(n.edges@.take(i as int)),
        decreases n.edges@.len() - i,
    {
        let ghost before = out@;
        push_le(out, n.edges[i] as u64, 4);
        proof {
            assert(n.edges@.take(i + 1).drop_last() =~= n.edges@.take(i as int));
            assert(out@ =~= start + node_header(n@) + enc_u32s(n.edges@.take(i + 1)));
        }
        i += 1;
    }
    proof {
        assert(n.edges@.take(i as int) =~= n.edges@);
    }
}

impl GraphFile {
    /// Writes the file; refuses, naming the first list that disagrees with
    /// its stored length, when the file is not well-formed.
    pub fn write_to_vec(&self) -> (r: Result<Vec<u8>, FormatError>)
        ensures
            match r {
                Ok(v) => self@.wf() && v@ == encode_file(self@),
                Err(e) => !self@.wf() && e == FormatError::LengthMismatch(first_mismatch(self@)),
            },
    {
        let ghost fv = self@;
        let mut out: Vec<u8> = Vec::new();
        push_le(&mut out, self.class_count as u64, 2);
        if self.classes.len() != self.class_count as usize {
            return Err(FormatError::LengthMismatch(LengthField::Classes));
        }
        let mut i: usize = 0;
        proof {
            assert(out@ =~= le_bytes(fv.class_count as nat, 2) + enc_colors(fv.classes.take(0)));
        }
        while i < self.classes.len()
            invariant
                fv == self@,
                i <= self.classes@.len(),
                out@ == le_bytes(fv.class_count as nat, 2) + enc_colors(fv.classes.take(i as int)),
            decreases self.classes@.len() - i,
        {
            let c = self.classes[i];
            out.push(c.r);
            out.push(c.g);
            out.push(c.b);
            proof {
                assert(fv.classes.take(i + 1).drop_last() =~= fv.classes.take(i as int));
                assert(out@ =~= le_bytes(fv.class_count as nat, 2) + enc_colors(fv.classes.take(i + 1)));
            }
            i += 1;
        }
        proof {
            assert(fv.classes.take(i as int) =~= fv.classes);
        }
        push_le(&mut out, self.node_count, 8);
        if self.nodes.len() as u64 != self.node_count {
            return Err(FormatError::LengthMismatch(LengthField::Nodes));
        }
        let ghost head = out@;
        let mut j: usize = 0;
        proof {
            assert(fv.nodes.take(0) =~= Seq::<NodeStoreView>::empty());
            assert(out@ =~= head + enc_nodes(fv.nodes.take(0)));
        }
        while j < self.nodes.len()
            invariant
                fv == self@,
                fv.classes.len() == fv.class_count,
                fv.nodes.len() == fv.node_count,
                j <= self.nodes@.len(),
                forall|k: int| 0 <= k < j ==> (#[trigger] fv.nodes[k]).wf(),
                out@ == head + enc_nodes(fv.nodes.take(j as int)),
            decreases self.nodes@.len() - j,
        {
            let n = &self.nodes[j];
            assert(fv.nodes[j as int] == n@);
            if n.edges.len() != n.edge_count as usize {
                proof {
                    assert(!fv.nodes[j as int].wf());
                }
                return Err(FormatError::LengthMismatch(LengthField::Edges));
            }
            write_node(&mut out, n);
            proof {
                assert(fv.nodes.take(j + 1).drop_last() =~= fv.nodes.take(j as int));
                assert(out@ =~= head + enc_nodes(fv.nodes.take(j + 1)));
            }
            j += 1;
        }
        proof {
            assert(fv.nodes.take(j as int) =~= fv.nodes);
        }
        push_le(&mut out, self.ids_size, 8);
        if self.ids.len() as u64 != self.ids_size {
            return Err(FormatError::LengthMismatch(LengthField::Ids));
        }
        push_bytes(&mut out, self.ids.as_slice(), 0, self.ids.len());
        push_le(&mut out, self.names_size, 8);
        if self.names.len() as u64 != self.names_size {
            return Err(FormatError::LengthMismatch(LengthField::Names));
        }
        push_bytes(&mut out, self.names.as_slice(), 0, self.names.len());
        proof {
            assert(self.ids@.subrange(0, self.ids@.len() as int) =~= fv.ids);
            assert(self.names@.subrange(0, self.names@.len() as int) =~= fv.names);
            assert(out@ =~= encode_file(fv));
        }
        Ok(out)
    }
}


/// Reading back what was written, followed by anything, gives the same file:
/// a file read from such bytes is the file written.
pub proof fn lemma_round_trip(m: GraphFileView, extra: Seq<u8>, r: GraphFileView)
    requires
        m.wf(),
        r.wf(),
        encode_file(r).is_prefix_of(encode_file(m) + extra),
    ensures
        r == m,
        encode_file(m).is_prefix_of(encode_file(m) + extra),
{
    let b = encode_file(m) + extra;
    assert(b.subrange(0, encode_file(m).len() as int) =~= encode_file(m));
    lemma_encoding_prefix_free(b, m, r);
}

} // verus!
