//! The binary graph file: community colours, node positions and sizes,
//! adjacency, and the string tables of person ids and names.
//!
//! Every integer is stored little-endian; the length of each list is stored
//! in its own field, before the list. Coordinates and sizes are single
//! precision floats, which the library carries as their bit patterns.
use vstd::prelude::*;
use crate::graph_format::bytes::{le_bytes};

pub mod bytes;
pub mod codec;
pub mod adjacency;

verus! {

/// A colour of 24 bits.
#[derive(Clone, Copy, PartialEq, Eq, Structural, Debug)]
pub struct Color3b {
    pub r: u8,
    pub g: u8,
    pub b: u8,
}

impl Color3b {
    pub fn new(r: u8, g: u8, b: u8) -> (c: Color3b)
        ensures
            c == (Color3b { r, g, b }),
    {
        Color3b { r, g, b }
    }

    /// The colour as `0xRRGGBB`.
    pub fn to_u32(self) -> (v: u32)
        ensures
            v == self.r * 0x1_0000 + self.g * 0x100 + self.b,
    {
        let r = self.r as u32;
        let g = self.g as u32;
        let b = self.b as u32;
        assert((r << 16u32 | g << 8u32 | b) == r * 0x1_0000 + g * 0x100 + b) by (bit_vector)
            requires
                r < 256,
                g < 256,
                b < 256,
        ;
        r << 16u32 | g << 8u32 | b
    }
}

/// A position in the plane, each coordinate a single precision float given
/// by its bit pattern.
#[derive(Clone, Copy, PartialEq, Eq, Structural, Debug)]
pub struct Point {
    pub x_bits: u32,
    pub y_bits: u32,
}

/// A node as stored: where it is drawn, how large, its community, where its
/// id and name start in the string tables, its degree, and the links to
/// nodes stored before it.
#[derive(Clone, Debug)]
pub struct NodeStore {
    pub position: Point,
    pub size_bits: u32,
    pub class: u16,
    pub offset_id: u32,
    pub offset_name: u32,
    pub total_edge_count: u16,
    pub edge_count: u16,
    pub edges: Vec<u32>,
}

/// A link between two nodes.
#[derive(Clone, Copy, PartialEq, Eq, Structural, Hash, Debug)]
pub struct EdgeStore {
    pub a: u32,
    pub b: u32,
}

/// The type of the stored list lengths: eight bytes in the file.
pub type LenType = u64;

/// The whole file.
#[derive(Clone, Debug)]
pub struct GraphFile {
    pub class_count: u16,
    pub classes: Vec<Color3b>,
    pub node_count: LenType,
    pub nodes: Vec<NodeStore>,
    pub ids_size: LenType,
    pub ids: Vec<u8>,
    pub names_size: LenType,
    pub names: Vec<u8>,
}

/// A list whose stored length is not its length.
#[derive(Clone, Copy, PartialEq, Eq, Structural, Debug)]
pub enum LengthField {
    Classes,
    Nodes,
    Edges,
    Ids,
    Names,
}

/// Why a file could not be read or written.
#[derive(Clone, Copy, PartialEq, Eq, Structural, Debug)]
pub enum FormatError {
    /// The bytes end before the file does.
    InputTooShort,
    /// A stored length disagrees with its list.
    LengthMismatch(LengthField),
}

/// What a node holds, as a mathematical value.
#[verifier::ext_equal]
pub struct NodeStoreView {
    pub position: Point,
    pub size_bits: u32,
    pub class: u16,
    pub offset_id: u32,
    pub offset_name: u32,
    pub total_edge_count: u16,
    pub edge_count: u16,
    pub edges: Seq<u32>,
}

/// What a file holds, as a mathematical value.
#[verifier::ext_equal]
pub struct GraphFileView {
    pub class_count: u16,
    pub classes: Seq<Color3b>,
    pub node_count: u64,
    pub nodes: Seq<NodeStoreView>,
    pub ids_size: u64,
    pub ids: Seq<u8>,
    pub names_size: u64,
    pub names: Seq<u8>,
}

impl View for NodeStore {
    type V = NodeStoreView;

    open spec fn view(&self) -> NodeStoreView {
        NodeStoreView {
            position: self.position,
            size_bits: self.size_bits,
            class: self.class,
            offset_id: self.offset_id,
            offset_name: self.offset_name,
            total_edge_count: self.total_edge_count,
            edge_count: self.edge_count,
            edges: self.edges@,
        }
    }
}

impl View for GraphFile {
    type V = GraphFileView;

    open spec fn view(&self) -> GraphFileView {
        GraphFileView {
            class_count: self.class_count,
            classes: self.classes@,
            node_count: self.node_count,
            nodes: self.nodes@.map_values(|n: NodeStore| n@),
            ids_size: self.ids_size,
            ids: self.ids@,
            names_size: self.names_size,
            names: self.names@,
        }
    }
}

impl NodeStoreView {
    /// The stored edge count is the length of the edge list.
    pub open spec fn wf(self) -> bool {
        self.edges.len() == self.edge_count
    }
}

impl GraphFileView {
    /// Every stored length is the length of its list.
    pub open spec fn wf(self) -> bool {
        &&& self.classes.len() == self.class_count
        &&& self.nodes.len() == self.node_count
        &&& forall|i: int| 0 <= i < self.nodes.len() ==> (#[trigger] self.nodes[i]).wf()
        &&& self.ids.len() == self.ids_size
        &&& self.names.len() == self.names_size
    }
}

impl Default for GraphFile {
    fn default() -> (f: GraphFile)
        ensures
            f@ == (GraphFileView {
                class_count: 0,
                classes: Seq::empty(),
                node_count: 0,
                nodes: Seq::empty(),
                ids_size: 0,
                ids: Seq::empty(),
                names_size: 0,
                names: Seq::empty(),
            }),
    {
        let f = GraphFile {
            class_count: 0,
            classes: Vec::new(),
            node_count: 0,
            nodes: Vec::new(),
            ids_size: 0,
            ids: Vec::new(),
            names_size: 0,
            names: Vec::new(),
        };
        assert(f@.nodes =~= Seq::<NodeStoreView>::empty());
        f
    }
}

// ---------------------------------------------------------------------------
// The encoding
// ---------------------------------------------------------------------------

/// A colour: its three bytes.
pub open spec fn enc_color(c: Color3b) -> Seq<u8> {
    seq![c.r, c.g, c.b]
}

pub open spec fn enc_colors(s: Seq<Color3b>) -> Seq<u8>
    decreases s.len(),
{
    if s.len() == 0 {
        Seq::empty()
    } else {
        enc_colors(s.drop_last()) + enc_color(s.last())
    }
}

/// A list of 32-bit integers, four bytes each, with no length.
pub open spec fn enc_u32s(s: Seq<u32>) -> Seq<u8>
    decreases s.len(),
{
    if s.len() == 0 {
        Seq::empty()
    } else {
        enc_u32s(s.drop_last()) + le_bytes(s.last() as nat, 4)
    }
}

/// The fixed part of a node, 26 bytes.
pub open spec fn node_header(n: NodeStoreView) -> Seq<u8> {
    le_bytes(n.position.x_bits as nat, 4) + le_bytes(n.position.y_bits as nat, 4) + le_bytes(n.size_bits as nat, 4)
        + le_bytes(n.class as nat, 2) + le_bytes(n.offset_id as nat, 4) + le_bytes(n.offset_name as nat, 4)
        + le_bytes(n.total_edge_count as nat, 2) + le_bytes(n.edge_count as nat, 2)
}

/// A node: its fixed part, then its edges.
pub open spec fn enc_node(n: NodeStoreView) -> Seq<u8> {
    node_header(n) + enc_u32s(n.edges)
}

pub open spec fn enc_nodes(s: Seq<NodeStoreView>) -> Seq<u8>
    decreases s.len(),
{
    if s.len() == 0 {
        Seq::empty()
    } else {
        enc_nodes(s.drop_last()) + enc_node(s.last())
    }
}

/// The file: each length followed by its list.
pub open spec fn encode_file(f: GraphFileView) -> Seq<u8> {
    le_bytes(f.class_count as nat, 2) + enc_colors(f.classes) + le_bytes(f.node_count as nat, 8) + enc_nodes(f.nodes)
        + le_bytes(f.ids_size as nat, 8) + f.ids + le_bytes(f.names_size as nat, 8) + f.names
}

} // verus!
