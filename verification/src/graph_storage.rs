//! Turning a stored graph into the viewer's persons, communities and links.
use vstd::prelude::*;
use vstd::utf8::{decode_utf8, valid_utf8, encode_utf8_decode_utf8};
use crate::algorithms::AbstractNode;
use crate::graph_format::{Color3b, EdgeStore, GraphFile, GraphFileView, NodeStoreView, Point};
use crate::graph_format::adjacency::{link_pairs, links_valid, neighbors_from, node_links};
use vstd::string::StrSliceExecFns;
use crate::third_party::str_from_utf8;

verus! {

/// A community: its colour, its number and the name shown for it.
#[derive(Clone)]
pub struct ModularityClass {
    pub color: Color3b,
    pub id: u16,
    pub name: String,
}

/// The decimal digit `d` as a character.
pub open spec fn digit_char(d: nat) -> char {
    (48 + d) as char
}

/// The decimal digits of `n`, most significant first, with no leading zero.
pub open spec fn decimal(n: nat) -> Seq<char>
    decreases n,
{
    if n < 10 {
        seq![digit_char(n)]
    } else {
        decimal(n / 10).push(digit_char(n % 10))
    }
}

/// The digit `d` as a one-character string.
fn digit_str(d: u32) -> (s: &'static str)
    requires
        d < 10,
    ensures
        s@ == seq![digit_char(d as nat)],
{
    let all = "0123456789";
    proof {
        reveal_strlit("0123456789");
        assert(all@.len() == 10);
    }
    let s = all.substring_char(d as usize, d as usize + 1);
    proof {
        assert(all@[d as int] == digit_char(d as nat)) by {
            if d == 0 {} else if d == 1 {} else if d == 2 {} else if d == 3 {} else if d == 4 {}
            else if d == 5 {} else if d == 6 {} else if d == 7 {} else if d == 8 {} else {}
        }
        assert(s@ =~= seq![digit_char(d as nat)]);
    }
    s
}

/// The decimal digits of `n`.
fn decimal_string(n: u32) -> (s: String)
    ensures
        s@ == decimal(n as nat),
    decreases n,
{
    if n < 10 {
        String::from_str(digit_str(n))
    } else {
        let mut s = decimal_string(n / 10);
        s.append(digit_str(n % 10));
        proof {
            assert(s@ =~= decimal((n / 10) as nat).push(digit_char((n % 10) as nat)));
        }
        s
    }
}

/// The name shown for community `id`.
pub open spec fn class_name(id: u16) -> Seq<char> {
    seq!['C', 'l', 'a', 's', 's', 'e', ' '] + decimal(id as nat)
}

impl ModularityClass {
    pub fn new(color: Color3b, id: u16) -> (m: ModularityClass)
        ensures
            m.color == color,
            m.id == id,
            m.name@ == class_name(id),
    {
        let prefix = String::from_str("Classe ");
        proof {
            reveal_strlit("Classe ");
        }
        let digits = decimal_string(id as u32);
        let name = prefix.concat(digits.as_str());
        proof {
            assert(name@ =~= class_name(id));
        }
        ModularityClass { color, id, name }
    }
}

/// A person of the graph.
#[derive(Clone)]
pub struct Person {
    pub position: Point,
    pub size_bits: u32,
    pub modularity_class: u16,
    pub id: String,
    pub name: String,
    pub neighbors: Vec<usize>,
}

impl Person {
    /// A person with no neighbours yet; `total_edge_count` is the room
    /// reserved for them.
    pub fn new(
        position: Point,
        size_bits: u32,
        modularity_class: u16,
        id: String,
        name: String,
        total_edge_count: usize,
    ) -> (p: Person)
        ensures
            p.position == position,
            p.size_bits == size_bits,
            p.modularity_class == modularity_class,
            p.id@ == id@,
            p.name@ == name@,
            p.neighbors@ == Seq::<usize>::empty(),
    {
        Person { position, size_bits, modularity_class, id, name, neighbors: Vec::with_capacity(total_edge_count) }
    }
}

impl AbstractNode for Person {
    open spec fn neighbors_view(&self) -> Seq<usize> {
        self.neighbors@
    }

    fn neighbors(&self) -> (r: &[usize]) {
        self.neighbors.as_slice()
    }

    open spec fn display_view(&self) -> Seq<char> {
        self.name@
    }

    fn display(&self) -> (r: &str) {
        self.name.as_str()
    }
}

/// The tables that person ids and names are read from.
pub struct StringTables {
    pub ids: Vec<u8>,
    pub names: Vec<u8>,
}

/// Whether a zero byte occurs in `table` at `offset` or after it.
pub open spec fn cstr_terminated(table: Seq<u8>, offset: int) -> bool
    decreases table.len() - offset,
{
    if offset < 0 || offset >= table.len() {
        false
    } else if table[offset] == 0 {
        true
    } else {
        cstr_terminated(table, offset + 1)
    }
}

/// The bytes of `table` from `offset` up to the first zero byte.
pub open spec fn cstr_bytes(table: Seq<u8>, offset: int) -> Seq<u8>
    decreases table.len() - offset,
{
    if offset < 0 || offset >= table.len() || table[offset] == 0 {
        Seq::empty()
    } else {
        seq![table[offset]] + cstr_bytes(table, offset + 1)
    }
}

/// A string of the table starts at `offset`: it ends with a zero byte and is
/// UTF-8.
pub open spec fn cstr_ok(table: Seq<u8>, offset: int) -> bool {
    cstr_terminated(table, offset) && valid_utf8(cstr_bytes(table, offset))
}

/// The zero-terminated UTF-8 string of `table` that starts at `offset`, if
/// there is one.
pub fn str_from_null_terminated_utf8(table: &[u8], offset: usize) -> (r: Option<String>)
    ensures
        r is Some <==> cstr_ok(table@, offset as int),
        r matches Some(s) ==> s@ == decode_utf8(cstr_bytes(table@, offset as int)),
{
    let len = table.len();
    let mut j = offset;
    proof {
        if offset < len {
            assert(table@.subrange(offset as int, offset as int) =~= Seq::<u8>::empty());
        }
    }
    while j < len && table[j] != 0
        invariant
            len == table@.len(),
            offset <= j,
            offset < len ==> j <= len,
            offset < len ==> cstr_bytes(table@, offset as int) == table@.subrange(offset as int, j as int) + cstr_bytes(
                table@,
                j as int,
            ),
            cstr_terminated(table@, offset as int) == cstr_terminated(table@, j as int),
        decreases len - j,
    {
        proof {
            assert(table@.subrange(offset as int, j + 1) =~= table@.subrange(offset as int, j as int).push(table@[j as int]));
            assert(table@.subrange(offset as int, j + 1) + cstr_bytes(table@, j + 1) =~= table@.subrange(
                offset as int,
                j as int,
            ) + cstr_bytes(table@, j as int));
        }
        j = j + 1;
    }
    if j >= len {
        return None;
    }
    let bytes = &table[offset..j];
    proof {
        assert(cstr_bytes(table@, j as int) =~= Seq::<u8>::empty());
        assert(bytes@ =~= cstr_bytes(table@, offset as int));
    }
    match str_from_utf8(bytes) {
        Some(s) => {
            let owned = s.to_owned();
            proof {
                encode_utf8_decode_utf8(s@);
            }
            Some(owned)
        },
        None => None,
    }
}

/// A stored graph, turned into persons with neighbour lists.
pub struct ProcessedData {
    pub strings: StringTables,
    pub persons: Vec<Person>,
    pub modularity_classes: Vec<ModularityClass>,
    pub edges: Vec<EdgeStore>,
}

/// Why a stored graph could not be turned into persons.
#[derive(Clone, Copy, PartialEq, Eq, Structural, Debug)]
pub enum LoadError {
    /// The id or the name of this node is not a zero-terminated UTF-8
    /// string of its table.
    InvalidString(usize),
}

/// The strings of node `n` can be read from the tables.
pub open spec fn node_strings_ok(f: GraphFileView, n: NodeStoreView) -> bool {
    cstr_ok(f.ids, n.offset_id as int) && cstr_ok(f.names, n.offset_name as int)
}

/// `p` is node `n` of file `f`, with neighbours not counted.
pub open spec fn person_of(f: GraphFileView, n: NodeStoreView, p: Person) -> bool {
    &&& p.position == n.position
    &&& p.size_bits == n.size_bits
    &&& p.modularity_class == n.class
    &&& p.id@ == decode_utf8(cstr_bytes(f.ids, n.offset_id as int))
    &&& p.name@ == decode_utf8(cstr_bytes(f.names, n.offset_name as int))
}

/// A neighbour list with its entries as indices.
pub open spec fn widen(s: Seq<u32>) -> Seq<usize> {
    s.map_values(|x: u32| x as usize)
}

/// A stored link as an edge.
pub open spec fn edge_of(p: (u32, u32)) -> EdgeStore {
    EdgeStore { a: p.0, b: p.1 }
}

/// Turns a stored graph into its communities (numbered in list order, as a
/// `u16`), its persons (with their ids and names read from the string tables,
/// and every stored link listed at both ends) and its list of links; refuses
/// at the first node whose id or name cannot be read. The stored list lengths
/// are not consulted.
pub fn load_binary(content: GraphFile) -> (r: Result<ProcessedData, LoadError>)
    requires
        links_valid(content@),
        content@.nodes.len() <= 0x1_0000_0000,
    ensures
        match r {
            Ok(d) => {
                let f = content@;
                &&& forall|i: int| 0 <= i < f.nodes.len() ==> node_strings_ok(f, #[trigger] f.nodes[i])
                &&& d.strings.ids@ == f.ids
                &&& d.strings.names@ == f.names
                &&& d.modularity_classes@.len() == f.classes.len()
                &&& forall|i: int|
                    0 <= i < f.classes.len() ==> {
                        let m = #[trigger] d.modularity_classes@[i];
                        &&& m.color == f.classes[i]
                        &&& m.id == i as u16
                        &&& m.name@ == class_name(i as u16)
                    }
                &&& d.persons@.len() == f.nodes.len()
                &&& forall|i: int|
                    0 <= i < f.nodes.len() ==> person_of(f, f.nodes[i], #[trigger] d.persons@[i])
                        && d.persons@[i].neighbors@ == widen(neighbors_from(link_pairs(f.nodes), i))
                &&& d.edges@ == link_pairs(f.nodes).map_values(|p: (u32, u32)| edge_of(p))
            },
            Err(LoadError::InvalidString(i)) => {
                let f = content@;
                &&& i < f.nodes.len()
                &&& !node_strings_ok(f, f.nodes[i as int])
                &&& forall|j: int| 0 <= j < i ==> node_strings_ok(f, #[trigger] f.nodes[j])
            },
        },
{
    let ghost f = content@;
    let classes = &content.classes;
    let nodes = &content.nodes;
    let ids = &content.ids;
    let names = &content.names;
    assert(nodes@.map_values(|n: crate::graph_format::NodeStore| n@) == f.nodes);
    // The communities.
    let mut modularity_classes: Vec<ModularityClass> = Vec::new();
    let mut c: usize = 0;
    while c < classes.len()
        invariant
            f == content@,
            classes@ == f.classes,
            c <= classes@.len(),
            modularity_classes@.len() == c,
            forall|i: int|
                0 <= i < c ==> {
                    let m = #[trigger] modularity_classes@[i];
                    &&& m.color == f.classes[i]
                    &&& m.id == i as u16
                    &&& m.name@ == class_name(i as u16)
                },
        decreases classes@.len() - c,
    {
        modularity_classes.push(ModularityClass::new(classes[c], c as u16));
        c += 1;
    }
    // The persons.
    let n = nodes.len();
    let mut persons: Vec<Person> = Vec::new();
    let mut i: usize = 0;
    while i < n
        invariant
            nodes@.map_values(|n: crate::graph_format::NodeStore| n@) == f.nodes,
            f == content@,
            ids@ == f.ids,
            names@ == f.names,
            n == f.nodes.len(),
            i <= n,
            persons@.len() == i,
            forall|j: int| 0 <= j < i ==> node_strings_ok(f, #[trigger] f.nodes[j]),
            forall|j: int|
                0 <= j < i ==> person_of(f, f.nodes[j], #[trigger] persons@[j]) && persons@[j].neighbors@ == Seq::<
                    usize,
                >::empty(),
        decreases n - i,
    {
        let node = &nodes[i];
        assert(node@ == f.nodes[i as int]);
        let id = match str_from_null_terminated_utf8(ids.as_slice(), node.offset_id as usize) {
            Some(s) => s,
            None => {
                proof {
                    assert(!cstr_ok(f.ids, f.nodes[i as int].offset_id as int));
                    assert(!node_strings_ok(f, f.nodes[i as int]));
                    assert(i < f.nodes.len());
                    assert(forall|j: int| 0 <= j < i ==> node_strings_ok(f, #[trigger] f.nodes[j]));
                }
                return Err(LoadError::InvalidString(i));
            },
        };
        let name = match str_from_null_terminated_utf8(names.as_slice(), node.offset_name as usize) {
            Some(s) => s,
            None => {
                proof {
                    assert(!cstr_ok(f.names, f.nodes[i as int].offset_name as int));
                    assert(!node_strings_ok(f, f.nodes[i as int]));
                    assert(i < f.nodes.len());
                    assert(forall|j: int| 0 <= j < i ==> node_strings_ok(f, #[trigger] f.nodes[j]));
                }
                return Err(LoadError::InvalidString(i));
            },
        };
        persons.push(
            Person::new(node.position, node.size_bits, node.class, id, name, node.total_edge_count as usize),
        );
        i += 1;
    }
    // The neighbour lists and the links.
    let mut edges: Vec<EdgeStore> = Vec::new();
    let ghost nv = f.nodes;
    proof {
        assert(nv.take(0) =~= Seq::<NodeStoreView>::empty());
        assert(link_pairs(nv.take(0)).map_values(|p: (u32, u32)| edge_of(p)) =~= Seq::<EdgeStore>::empty());
        assert forall|u: int| 0 <= u < n implies (#[trigger] persons@[u]).neighbors@ == widen(
            neighbors_from(link_pairs(nv.take(0)), u),
        ) by {
            assert(widen(Seq::<u32>::empty()) =~= Seq::<usize>::empty());
        }
    }
    let mut i: usize = 0;
    while i < n
        invariant
            nodes@.map_values(|n: crate::graph_format::NodeStore| n@) == f.nodes,
            f == content@,
            nv == f.nodes,
            n == nv.len(),
            n <= 0x1_0000_0000,
            links_valid(f),
            i <= n,
            persons@.len() == n,
            forall|j: int| 0 <= j < n ==> person_of(f, f.nodes[j], #[trigger] persons@[j]),
            forall|u: int|
                0 <= u < n ==> (#[trigger] persons@[u]).neighbors@ == widen(neighbors_from(link_pairs(nv.take(i as int)), u)),
            edges@ == link_pairs(nv.take(i as int)).map_values(|p: (u32, u32)| edge_of(p)),
        decreases n - i,
    {
        let node = &nodes[i];
        assert(node@ == nv[i as int]);
        let ghost base = link_pairs(nv.take(i as int));
        let ghost links = node_links(i as int, nv[i as int]);
        let mut k: usize = 0;
        proof {
            assert(links.take(0) =~= Seq::<(u32, u32)>::empty());
            assert(base + links.take(0) =~= base);
        }
        while k < node.edges.len()
            invariant
                nv == f.nodes,
                n == nv.len(),
                n <= 0x1_0000_0000,
                links_valid(f),
                i < n,
                node@ == nv[i as int],
                links == node_links(i as int, nv[i as int]),
                k <= node.edges@.len(),
                persons@.len() == n,
                forall|j: int| 0 <= j < n ==> person_of(f, f.nodes[j], #[trigger] persons@[j]),
                forall|u: int|
                    0 <= u < n ==> (#[trigger] persons@[u]).neighbors@ == widen(neighbors_from(base + links.take(k as int), u)),
                edges@ == (base + links.take(k as int)).map_values(|p: (u32, u32)| edge_of(p)),
            decreases node.edges@.len() - k,
        {
            let e = node.edges[k];
            assert(e < n) by {
                assert(nv[i as int].edges[k as int] == e);
            }
            let ghost before = persons@;
            persons[i].neighbors.push(e as usize);
            persons[e as usize].neighbors.push(i);
            edges.push(EdgeStore { a: i as u32, b: e });
            proof {
                let p0 = base + links.take(k as int);
                let p1 = base + links.take(k + 1);
                assert(p1.drop_last() =~= p0);
                assert(p1.last() == (i as u32, e));
                assert(p1 =~= p0.push((i as u32, e)));
                assert(edges@ =~= p1.map_values(|p: (u32, u32)| edge_of(p)));
                assert forall|j: int| 0 <= j < n implies person_of(f, f.nodes[j], #[trigger] persons@[j]) by {
                    assert(before[j].position == persons@[j].position);
                }
                assert forall|u: int| 0 <= u < n implies (#[trigger] persons@[u]).neighbors@ == widen(neighbors_from(p1, u)) by {
                    assert(neighbors_from(p1, u) == neighbors_from(p0, u) + (if i as u32 == u {
                        seq![e]
                    } else {
                        Seq::empty()
                    }) + (if e == u {
                        seq![i as u32]
                    } else {
                        Seq::empty()
                    }));
                    if u == i && u == e {
                        assert(persons@[u].neighbors@ =~= before[u].neighbors@.push(e as usize).push(i));
                    } else if u == i {
                        assert(persons@[u].neighbors@ =~= before[u].neighbors@.push(e as usize));
                    } else if u == e {
                        assert(persons@[u].neighbors@ =~= before[u].neighbors@.push(i));
                    } else {
                        assert(persons@[u].neighbors@ =~= before[u].neighbors@);
                    }
                    assert(widen(neighbors_from(p1, u)) =~= persons@[u].neighbors@);
                }
            }
            k += 1;
        }
        proof {
            assert(links.take(k as int) =~= links);
            assert(nv.take(i + 1).drop_last() =~= nv.take(i as int));
            assert(link_pairs(nv.take(i + 1)) == base + links);
        }
        i += 1;
    }
    proof {
        assert(nv.take(n as int) =~= nv);
    }
    Ok(ProcessedData { strings: StringTables { ids: content.ids, names: content.names }, persons, modularity_classes, edges })
}

} // verus!
