use graphrust::graph_format::{Color3b, EdgeStore, FormatError, GraphFile, LengthField, NodeStore, Point};
use graphrust::graph_storage::{load_binary, str_from_null_terminated_utf8, LoadError, ModularityClass};
use speedy::{LittleEndian, Readable};

fn node(x: f32, y: f32, class: u16, offset_id: u32, offset_name: u32, edges: Vec<u32>, total: u16) -> NodeStore {
    NodeStore {
        position: Point { x_bits: x.to_bits(), y_bits: y.to_bits() },
        size_bits: 1.5f32.to_bits(),
        class,
        offset_id,
        offset_name,
        total_edge_count: total,
        edge_count: edges.len() as u16,
        edges,
    }
}

fn sample() -> GraphFile {
    let ids = b"a1\0b22\0c333\0".to_vec();
    let names = "Ann\0Bob\0Zo\u{e9}\0".as_bytes().to_vec();
    let nodes = vec![
        node(0.0, 1.0, 0, 0, 0, vec![], 2),
        node(2.0, -1.0, 1, 3, 4, vec![0], 1),
        node(-3.5, 4.25, 1, 7, 8, vec![0], 1),
    ];
    GraphFile {
        class_count: 2,
        classes: vec![Color3b::new(255, 0, 0), Color3b::new(0, 128, 255)],
        node_count: 3,
        nodes,
        ids_size: ids.len() as u64,
        ids,
        names_size: names.len() as u64,
        names,
    }
}

fn same(a: &GraphFile, b: &GraphFile) -> bool {
    a.class_count == b.class_count
        && a.classes == b.classes
        && a.node_count == b.node_count
        && a.nodes.len() == b.nodes.len()
        && a.nodes.iter().zip(b.nodes.iter()).all(|(x, y)| {
            x.position == y.position
                && x.size_bits == y.size_bits
                && x.class == y.class
                && x.offset_id == y.offset_id
                && x.offset_name == y.offset_name
                && x.total_edge_count == y.total_edge_count
                && x.edge_count == y.edge_count
                && x.edges == y.edges
        })
        && a.ids_size == b.ids_size
        && a.ids == b.ids
        && a.names_size == b.names_size
        && a.names == b.names
}

#[test]
fn color_to_u32() {
    assert_eq!(Color3b::new(0x12, 0x34, 0x56).to_u32(), 0x123456);
    assert_eq!(Color3b::new(255, 255, 255).to_u32(), 0xFFFFFF);
}

#[test]
fn write_then_read_gives_the_file_back() {
    let f = sample();
    let bytes = f.write_to_vec().unwrap();
    let g = GraphFile::read_from_buffer(&bytes).unwrap();
    assert!(same(&f, &g));
}

#[test]
fn trailing_bytes_are_ignored() {
    let f = sample();
    let mut bytes = f.write_to_vec().unwrap();
    bytes.extend_from_slice(&[9, 9, 9]);
    let g = GraphFile::read_from_buffer(&bytes).unwrap();
    assert!(same(&f, &g));
}

#[test]
fn layout_is_little_endian_with_eight_byte_lengths() {
    let f = sample();
    let bytes = f.write_to_vec().unwrap();
    // class count, then three bytes per class
    assert_eq!(u16::read_from_buffer_with_ctx(LittleEndian {}, &bytes[0..2]).unwrap(), 2);
    assert_eq!(&bytes[2..8], &[255, 0, 0, 0, 128, 255]);
    // node count on eight bytes
    assert_eq!(u64::read_from_buffer_with_ctx(LittleEndian {}, &bytes[8..16]).unwrap(), 3);
    // first node: x = 0.0, y = 1.0
    assert_eq!(f32::read_from_buffer_with_ctx(LittleEndian {}, &bytes[16..20]).unwrap(), 0.0);
    assert_eq!(f32::read_from_buffer_with_ctx(LittleEndian {}, &bytes[20..24]).unwrap(), 1.0);
    // header 26 bytes per node, 4 per edge
    let expected = 2 + 6 + 8 + 3 * 26 + 2 * 4 + 8 + 12 + 8 + 13;
    assert_eq!(bytes.len(), expected);
}

#[test]
fn every_truncation_is_refused() {
    let bytes = sample().write_to_vec().unwrap();
    for cut in 0..bytes.len() {
        assert_eq!(
            GraphFile::read_from_buffer(&bytes[..cut]).err(),
            Some(FormatError::InputTooShort),
            "cut at {}",
            cut
        );
    }
}

#[test]
fn empty_file_round_trips() {
    let f = GraphFile::default();
    let bytes = f.write_to_vec().unwrap();
    assert_eq!(bytes.len(), 2 + 8 + 8 + 8);
    let g = GraphFile::read_from_buffer(&bytes).unwrap();
    assert!(same(&f, &g));
}

#[test]
fn length_mismatches_are_named() {
    let mut f = sample();
    f.class_count = 3;
    assert_eq!(f.write_to_vec().err(), Some(FormatError::LengthMismatch(LengthField::Classes)));
    let mut f = sample();
    f.node_count = 2;
    assert_eq!(f.write_to_vec().err(), Some(FormatError::LengthMismatch(LengthField::Nodes)));
    let mut f = sample();
    f.nodes[2].edge_count = 5;
    assert_eq!(f.write_to_vec().err(), Some(FormatError::LengthMismatch(LengthField::Edges)));
    let mut f = sample();
    f.ids_size = 1;
    assert_eq!(f.write_to_vec().err(), Some(FormatError::LengthMismatch(LengthField::Ids)));
    let mut f = sample();
    f.names_size = 100;
    assert_eq!(f.write_to_vec().err(), Some(FormatError::LengthMismatch(LengthField::Names)));
    // the first mismatch in file order is the one reported
    let mut f = sample();
    f.names_size = 100;
    f.class_count = 0;
    assert_eq!(f.write_to_vec().err(), Some(FormatError::LengthMismatch(LengthField::Classes)));
}

#[test]
fn adjacency_lists_each_link_at_both_ends() {
    let f = sample();
    let adj = f.get_adjacency();
    assert_eq!(adj, vec![vec![1, 2], vec![0], vec![0]]);
}

#[test]
fn adjacency_of_a_self_loop_lists_it_twice() {
    let mut f = GraphFile::default();
    f.nodes.push(node(0.0, 0.0, 0, 0, 0, vec![0], 2));
    f.node_count = 1;
    assert_eq!(f.get_adjacency(), vec![vec![0, 0]]);
}

#[test]
fn strings_are_read_up_to_the_zero_byte() {
    let table = "ab\0Zo\u{e9}\0".as_bytes();
    assert_eq!(str_from_null_terminated_utf8(table, 0).as_deref(), Some("ab"));
    assert_eq!(str_from_null_terminated_utf8(table, 1).as_deref(), Some("b"));
    assert_eq!(str_from_null_terminated_utf8(table, 2).as_deref(), Some(""));
    assert_eq!(str_from_null_terminated_utf8(table, 3).as_deref(), Some("Zo\u{e9}"));
    // past the end, no terminator, invalid UTF-8
    assert_eq!(str_from_null_terminated_utf8(table, 100), None);
    assert_eq!(str_from_null_terminated_utf8(b"abc", 0), None);
    assert_eq!(str_from_null_terminated_utf8(&[0xff, 0], 0), None);
}

#[test]
fn class_names() {
    let m = ModularityClass::new(Color3b::new(1, 2, 3), 0);
    assert_eq!(m.name, "Classe 0");
    let m = ModularityClass::new(Color3b::new(1, 2, 3), 65535);
    assert_eq!(m.name, "Classe 65535");
    assert_eq!(ModularityClass::new(Color3b::new(0, 0, 0), 10).name, "Classe 10");
    assert_eq!(ModularityClass::new(Color3b::new(0, 0, 0), 907).name, "Classe 907");
    assert_eq!(m.id, 65535);
    assert_eq!(m.color, Color3b::new(1, 2, 3));
}

#[test]
fn load_binary_builds_persons_and_links() {
    let d = load_binary(sample()).ok().unwrap();
    assert_eq!(d.modularity_classes.len(), 2);
    assert_eq!(d.modularity_classes[1].name, "Classe 1");
    assert_eq!(d.persons.len(), 3);
    assert_eq!(d.persons[0].id, "a1");
    assert_eq!(d.persons[1].id, "b22");
    assert_eq!(d.persons[2].name, "Zo\u{e9}");
    assert_eq!(f32::from_bits(d.persons[2].position.x_bits), -3.5);
    assert_eq!(d.persons[1].modularity_class, 1);
    assert_eq!(d.persons[0].neighbors, vec![1, 2]);
    assert_eq!(d.persons[1].neighbors, vec![0]);
    assert_eq!(d.edges, vec![EdgeStore { a: 1, b: 0 }, EdgeStore { a: 2, b: 0 }]);
    assert_eq!(d.strings.ids, b"a1\0b22\0c333\0".to_vec());
}

#[test]
fn load_binary_reports_the_first_bad_string() {
    let mut f = sample();
    f.nodes[1].offset_name = 1000;
    f.nodes[2].offset_id = 1000;
    assert_eq!(load_binary(f).err(), Some(LoadError::InvalidString(1)));
}

#[test]
fn load_binary_ignores_stored_lengths() {
    // a file built by hand, with length fields left at zero
    let mut f = sample();
    f.class_count = 0;
    f.node_count = 0;
    f.ids_size = 0;
    f.names_size = 0;
    f.nodes[0].edge_count = 0;
    let d = load_binary(f).ok().unwrap();
    assert_eq!(d.modularity_classes.len(), 2);
    assert_eq!(d.persons.len(), 3);
    assert_eq!(d.persons[0].neighbors, vec![1, 2]);
}
