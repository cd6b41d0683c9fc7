use graphrust::algorithms::pathfinding::PathSectionResults;
use graphrust::gfonts::{ends_with_bytes, FamilyFileList, FileRef, Manifest};
use graphrust::graph_format::{Color3b, GraphFile, Point};
use graphrust::graph_storage::Person;
use graphrust::import::unconnected_nodes;
use graphrust::search::{merge_results, SearchIndex};
use graphrust::threading::{
    progress_due, progress_interval, NullStatusWriter, Progress, StatusData, StatusReader, StatusWriterInterface,
};
use graphrust::ui_state::{
    max_degree, path_distance, person_clicked, InfosSection, PathAction, PathSection, PathStatus, SelectedUserField,
};
use graphrust::utils::SliceExt;

fn person(i: usize) -> Person {
    Person::new(Point { x_bits: 0, y_bits: 0 }, 0, 0, format!("id{}", i), format!("name{}", i), 0)
}

#[test]
fn status_messages_are_joined_by_lines() {
    let (tx, rx) = std::sync::mpsc::channel();
    let mut r = StatusReader::new(rx);
    assert_eq!(r.recv(), "");
    tx.send(StatusData::from("first".to_string())).unwrap();
    tx.send(StatusData::from(Progress { max: 10, val: 3 })).unwrap();
    tx.send(StatusData::Message("second".to_string())).unwrap();
    assert_eq!(r.recv(), "first");
    assert!(r.progress().is_none());
    assert_eq!(r.recv(), "first");
    assert_eq!(r.progress().map(|p| (p.max, p.val)), Some((10, 3)));
    // a message clears the progress
    assert_eq!(r.recv(), "first\nsecond");
    assert!(r.progress().is_none());
    // nothing waiting: unchanged
    assert_eq!(r.recv(), "first\nsecond");
}

#[test]
fn status_apply_directly() {
    let (_tx, rx) = std::sync::mpsc::channel::<StatusData>();
    let mut r = StatusReader::new(rx);
    r.apply(StatusData::Progress(Progress { max: 2, val: 1 }));
    assert_eq!(r.recv(), "");
    r.apply(StatusData::Message(String::new()));
    assert_eq!(r.recv(), "");
    r.apply(StatusData::Message("x".to_string()));
    assert_eq!(r.recv(), "x");
}

#[test]
fn null_writer_accepts_everything() {
    assert!(NullStatusWriter.send(StatusData::Message("x".to_string())).is_ok());
}

#[test]
fn progress_every_hundredth() {
    assert_eq!(progress_interval(50), 1);
    assert_eq!(progress_interval(1000), 10);
    assert!(progress_due(20, 1000));
    assert!(!progress_due(21, 1000));
    assert!(progress_due(7, 0));
}

#[test]
fn font_file_by_suffix() {
    let list = FamilyFileList {
        manifest: Manifest {
            file_refs: vec![
                FileRef { filename: "static/Font-Bold.ttf".to_string(), url: "u1".to_string() },
                FileRef { filename: "static/Font-Regular.ttf".to_string(), url: "u2".to_string() },
                FileRef { filename: "other/Font-Regular.ttf".to_string(), url: "u3".to_string() },
            ],
        },
    };
    assert_eq!(list.find_file_url("Font-Regular.ttf"), Some("u2".to_string()));
    assert_eq!(list.find_file_url("Bold.ttf"), Some("u1".to_string()));
    assert_eq!(list.find_file_url("Italic.ttf"), None);
    assert!(ends_with_bytes(b"abc", b""));
    assert!(!ends_with_bytes(b"bc", b"abc"));
}

#[test]
fn exact_search_and_merge() {
    let persons: Vec<Person> = (0..5).map(person).collect();
    let index = SearchIndex::new(&persons);
    assert_eq!(index.find_exact("id3"), Some(3));
    assert_eq!(index.find_exact("id9"), None);
    assert_eq!(index.search("id2", vec![4, 2, 0]), vec![2, 4, 0]);
    assert_eq!(index.search("nobody", vec![4, 2]), vec![4, 2]);
    assert_eq!(merge_results(Some(3), vec![1, 3, 4]), vec![3, 1, 4]);
    assert_eq!(merge_results(Some(2), vec![1, 3]), vec![2, 1, 3]);
    assert_eq!(merge_results(None, vec![1, 3]), vec![1, 3]);
    assert_eq!(merge_results(Some(1), vec![1, 1]), vec![1, 1]);
}

#[test]
fn exact_search_orders_ids_by_bytes() {
    // ids given out of order, with a prefix and a non-ASCII one
    let ids = ["m\u{e9}", "b", "ab", "a", "zz", "\u{e9}t\u{e9}", "abc"];
    let persons: Vec<Person> = ids
        .iter()
        .enumerate()
        .map(|(i, id)| Person::new(Point { x_bits: 0, y_bits: 0 }, 0, 0, id.to_string(), format!("n{i}"), 0))
        .collect();
    let index = SearchIndex::new(&persons);
    let sorted: Vec<&str> = index.exact.iter().map(|e| e.0.as_str()).collect();
    assert_eq!(sorted, vec!["a", "ab", "abc", "b", "m\u{e9}", "zz", "\u{e9}t\u{e9}"]);
    for (i, id) in ids.iter().enumerate() {
        assert_eq!(index.find_exact(id), Some(i as u32));
    }
    assert_eq!(index.find_exact("aa"), None);
    assert_eq!(index.find_exact(""), None);
    assert_eq!(index.find_exact("zzz"), None);
}

#[test]
fn two_items_at_once() {
    let mut v = vec![10, 20, 30];
    {
        let (a, b) = v.as_mut_slice().get_two_mut(2, 0);
        std::mem::swap(a, b);
    }
    assert_eq!(v, vec![30, 20, 10]);
    let (a, b) = v.as_mut_slice().get_two_mut(0, 1);
    *a += 1;
    *b += 2;
    assert_eq!(v, vec![31, 22, 10]);
}

#[test]
fn import_builds_a_file() {
    let mut f = GraphFile::default();
    assert_eq!(f.add_person("u1", "Ann"), 0);
    assert_eq!(f.add_person("u22", "B\u{f6}b"), 1);
    assert_eq!(f.add_person("u3", "C"), 2);
    assert_eq!(f.ids, b"u1\0u22\0u3\0".to_vec());
    assert_eq!(f.nodes[1].offset_id, 3);
    assert_eq!(f.nodes[2].offset_name, 4 + "B\u{f6}b".len() as u32 + 1);
    let mut edges = vec![(2, 0), (0, 1), (1, 2), (0, 2)];
    f.attach_edges(&mut edges);
    assert_eq!(edges, vec![(0, 1), (0, 2), (1, 2), (2, 0)]);
    assert_eq!(f.nodes[0].edges, vec![2]);
    assert_eq!(f.nodes[1].edges, vec![0]);
    assert_eq!(f.nodes[2].edges, vec![0, 1]);
    assert_eq!(f.nodes[2].edge_count, 2);
    assert_eq!(f.nodes.iter().map(|n| n.total_edge_count).collect::<Vec<_>>(), vec![3, 2, 3]);
    f.apply_layout(&[(1, 2.0f32.to_bits(), 3.0f32.to_bits()), (1, 5.0f32.to_bits(), 6.0f32.to_bits())]);
    assert_eq!(f32::from_bits(f.nodes[1].position.x_bits), 5.0);
    assert_eq!(f.nodes[0].position, Point { x_bits: 0, y_bits: 0 });
    f.apply_modularity(&[Color3b::new(1, 2, 3), Color3b::new(4, 5, 6)], &[1, 0]);
    assert_eq!(f.nodes[0].class, 1);
    assert_eq!(f.nodes[2].class, 0);
    f.finish_metadata();
    assert_eq!(f.class_count, 2);
    assert_eq!(f.node_count, 3);
    assert_eq!(f.ids_size, f.ids.len() as u64);
    let bytes = f.write_to_vec().unwrap();
    assert!(GraphFile::read_from_buffer(&bytes).is_ok());
    // every stored degree is the length of the neighbour list
    let adj = f.get_adjacency();
    for (i, n) in f.nodes.iter().enumerate() {
        assert_eq!(n.total_edge_count as usize, adj[i].len());
    }
}

#[test]
fn unconnected_persons() {
    let adj: Vec<Vec<u32>> = vec![vec![1], vec![0, 2], vec![1], vec![4], vec![3], vec![]];
    assert_eq!(unconnected_nodes(&adj), vec![3, 4, 5]);
    let adj: Vec<Vec<u32>> = vec![vec![]];
    assert_eq!(unconnected_nodes(&adj), Vec::<usize>::new());
}

#[test]
fn path_panel_decisions() {
    let mut p = PathSection::new();
    assert!(matches!(p.settings_changed(true), PathAction::Idle));
    assert!(p.path_status.is_none());
    p.path_settings.path_src = Some(1);
    p.path_settings.path_dest = Some(1);
    assert!(matches!(p.settings_changed(true), PathAction::Idle));
    assert!(matches!(p.path_status, Some(PathStatus::SameSrcDest)));
    p.path_settings.path_dest = Some(4);
    // nothing changed and not marked: nothing happens
    assert!(matches!(p.settings_changed(false), PathAction::Idle));
    match p.settings_changed(true) {
        PathAction::Search(s) => {
            assert_eq!((s.path_src, s.path_dest), (Some(1), Some(4)));
        },
        PathAction::Idle => panic!("a search should start"),
    }
    assert!(p.path_loading);
    p.search_done(Some(PathSectionResults { path: vec![1, 2, 4] }));
    assert!(!p.path_loading);
    match &p.path_status {
        Some(PathStatus::PathFound(path)) => assert_eq!(path_distance(path), 2),
        _ => panic!("a path should be shown"),
    }
    p.search_done(None);
    assert!(matches!(p.path_status, Some(PathStatus::NoPath)));
    p.exclude(2);
    p.exclude(2);
    p.exclude(3);
    assert_eq!(p.path_settings.exclude_ids, vec![2, 3]);
    assert!(p.path_dirty);
    assert!(matches!(p.settings_changed(false), PathAction::Search(_)));
    assert!(!p.path_dirty);
    p.remove_exclusion(0);
    assert_eq!(p.path_settings.exclude_ids, vec![3]);
    p.clear_exclusions();
    assert!(p.path_settings.exclude_ids.is_empty());
}

#[test]
fn infos_panel() {
    let mut s = InfosSection::new();
    assert_eq!(s.neighborhood_degree, 1);
    s.set_infos_current(Some(0));
    assert!(s.infos_open);
    let mut persons: Vec<Person> = (0..3).map(person).collect();
    persons[0].neighbors = vec![1, 2];
    persons[1].neighbors = vec![0];
    persons[2].neighbors = vec![0];
    s.refresh_paradox(&persons);
    assert_eq!(s.paradox.current, Some(0));
    assert_eq!((s.paradox.sum, s.paradox.min, s.paradox.max), (2, 1, 1));
    s.set_infos_current(None);
    assert!(!s.infos_open);
    assert_eq!(max_degree(&persons), 2);
}

#[test]
fn combo_filter_starts_with_the_first_persons() {
    let s = graphrust::ui_state::ComboFilterState::new();
    assert_eq!(s.item_vector, (0..100).collect::<Vec<usize>>());
    assert!(!s.loading);
    assert_eq!(s.show_count(), 100);
}

#[test]
fn combo_filter_searches_and_keeps_current_results_only() {
    let mut s = graphrust::ui_state::ComboFilterState::new();
    s.pattern = "ali".to_string();
    assert_eq!(s.pattern_changed(), Some("ali".to_string()));
    assert!(s.loading);
    // results of an older search are ignored
    s.results_arrived(&"al".to_string(), &vec![7, 8]);
    assert!(s.loading);
    assert_eq!(s.item_vector.len(), 100);
    s.results_arrived(&"ali".to_string(), &vec![4, 2]);
    assert!(!s.loading);
    assert_eq!(s.item_vector, vec![4, 2]);
    assert_eq!(s.show_count(), 2);
    // clearing the text shows the first persons again
    s.pattern.clear();
    assert_eq!(s.pattern_changed(), None);
    assert_eq!(s.item_vector.len(), 100);
}

#[test]
fn clicks_fill_source_then_destination() {
    let mut infos = InfosSection::new();
    let mut path = PathSection::new();
    let mut field = SelectedUserField::default();
    assert_eq!(field, SelectedUserField::PathSource);
    person_clicked(&mut infos, &mut path, &mut field, 4);
    assert_eq!(infos.infos_current, Some(4));
    assert!(infos.infos_open);
    assert_eq!(path.path_settings.path_src, Some(4));
    assert!(path.path_dirty);
    assert_eq!(field, SelectedUserField::PathDest);
    person_clicked(&mut infos, &mut path, &mut field, 7);
    assert_eq!(path.path_settings.path_dest, Some(7));
    assert_eq!(path.path_settings.path_src, Some(4));
    assert_eq!(field, SelectedUserField::PathDest);
    let mut field = SelectedUserField::Selected;
    path.path_dirty = false;
    person_clicked(&mut infos, &mut path, &mut field, 2);
    assert_eq!(infos.infos_current, Some(2));
    assert!(!path.path_dirty);
    assert_eq!(path.path_settings.path_dest, Some(7));
    assert_eq!(field, SelectedUserField::Selected);
}

#[test]
fn combo_filter_popup_focuses_once_per_opening() {
    let mut s = graphrust::ui_state::ComboFilterState::new();
    assert!(s.popup_shown());
    assert!(!s.popup_shown());
    s.popup_closed();
    assert!(s.popup_shown());
    assert_eq!(s.rows_shown(30), 30);
    assert_eq!(s.rows_shown(1000), 100);
}

#[test]
fn importer_numbers_persons_and_skips_unknown_links() {
    let mut imp = graphrust::import::Importer::new();
    assert_eq!(imp.add_node(900, "u1", "Ann"), 0);
    assert_eq!(imp.add_node(17, "u2", "Bob"), 1);
    assert_eq!(imp.add_node(55, "u3", "Cy"), 2);
    assert!(imp.add_link(17, 900));
    assert!(!imp.add_link(17, 4));
    assert!(imp.add_link(55, 17));
    assert_eq!(imp.edges, vec![(1, 0), (2, 1)]);
    assert_eq!(imp.file.nodes.len(), 3);
    assert_eq!(imp.file.nodes[2].offset_id, 6);
    let mut edges = imp.edges.clone();
    imp.file.attach_edges(&mut edges);
    assert_eq!(imp.file.nodes[0].edges, vec![1]);
    assert_eq!(imp.file.nodes[1].edges, vec![2]);
    assert_eq!(imp.file.nodes.iter().map(|n| n.total_edge_count).collect::<Vec<_>>(), vec![1, 2, 1]);
}
