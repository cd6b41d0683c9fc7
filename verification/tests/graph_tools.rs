use graphrust::algorithms::louvain::Graph;
use graphrust::communities::assign_communities;
use graphrust::graph_format::{Color3b, EdgeStore, Point};
use graphrust::graph_storage::{ModularityClass, Person};
use graphrust::stats::{
    degree_and_class, edge_instances, friendship_paradox, node_instances, AbstractGraph, NodeFilter, NodeStats,
    ViewerData,
};
use graphrust::subgraph::{class_members, create_subgraph, match_id, min_edge_filter, neighborhood};

fn person(i: usize, class: u16) -> Person {
    Person::new(
        Point { x_bits: (i as f32).to_bits(), y_bits: 0 },
        0,
        class,
        format!("id{}", i),
        format!("name{}", i),
        0,
    )
}

fn graph(classes: &[u16], links: &[(usize, usize)]) -> Vec<Person> {
    let mut persons: Vec<Person> = classes.iter().enumerate().map(|(i, &c)| person(i, c)).collect();
    for &(a, b) in links {
        persons[a].neighbors.push(b);
        persons[b].neighbors.push(a);
    }
    persons
}

fn sorted(set: &ahash::AHashSet<usize>) -> Vec<usize> {
    let mut v: Vec<usize> = set.iter().copied().collect();
    v.sort();
    v
}

#[test]
fn neighborhood_by_degree() {
    // a path 0-1-2-3-4 and an isolated 5
    let persons = graph(&[0; 6], &[(0, 1), (1, 2), (2, 3), (3, 4)]);
    assert_eq!(sorted(&neighborhood(&persons, 0, 0)), vec![0]);
    assert_eq!(sorted(&neighborhood(&persons, 0, 1)), vec![0, 1]);
    assert_eq!(sorted(&neighborhood(&persons, 2, 1)), vec![1, 2, 3]);
    assert_eq!(sorted(&neighborhood(&persons, 0, 3)), vec![0, 1, 2, 3]);
    // past the end of the component nothing more is found
    assert_eq!(sorted(&neighborhood(&persons, 0, 13)), vec![0, 1, 2, 3, 4]);
    assert_eq!(sorted(&neighborhood(&persons, 5, 4)), vec![5]);
}

#[test]
fn larger_degree_shows_more() {
    let persons = graph(&[0; 7], &[(0, 1), (1, 2), (0, 3), (3, 4), (4, 5), (5, 6)]);
    for d in 0..6 {
        let small = sorted(&neighborhood(&persons, 0, d));
        let large = sorted(&neighborhood(&persons, 0, d + 1));
        assert!(small.iter().all(|x| large.contains(x)));
    }
}

#[test]
fn members_of_a_class() {
    let persons = graph(&[2, 0, 2, 1, 2], &[]);
    assert_eq!(sorted(&class_members(&persons, 2)), vec![0, 2, 4]);
    assert_eq!(sorted(&class_members(&persons, 7)), Vec::<usize>::new());
}

#[test]
fn subgraph_keeps_links_among_included() {
    // a square 0-1-2-3-0 with a diagonal 0-2; keep 0, 1, 2
    let persons = graph(&[0, 1, 0, 1], &[(0, 1), (1, 2), (2, 3), (3, 0), (0, 2)]);
    let included = ahash::AHashSet::from_iter([0usize, 1, 2]);
    let sub = create_subgraph(&persons, &included);
    assert_eq!(sub.persons.len(), 3);
    let mut olds = sub.old_ids.clone();
    olds.sort();
    assert_eq!(olds, vec![0, 1, 2]);
    for (new, &old) in sub.old_ids.iter().enumerate() {
        assert_eq!(sub.id_map.get(&old), Some(&new));
        assert_eq!(sub.persons[new].id, persons[old].id);
        let mut expected: Vec<usize> = persons[old]
            .neighbors
            .iter()
            .filter_map(|x| sub.id_map.get(x).copied())
            .collect();
        let mut got = sub.persons[new].neighbors.clone();
        expected.sort();
        got.sort();
        assert_eq!(got, expected);
    }
    // three links among the three kept persons, each once from its smaller end
    assert_eq!(sub.edges.len(), 3);
    assert!(sub.edges.iter().all(|e| e.a < e.b));
    // the selection follows the renumbering
    assert_eq!(match_id(&sub.id_map, Some(3)), None);
    assert_eq!(match_id(&sub.id_map, None), None);
    assert_eq!(match_id(&sub.id_map, Some(2)), sub.id_map.get(&2).copied());
}

#[test]
fn min_edge_filter_is_one_for_small_graphs() {
    let persons = graph(&[0; 4], &[(0, 1), (1, 2)]);
    assert_eq!(min_edge_filter(&persons), 1);
}

#[test]
fn min_edge_filter_raises_the_bar_for_large_graphs() {
    // 10001 persons with one neighbour each (pairs), 10 of them with more
    let n = 10002;
    let mut links: Vec<(usize, usize)> = (0..n / 2).map(|i| (2 * i, 2 * i + 1)).collect();
    links.push((0, 2));
    let persons = graph(&vec![0; n], &links);
    // at degree 1 all 10002 persons remain, at degree 2 only two
    assert_eq!(min_edge_filter(&persons), 2);
}

#[test]
fn node_stats_count_and_rank_classes() {
    let persons = graph(&[0, 1, 1, 2, 2, 2, 1], &[(0, 1), (1, 2)]);
    let classes: Vec<ModularityClass> = (0..4).map(|i| ModularityClass::new(Color3b::new(0, 0, 0), i)).collect();
    let data = ViewerData::new(persons, classes);
    let s = NodeStats::new(&data, NodeFilter::default());
    assert_eq!(s.node_count, 7);
    // class 1 and class 2 both have 3; ties go by class number; class 3 is empty
    assert_eq!(s.node_classes, vec![(1, 3), (2, 3), (0, 1)]);
    let f = NodeFilter { degree_filter: (1, 1), filter_nodes: true };
    let s = NodeStats::new(&data, f);
    // degree 1: persons 0 and 2
    assert_eq!(s.node_count, 2);
    assert_eq!(s.node_classes, vec![(0, 1), (1, 1)]);
}

#[test]
fn node_stats_class_counts_add_up() {
    let persons = graph(&[3, 1, 1, 0, 3, 3, 2, 0], &[(0, 1), (1, 2), (3, 4), (5, 6)]);
    let classes: Vec<ModularityClass> = (0..4).map(|i| ModularityClass::new(Color3b::new(0, 0, 0), i)).collect();
    let data = ViewerData::new(persons, classes);
    for f in [NodeFilter::default(), NodeFilter { degree_filter: (1, 2), filter_nodes: true }] {
        let s = NodeStats::new(&data, f);
        let total: usize = s.node_classes.iter().map(|c| c.1).sum();
        assert_eq!(total, s.node_count);
    }
}

#[test]
fn friendship_paradox_figures() {
    // 0 has friends 1 (degree 3), 2 (degree 1), 3 (degree 2)
    let persons = graph(&[0; 6], &[(0, 1), (0, 2), (0, 3), (1, 4), (3, 4), (1, 5)]);
    let p = friendship_paradox(&persons, 0);
    assert_eq!(p.current, Some(0));
    assert_eq!(p.sum, 6);
    assert_eq!(p.min, 1);
    assert_eq!(p.max, 3);
    assert!(p.min * 3 <= p.sum && p.sum <= p.max * 3);
    let lonely = graph(&[0], &[]);
    let p = friendship_paradox(&lonely, 0);
    assert_eq!((p.sum, p.min, p.max), (0, 0, 0));
}

#[test]
fn degree_and_class_packing() {
    assert_eq!(degree_and_class(3, 5), 3 * 65536 + 5);
    assert_eq!(degree_and_class(0, 65535), 65535);
    // a degree past 16 bits spills into the class bits
    assert_eq!(degree_and_class(1, 65536), 65536);
}

#[test]
fn renderer_data() {
    let persons = graph(&[4, 7, 7], &[(0, 1), (0, 2)]);
    let nodes = node_instances(&persons);
    assert_eq!(nodes.len(), 3);
    assert_eq!(nodes[0].degree_and_class, 4 * 65536 + 2);
    assert_eq!(nodes[1].degree_and_class, 7 * 65536 + 1);
    let edges = vec![EdgeStore { a: 0, b: 1 }, EdgeStore { a: 0, b: 2 }, EdgeStore { a: 1, b: 2 }];
    let lengths = vec![1.0f32.to_bits(), 3.0f32.to_bits(), 3.0f32.to_bits()];
    let inst = edge_instances(&persons, &edges, &lengths);
    // longest first; equal lengths: the later link first
    assert_eq!(inst.len(), 3);
    assert_eq!(inst[0].position_a, persons[1].position);
    assert_eq!(inst[1].position_b, persons[2].position);
    assert_eq!(inst[1].position_a, persons[0].position);
    assert_eq!(inst[2].position_b, persons[1].position);
}

#[test]
fn edges_once_from_the_smaller_end() {
    let persons = graph(&[0; 4], &[(0, 1), (2, 1), (3, 0)]);
    assert_eq!(persons.get_edges(), vec![(0, 1), (0, 3), (1, 2)]);
}

#[test]
fn communities_are_assigned_and_named() {
    let mut persons = graph(&[9; 6], &[(0, 1), (1, 2), (2, 0), (3, 4), (4, 5), (5, 3), (2, 3)]);
    let g = Graph::new(&persons).louvain().expect("converges");
    let colors = vec![Color3b::new(1, 1, 1), Color3b::new(2, 2, 2)];
    assert!(assign_communities(&mut persons.clone(), &g, &colors, 1).is_none());
    let classes = assign_communities(&mut persons, &g, &colors, 10).unwrap();
    assert_eq!(classes.len(), 2);
    assert_eq!(classes[0].id, 1);
    assert_eq!(classes[1].name, "Classe 2");
    assert_eq!(persons[0].modularity_class, persons[1].modularity_class);
    assert_eq!(persons[3].modularity_class, persons[5].modularity_class);
    assert_ne!(persons[0].modularity_class, persons[3].modularity_class);
    assert!(persons.iter().all(|p| p.modularity_class < 2));
}

#[test]
fn unique_counter_counts_and_forgets() {
    let mut c = graphrust::unique_counter::UniqueCounter::from_iter(&[3, 1, 3, 7, 3]);
    assert_eq!(c.len(), 3);
    assert_eq!(c.val.get(&3), Some(&3));
    c.remove_one(1);
    assert_eq!(c.len(), 2);
    assert_eq!(c.val.get(&1), None);
    c.remove_one(3);
    assert_eq!(c.val.get(&3), Some(&2));
    c.add_one(9);
    c.add_one(9);
    assert_eq!(c.val.get(&9), Some(&2));
    assert_eq!(c.len(), 3);
}
