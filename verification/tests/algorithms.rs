use graphrust::algorithms::louvain::Graph;
use graphrust::algorithms::pathfinding::{do_pathfinding, PathSectionSettings};
use graphrust::algorithms::AbstractNode;
use graphrust::graph_format::Point;
use graphrust::graph_storage::Person;
use graphrust::ui_state::PathSection;

fn graph(n: usize, links: &[(usize, usize)]) -> Vec<Person> {
    let mut persons: Vec<Person> = (0..n)
        .map(|i| {
            Person::new(
                Point { x_bits: 0, y_bits: 0 },
                0,
                0,
                format!("id{}", i),
                format!("name{}", i),
                0,
            )
        })
        .collect();
    for &(a, b) in links {
        persons[a].neighbors.push(b);
        persons[b].neighbors.push(a);
    }
    persons
}

fn settings(src: usize, dest: usize) -> PathSectionSettings {
    PathSectionSettings {
        path_src: Some(src),
        path_dest: Some(dest),
        exclude_ids: vec![],
        path_no_direct: false,
        path_no_mutual: false,
    }
}

fn is_path(persons: &[Person], path: &[usize]) -> bool {
    path.windows(2).all(|w| persons[w[0]].neighbors.contains(&w[1]))
}

#[test]
fn path_on_a_line() {
    let persons = graph(5, &[(0, 1), (1, 2), (2, 3), (3, 4)]);
    let r = do_pathfinding(settings(0, 4), &persons).unwrap();
    assert_eq!(r.path, vec![0, 1, 2, 3, 4]);
}

#[test]
fn path_is_shortest_in_a_cycle() {
    // 0-1-2-3-4-5-0: the short way from 0 to 4 goes through 5.
    let persons = graph(6, &[(0, 1), (1, 2), (2, 3), (3, 4), (4, 5), (5, 0)]);
    let r = do_pathfinding(settings(0, 4), &persons).unwrap();
    assert_eq!(r.path, vec![0, 5, 4]);
    assert!(is_path(&persons, &r.path));
}

#[test]
fn no_path_between_components() {
    let persons = graph(4, &[(0, 1), (2, 3)]);
    assert!(do_pathfinding(settings(0, 3), &persons).is_none());
}

#[test]
fn excluded_person_is_avoided() {
    // Two routes from 0 to 3: through 1 or through 2, 4.
    let persons = graph(5, &[(0, 1), (1, 3), (0, 2), (2, 4), (4, 3)]);
    let mut s = settings(0, 3);
    s.exclude_ids = vec![1];
    let r = do_pathfinding(s, &persons).unwrap();
    assert_eq!(r.path, vec![0, 2, 4, 3]);
}

#[test]
fn excluding_the_only_bridge_leaves_no_path() {
    let persons = graph(3, &[(0, 1), (1, 2)]);
    let mut s = settings(0, 2);
    s.exclude_ids = vec![1];
    assert!(do_pathfinding(s, &persons).is_none());
}

#[test]
fn direct_link_can_be_avoided() {
    let persons = graph(3, &[(0, 1), (1, 2), (0, 2)]);
    let r = do_pathfinding(settings(0, 2), &persons).unwrap();
    assert_eq!(r.path, vec![0, 2]);
    let mut s = settings(0, 2);
    s.path_no_direct = true;
    let r = do_pathfinding(s, &persons).unwrap();
    assert_eq!(r.path, vec![0, 1, 2]);
}

#[test]
fn mutual_friends_can_be_avoided() {
    // 1 is a friend of both ends; 2, 3 give a longer way round.
    let persons = graph(5, &[(0, 1), (1, 4), (0, 2), (2, 3), (3, 4)]);
    let r = do_pathfinding(settings(0, 4), &persons).unwrap();
    assert_eq!(r.path, vec![0, 1, 4]);
    let mut s = settings(0, 4);
    s.path_no_mutual = true;
    let r = do_pathfinding(s, &persons).unwrap();
    assert_eq!(r.path, vec![0, 2, 3, 4]);
}

#[test]
fn neighbours_are_adjacent() {
    let persons = graph(2, &[(0, 1)]);
    let r = do_pathfinding(settings(1, 0), &persons).unwrap();
    assert_eq!(r.path, vec![1, 0]);
}

#[test]
fn longer_bidirectional_search_meets_in_the_middle() {
    let n = 40;
    let links: Vec<(usize, usize)> = (0..n - 1).map(|i| (i, i + 1)).collect();
    let persons = graph(n, &links);
    let r = do_pathfinding(settings(0, n - 1), &persons).unwrap();
    assert_eq!(r.path, (0..n).collect::<Vec<_>>());
}

#[test]
fn display_is_the_name() {
    let persons = graph(1, &[]);
    assert_eq!(persons[0].display(), "name0");
    assert_eq!(persons[0].neighbors(), &[] as &[usize]);
}

#[test]
fn louvain_keeps_every_person_once() {
    // Two triangles joined by one link.
    let persons = graph(6, &[(0, 1), (1, 2), (2, 0), (3, 4), (4, 5), (5, 3), (2, 3)]);
    let g = Graph::new(&persons);
    assert_eq!(g.stats(), (6, 14));
    let g = g.louvain().expect("converges");
    let mut seen: Vec<usize> = g
        .nodes
        .iter()
        .flat_map(|c| c.payload.as_ref().unwrap().iter().map(|p| p.0))
        .collect();
    seen.sort();
    assert_eq!(seen, vec![0, 1, 2, 3, 4, 5]);
    assert!(g.nodes.len() <= 6);
    assert_eq!(g.stats().1, 14);
}

#[test]
fn louvain_finds_the_two_triangles() {
    let persons = graph(6, &[(0, 1), (1, 2), (2, 0), (3, 4), (4, 5), (5, 3), (2, 3)]);
    let g = Graph::new(&persons).louvain().expect("converges");
    assert_eq!(g.nodes.len(), 2);
    let mut groups: Vec<Vec<usize>> = g
        .nodes
        .iter()
        .map(|c| {
            let mut v: Vec<usize> = c.payload.as_ref().unwrap().iter().map(|p| p.0).collect();
            v.sort();
            v
        })
        .collect();
    groups.sort();
    assert_eq!(groups, vec![vec![0, 1, 2], vec![3, 4, 5]]);
}

#[test]
fn louvain_on_isolated_persons() {
    let persons = graph(3, &[]);
    let g = Graph::new(&persons);
    assert_eq!(g.stats(), (3, 0));
    let g = g.louvain().expect("converges");
    assert_eq!(g.nodes.len(), 3);
}

#[test]
fn run_levels_groups_the_two_triangles() {
    let persons = graph(6, &[(0, 1), (1, 2), (2, 0), (3, 4), (4, 5), (5, 3), (2, 3)]);
    let g = Graph::new(&persons).run_levels();
    assert_eq!(g.nodes.len(), 2);
    assert_eq!(g.stats().1, 14);
    let mut groups: Vec<Vec<usize>> = g
        .nodes
        .iter()
        .map(|c| {
            let mut v: Vec<usize> = c.payload_persons().iter().map(|p| p.0).collect();
            v.sort();
            v
        })
        .collect();
    groups.sort();
    assert_eq!(groups, vec![vec![0, 1, 2], vec![3, 4, 5]]);
}

#[test]
fn run_levels_leaves_isolated_persons_alone() {
    let persons = graph(4, &[]);
    let g = Graph::new(&persons).run_levels();
    assert_eq!(g.stats(), (4, 0));
}

#[test]
fn one_way_search_lists_the_path_backwards() {
    let persons = graph(6, &[(0, 1), (1, 2), (2, 3), (3, 4), (4, 5), (5, 0)]);
    let r = PathSection::do_pathfinding(settings(0, 4), &persons).unwrap();
    assert_eq!(r.path, vec![4, 5, 0]);
    let line = graph(5, &[(0, 1), (1, 2), (2, 3), (3, 4)]);
    let r = PathSection::do_pathfinding(settings(0, 4), &line).unwrap();
    assert_eq!(r.path, vec![4, 3, 2, 1, 0]);
}

#[test]
fn one_way_search_rules() {
    let persons = graph(5, &[(0, 1), (1, 2), (0, 3), (3, 2), (0, 2), (2, 4)]);
    // the same person at both ends: no path
    assert!(PathSection::do_pathfinding(settings(2, 2), &persons).is_none());
    // the direct link, or avoiding it
    assert_eq!(PathSection::do_pathfinding(settings(0, 2), &persons).unwrap().path, vec![2, 0]);
    let mut s = settings(0, 2);
    s.path_no_direct = true;
    let p = PathSection::do_pathfinding(s.clone(), &persons).unwrap().path;
    assert_eq!(p.len(), 3);
    assert!(p == vec![2, 1, 0] || p == vec![2, 3, 0]);
    // mutual friends of 0 and 2 (1 and 3) avoided as well: no path
    s.path_no_mutual = true;
    assert!(PathSection::do_pathfinding(s, &persons).is_none());
    // an excluded person is not entered
    let mut s = settings(0, 4);
    s.exclude_ids = vec![2];
    assert!(PathSection::do_pathfinding(s, &persons).is_none());
    // separate components
    let apart = graph(4, &[(0, 1), (2, 3)]);
    assert!(PathSection::do_pathfinding(settings(0, 3), &apart).is_none());
}

#[test]
fn louvain_merges_two_linked_persons() {
    let persons = graph(2, &[(0, 1)]);
    let g = Graph::new(&persons).louvain().expect("converges");
    assert_eq!(g.stats(), (1, 2));
    let mut members: Vec<usize> = g.nodes[0].payload_persons().iter().map(|p| p.0).collect();
    members.sort();
    assert_eq!(members, vec![0, 1]);
}

#[test]
fn louvain_converges_on_a_hundred_persons() {
    let links: Vec<(usize, usize)> = (0..99).map(|i| (i, i + 1)).collect();
    let persons = graph(100, &links);
    let g = Graph::new(&persons).louvain().expect("converges");
    assert_eq!(g.stats().1, 198);
    let mut seen: Vec<usize> = g.nodes.iter().flat_map(|c| c.payload_persons().iter().map(|p| p.0)).collect();
    assert!(g.nodes.iter().all(|c| !c.payload_persons().is_empty()));
    seen.sort();
    assert_eq!(seen, (0..100).collect::<Vec<usize>>());
}

#[test]
fn one_level_in_a_fixed_order() {
    // two linked persons: the first joins the second's community
    let persons = graph(2, &[(0, 1)]);
    let g = Graph::new(&persons).next_in_order(&vec![0, 1]);
    assert_eq!(g.stats(), (1, 2));
    assert_eq!(g.nodes[0].payload_persons().iter().map(|p| p.0).collect::<Vec<_>>(), vec![0, 1]);
    assert_eq!(g.nodes[0].children.iter().map(|c| c.0).collect::<Vec<_>>(), vec![0, 1]);
    // persons without links stay apart, whatever the order
    let alone = graph(3, &[]);
    let g = Graph::new(&alone).next_in_order(&vec![2, 0, 1]);
    assert_eq!(g.stats(), (3, 0));
    // the same order gives the same level
    let tri = graph(6, &[(0, 1), (1, 2), (2, 0), (3, 4), (4, 5), (5, 3), (2, 3)]);
    let a = Graph::new(&tri).next_in_order(&vec![5, 4, 3, 2, 1, 0]);
    let b = Graph::new(&tri).next_in_order(&vec![5, 4, 3, 2, 1, 0]);
    let groups = |g: &Graph| -> Vec<Vec<usize>> {
        g.nodes.iter().map(|c| c.payload_persons().iter().map(|p| p.0).collect()).collect()
    };
    assert_eq!(groups(&a), groups(&b));
    assert_eq!(a.stats().1, 14);
}
