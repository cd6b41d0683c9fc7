//! Subgraphs: the persons near one person, the persons of one community, and
//! the graph that a set of persons forms on its own.
use vstd::prelude::*;
use ahash::{AHashMap, AHashSet};
use crate::algorithms::AbstractNode;
use crate::algorithms::pathfinding::{adjacency, lemma_len_bounded, links_in_range};
use crate::graph_format::EdgeStore;
use crate::graph_storage::Person;
use crate::stats::degree16;
use crate::third_party::{
    map_contents, map_get, map_insert, map_new, set_contains, set_contents, set_insert, set_is_empty, set_new,
    set_to_vec,
};

verus! {

/// The nodes one link away from some node of `b`.
pub open spec fn one_step(g: Seq<Seq<usize>>, b: Set<usize>) -> Set<usize> {
    Set::new(|v: usize| exists|u: usize| b.contains(u) && u < g.len() && #[trigger] g[u as int].contains(v))
}

/// The nodes at most `d` links away from `s`.
pub open spec fn ball(g: Seq<Seq<usize>>, s: usize, d: nat) -> Set<usize>
    decreases d,
{
    if d == 0 {
        set![s]
    } else {
        ball(g, s, (d - 1) as nat).union(one_step(g, ball(g, s, (d - 1) as nat)))
    }
}

/// The nodes exactly `d` links away from `s`.
pub open spec fn frontier(g: Seq<Seq<usize>>, s: usize, d: nat) -> Set<usize> {
    if d == 0 {
        set![s]
    } else {
        ball(g, s, d).difference(ball(g, s, (d - 1) as nat))
    }
}

/// A larger degree shows at least the persons that a smaller one shows.
pub proof fn lemma_ball_grows(g: Seq<Seq<usize>>, s: usize, a: nat, b: nat)
    requires
        a <= b,
    ensures
        ball(g, s, a).subset_of(ball(g, s, b)),
    decreases b,
{
    if a < b {
        lemma_ball_grows(g, s, a, (b - 1) as nat);
    }
}

/// Once a ball stops growing it stays the same.
proof fn lemma_ball_fixed(g: Seq<Seq<usize>>, s: usize, k: nat, m: nat)
    requires
        ball(g, s, k + 1) == ball(g, s, k),
        k <= m,
    ensures
        ball(g, s, m) == ball(g, s, k),
    decreases m,
{
    if m > k {
        lemma_ball_fixed(g, s, k, (m - 1) as nat);
        assert(ball(g, s, m) == ball(g, s, (m - 1) as nat).union(one_step(g, ball(g, s, (m - 1) as nat))));
    }
}

/// The nodes of a ball are nodes of the graph.
proof fn lemma_ball_in_range(g: Seq<Seq<usize>>, s: usize, d: nat)
    requires
        links_in_range(g),
        s < g.len(),
    ensures
        forall|x: usize| #[trigger] ball(g, s, d).contains(x) ==> x < g.len(),
    decreases d,
{
    if d > 0 {
        lemma_ball_in_range(g, s, (d - 1) as nat);
        assert forall|x: usize| #[trigger] ball(g, s, d).contains(x) implies x < g.len() by {
            if !ball(g, s, (d - 1) as nat).contains(x) {
                let u = choose|u: usize| ball(g, s, (d - 1) as nat).contains(u) && u < g.len() && #[trigger] g[u as int].contains(x);
                let k = choose|k: int| 0 <= k < g[u as int].len() && g[u as int][k] == x;
                assert(g[u as int][k] < g.len());
            }
        }
    }
}

/// What a ball gains in one step comes from its frontier.
proof fn lemma_step_from_frontier(g: Seq<Seq<usize>>, s: usize, d: nat)
    ensures
        one_step(g, ball(g, s, d)).difference(ball(g, s, d)) == one_step(g, frontier(g, s, d)).difference(ball(g, s, d)),
{
    let b = ball(g, s, d);
    let f = frontier(g, s, d);
    assert forall|v: usize| #[trigger] one_step(g, b).difference(b).contains(v) implies one_step(g, f).difference(b).contains(v) by {
        let u = choose|u: usize| b.contains(u) && u < g.len() && #[trigger] g[u as int].contains(v);
        if d > 0 && ball(g, s, (d - 1) as nat).contains(u) {
            assert(one_step(g, ball(g, s, (d - 1) as nat)).contains(v));
            assert(b.contains(v));
        }
        assert(f.contains(u));
    }
    assert forall|v: usize| #[trigger] one_step(g, f).difference(b).contains(v) implies one_step(g, b).difference(b).contains(v) by {
        let u = choose|u: usize| f.contains(u) && u < g.len() && #[trigger] g[u as int].contains(v);
        assert(b.contains(u));
    }
    assert(one_step(g, b).difference(b) =~= one_step(g, f).difference(b));
}

proof fn lemma_push_to_set(s: Seq<usize>, x: usize)
    ensures
        s.push(x).to_set() == s.to_set().insert(x),
{
    assert forall|v: usize| #[trigger] s.push(x).to_set().contains(v) implies s.to_set().insert(x).contains(v) by {
        if v != x {
            let k = choose|k: int| 0 <= k < s.push(x).len() && s.push(x)[k] == v;
            assert(s[k] == v);
        }
    }
    assert forall|v: usize| #[trigger] s.to_set().insert(x).contains(v) implies s.push(x).to_set().contains(v) by {
        if v == x {
            assert(s.push(x)[s.len() as int] == x);
        } else {
            let k = choose|k: int| 0 <= k < s.len() && s[k] == v;
            assert(s.push(x)[k] == v);
        }
    }
    assert(s.push(x).to_set() =~= s.to_set().insert(x));
}

/// The nodes linked from some node of `us`, other than those of `excl`.
pub open spec fn reached(g: Seq<Seq<usize>>, us: Seq<usize>, excl: Set<usize>) -> Set<usize> {
    Set::new(|v: usize| !excl.contains(v) && exists|t: int| 0 <= t < us.len() && #[trigger] g[us[t] as int].contains(v))
}

/// The persons at most `degree` links away from person `id` (the
/// `degree`-neighbourhood shown in a new tab), found layer by layer.
pub fn neighborhood<N: AbstractNode>(persons: &[N], id: usize, degree: usize) -> (r: AHashSet<usize>)
    requires
        id < persons@.len(),
        links_in_range(adjacency(persons@)),
    ensures
        set_contents(r) == ball(adjacency(persons@), id, degree as nat),
        forall|x: usize| #[trigger] set_contents(r).contains(x) ==> x < persons@.len(),
{
    let ghost g = adjacency(persons@);
    let mut new_included = set_new();
    set_insert(&mut new_included, id);
    let mut last_batch = set_new();
    set_insert(&mut last_batch, id);
    proof {
        assert(set_contents(new_included) =~= ball(g, id, 0));
        assert(set_contents(last_batch) =~= frontier(g, id, 0));
    }
    let mut i: usize = 0;
    while i < degree
        invariant
            g == adjacency(persons@),
            links_in_range(g),
            id < g.len(),
            i <= degree,
            set_contents(new_included) == ball(g, id, i as nat),
            set_contents(last_batch) == frontier(g, id, i as nat),
        decreases degree - i,
    {
        proof {
            lemma_ball_in_range(g, id, i as nat);
        }
        let ghost b = ball(g, id, i as nat);
        let mut new_friends = set_new();
        let batch = set_to_vec(&last_batch);
        let mut j: usize = 0;
        proof {
            assert(set_contents(new_friends) =~= reached(g, batch@.take(0), b));
        }
        while j < batch.len()
            invariant
                g == adjacency(persons@),
                links_in_range(g),
                b == ball(g, id, i as nat),
                b == set_contents(new_included),
                batch@.to_set() == frontier(g, id, i as nat),
                forall|x: usize| #[trigger] b.contains(x) ==> x < g.len(),
                j <= batch@.len(),
                set_contents(new_friends) == reached(g, batch@.take(j as int), b),
            decreases batch@.len() - j,
        {
            let person = batch[j];
            proof {
                assert(batch@.to_set().contains(person));
                if i > 0 {
                    assert(ball(g, id, i as nat).contains(person));
                }
            }
            let nbs = persons[person].neighbors();
            assert(nbs@ == g[person as int]);
            let ghost before = set_contents(new_friends);
            let mut k: usize = 0;
            while k < nbs.len()
                invariant
                    g[person as int] == nbs@,
                    b == set_contents(new_included),
                    k <= nbs@.len(),
                    set_contents(new_friends) == before.union(nbs@.take(k as int).to_set().difference(b)),
                decreases nbs@.len() - k,
            {
                let nb = nbs[k];
                if !set_contains(&new_included, nb) {
                    set_insert(&mut new_friends, nb);
                }
                proof {
                    assert(nbs@.take(k + 1) =~= nbs@.take(k as int).push(nb));
                    lemma_push_to_set(nbs@.take(k as int), nb);
                    assert(set_contents(new_friends) =~= before.union(nbs@.take(k + 1).to_set().difference(b)));
                }
                k += 1;
            }
            proof {
                assert(nbs@.take(k as int) =~= nbs@);
                assert(batch@.take(j + 1) =~= batch@.take(j as int).push(person));
                assert(set_contents(new_friends) =~= reached(g, batch@.take(j + 1), b)) by {
                    assert forall|v: usize| #[trigger] reached(g, batch@.take(j + 1), b).contains(v) implies set_contents(
                        new_friends,
                    ).contains(v) by {
                        let t = choose|t: int| 0 <= t < batch@.take(j + 1).len() && #[trigger] g[batch@.take(j + 1)[t] as int].contains(v);
                        if t < j {
                            assert(batch@.take(j as int)[t] == batch@.take(j + 1)[t]);
                            assert(reached(g, batch@.take(j as int), b).contains(v));
                        }
                    }
                    assert forall|v: usize| #[trigger] set_contents(new_friends).contains(v) implies reached(
                        g,
                        batch@.take(j + 1),
                        b,
                    ).contains(v) by {
                        if before.contains(v) {
                            let t = choose|t: int| 0 <= t < batch@.take(j as int).len() && #[trigger] g[batch@.take(
                                j as int,
                            )[t] as int].contains(v);
                            assert(batch@.take(j + 1)[t] == batch@.take(j as int)[t]);
                        } else {
                            assert(batch@.take(j + 1)[j as int] == person);
                        }
                    }
                }
            }
            j += 1;
        }
        proof {
            assert(batch@.take(j as int) =~= batch@);
            lemma_step_from_frontier(g, id, i as nat);
            let f = frontier(g, id, i as nat);
            assert(reached(g, batch@, b) =~= one_step(g, f).difference(b)) by {
                assert forall|v: usize| #[trigger] reached(g, batch@, b).contains(v) implies one_step(g, f).difference(b).contains(v) by {
                    let t = choose|t: int| 0 <= t < batch@.len() && #[trigger] g[batch@[t] as int].contains(v);
                    assert(batch@.to_set().contains(batch@[t]));
                    assert(batch@[t] < g.len()) by {
                        if i > 0 {
                            assert(b.contains(batch@[t]));
                        }
                    }
                }
                assert forall|v: usize| #[trigger] one_step(g, f).difference(b).contains(v) implies reached(g, batch@, b).contains(v) by {
                    let u = choose|u: usize| f.contains(u) && u < g.len() && #[trigger] g[u as int].contains(v);
                    assert(batch@.to_set().contains(u));
                    let t = choose|t: int| 0 <= t < batch@.len() && batch@[t] == u;
                    assert(g[batch@[t] as int].contains(v));
                }
            }
            assert(ball(g, id, (i + 1) as nat) == b.union(one_step(g, b)));
        }
        if set_is_empty(&new_friends) {
            proof {
                assert(ball(g, id, (i + 1) as nat) =~= b) by {
                    assert forall|v: usize| #[trigger] one_step(g, b).contains(v) implies b.contains(v) by {
                        if !b.contains(v) {
                            assert(one_step(g, b).difference(b).contains(v));
                            assert(set_contents(new_friends).contains(v));
                        }
                    }
                }
                lemma_ball_fixed(g, id, i as nat, degree as nat);
                lemma_ball_in_range(g, id, degree as nat);
            }
            return new_included;
        }
        let added = set_to_vec(&new_friends);
        let mut t: usize = 0;
        let ghost nf = set_contents(new_friends);
        while t < added.len()
            invariant
                added@.to_set() == nf,
                t <= added@.len(),
                set_contents(new_included) == b.union(added@.take(t as int).to_set()),
            decreases added@.len() - t,
        {
            set_insert(&mut new_included, added[t]);
            proof {
                assert(added@.take(t + 1) =~= added@.take(t as int).push(added[t as int]));
                lemma_push_to_set(added@.take(t as int), added[t as int]);
                assert(set_contents(new_included) =~= b.union(added@.take(t + 1).to_set()));
            }
            t += 1;
        }
        proof {
            assert(added@.take(t as int) =~= added@);
            assert(set_contents(new_included) =~= ball(g, id, (i + 1) as nat));
            assert(nf =~= frontier(g, id, (i + 1) as nat));
        }
        last_batch = new_friends;
        i += 1;
    }
    proof {
        lemma_ball_in_range(g, id, degree as nat);
    }
    new_included
}


/// The persons of community `class`.
pub fn class_members(persons: &[Person], class: u16) -> (r: AHashSet<usize>)
    ensures
        set_contents(r) == Set::new(|i: usize| i < persons@.len() && persons@[i as int].modularity_class == class),
{
    let mut members = set_new();
    let mut i: usize = 0;
    while i < persons.len()
        invariant
            i <= persons@.len(),
            set_contents(members) == Set::new(|x: usize| x < i && persons@[x as int].modularity_class == class),
        decreases persons@.len() - i,
    {
        if persons[i].modularity_class == class {
            set_insert(&mut members, i);
        }
        proof {
            assert(set_contents(members) =~= Set::new(
                |x: usize| x < i + 1 && persons@[x as int].modularity_class == class,
            ));
        }
        i += 1;
    }
    members
}

/// A person of a subgraph is the same person, neighbours aside.
pub open spec fn same_person(a: Person, b: Person) -> bool {
    &&& a.position == b.position
    &&& a.size_bits == b.size_bits
    &&& a.modularity_class == b.modularity_class
    &&& a.id@ == b.id@
    &&& a.name@ == b.name@
}

/// The neighbours of a list that are kept, in order, by their new numbers.
pub open spec fn remap_list(nbs: Seq<usize>, m: Map<usize, usize>) -> Seq<usize>
    decreases nbs.len(),
{
    if nbs.len() == 0 {
        Seq::empty()
    } else {
        remap_list(nbs.drop_last(), m) + (if m.contains_key(nbs.last()) {
            seq![m[nbs.last()]]
        } else {
            Seq::empty()
        })
    }
}

/// The links of node `a` to larger neighbours, in list order.
pub open spec fn larger_links(a: int, nbs: Seq<usize>) -> Seq<EdgeStore>
    decreases nbs.len(),
{
    if nbs.len() == 0 {
        Seq::empty()
    } else {
        larger_links(a, nbs.drop_last()) + (if a < nbs.last() {
            seq![EdgeStore { a: a as u32, b: nbs.last() as u32 }]
        } else {
            Seq::empty()
        })
    }
}

/// Every link of a graph once, from its smaller end, node by node.
pub open spec fn sub_edges(nl: Seq<Seq<usize>>) -> Seq<EdgeStore>
    decreases nl.len(),
{
    if nl.len() == 0 {
        Seq::empty()
    } else {
        sub_edges(nl.drop_last()) + larger_links(nl.len() - 1, nl.last())
    }
}

/// The neighbour lists of some persons.
pub open spec fn neighbor_lists(ps: Seq<Person>) -> Seq<Seq<usize>> {
    ps.map_values(|p: Person| p.neighbors@)
}

/// The graph that some persons form on their own.
pub struct Subgraph {
    /// The persons, renumbered from zero.
    pub persons: Vec<Person>,
    /// The old number of each person.
    pub old_ids: Vec<usize>,
    /// The new number of each old number.
    pub id_map: AHashMap<usize, usize>,
    /// Its links, each once.
    pub edges: Vec<EdgeStore>,
}

/// The graph that the persons of `included` form on their own: they are
/// numbered in the order in which the set hands them out, each keeps those
/// of its neighbours that are included, and every link is listed once.
pub fn create_subgraph(persons: &[Person], included: &AHashSet<usize>) -> (r: Subgraph)
    requires
        forall|x: usize| #[trigger] set_contents(*included).contains(x) ==> x < persons@.len(),
        persons@.len() <= 0x1_0000_0000,
    ensures
        r.old_ids@.no_duplicates(),
        r.old_ids@.to_set() == set_contents(*included),
        map_contents(r.id_map).dom() == set_contents(*included),
        forall|j: int| 0 <= j < r.old_ids@.len() ==> map_contents(r.id_map)[#[trigger] r.old_ids@[j]] == j,
        r.persons@.len() == r.old_ids@.len(),
        forall|j: int|
            0 <= j < r.persons@.len() ==> same_person(#[trigger] r.persons@[j], persons@[r.old_ids@[j] as int])
                && r.persons@[j].neighbors@ == remap_list(
                persons@[r.old_ids@[j] as int].neighbors@,
                map_contents(r.id_map),
            ),
        r.edges@ == sub_edges(neighbor_lists(r.persons@)),
{
    let order = set_to_vec(included);
    let k = order.len();
    let mut id_map = map_new();
    let mut new_persons: Vec<Person> = Vec::new();
    let mut j: usize = 0;
    proof {
        assert(map_contents(id_map).dom() =~= order@.take(0).to_set());
    }
    while j < k
        invariant
            k == order@.len(),
            order@.no_duplicates(),
            order@.to_set() == set_contents(*included),
            forall|x: usize| #[trigger] set_contents(*included).contains(x) ==> x < persons@.len(),
            j <= k,
            map_contents(id_map).dom() == order@.take(j as int).to_set(),
            forall|t: int| 0 <= t < j ==> map_contents(id_map)[#[trigger] order@[t]] == t,
            new_persons@.len() == j,
            forall|t: int|
                0 <= t < j ==> same_person(#[trigger] new_persons@[t], persons@[order@[t] as int])
                    && new_persons@[t].neighbors@ == Seq::<usize>::empty(),
        decreases k - j,
    {
        let id = order[j];
        proof {
            assert(order@.to_set().contains(id));
        }
        let pers = &persons[id];
        map_insert(&mut id_map, id, j);
        new_persons.push(
            Person {
                position: pers.position,
                size_bits: pers.size_bits,
                modularity_class: pers.modularity_class,
                id: pers.id.clone(),
                name: pers.name.clone(),
                neighbors: Vec::new(),
            },
        );
        proof {
            assert(order@.take(j + 1) =~= order@.take(j as int).push(id));
            lemma_push_to_set(order@.take(j as int), id);
            assert(map_contents(id_map).dom() =~= order@.take(j + 1).to_set());
            assert forall|t: int| 0 <= t < j + 1 implies map_contents(id_map)[#[trigger] order@[t]] == t by {
                if t < j {
                    assert(order@[t] != id);
                }
            }
        }
        j += 1;
    }
    proof {
        assert(order@.take(k as int) =~= order@);
        order@.unique_seq_to_set();
        vstd::seq_lib::seq_to_set_is_finite(order@);
        assert forall|x: usize| #[trigger] order@.to_set().contains(x) implies x < persons@.len() by {}
        lemma_len_bounded(order@.to_set(), persons@.len());
    }
    let ghost m = map_contents(id_map);
    let mut edges: Vec<EdgeStore> = Vec::new();
    let mut a: usize = 0;
    proof {
        assert(neighbor_lists(new_persons@.take(0)) =~= Seq::<Seq<usize>>::empty());
    }
    while a < k
        invariant
            k == order@.len(),
            k <= 0x1_0000_0000,
            order@.no_duplicates(),
            order@.to_set() == set_contents(*included),
            forall|x: usize| #[trigger] set_contents(*included).contains(x) ==> x < persons@.len(),
            m == map_contents(id_map),
            m.dom() == order@.to_set(),
            forall|t: int| 0 <= t < k ==> m[#[trigger] order@[t]] == t,
            a <= k,
            new_persons@.len() == k,
            forall|t: int| 0 <= t < k ==> same_person(#[trigger] new_persons@[t], persons@[order@[t] as int]),
            forall|t: int|
                0 <= t < a ==> (#[trigger] new_persons@[t]).neighbors@ == remap_list(
                    persons@[order@[t] as int].neighbors@,
                    m,
                ),
            edges@ == sub_edges(neighbor_lists(new_persons@.take(a as int))),
        decreases k - a,
    {
        let old = order[a];
        proof {
            assert(order@.to_set().contains(old));
        }
        let nbs = &persons[old].neighbors;
        let mut list: Vec<usize> = Vec::new();
        let mut e: usize = 0;
        let ghost base = edges@;
        proof {
            assert(remap_list(nbs@.take(0), m) =~= Seq::<usize>::empty());
            assert(larger_links(a as int, list@) =~= Seq::<EdgeStore>::empty());
        }
        while e < nbs.len()
            invariant
                m == map_contents(id_map),
                m.dom() == order@.to_set(),
                forall|t: int| 0 <= t < k ==> m[#[trigger] order@[t]] == t,
                k == order@.len(),
                k <= 0x1_0000_0000,
                a < k,
                e <= nbs@.len(),
                list@ == remap_list(nbs@.take(e as int), m),
                forall|t: int| 0 <= t < list@.len() ==> #[trigger] list@[t] < k,
                edges@ == base + larger_links(a as int, list@),
            decreases nbs@.len() - e,
        {
            let x = nbs[e];
            proof {
                assert(nbs@.take(e + 1).drop_last() =~= nbs@.take(e as int));
            }
            match map_get(&id_map, x) {
                Some(y) => {
                    proof {
                        let t = choose|t: int| 0 <= t < k && order@[t] == x;
                        assert(m[order@[t]] == t);
                    }
                    let ghost old_list = list@;
                    list.push(y);
                    if a < y {
                        edges.push(EdgeStore { a: a as u32, b: y as u32 });
                    }
                    proof {
                        assert(list@.drop_last() =~= old_list);
                        assert(edges@ =~= base + larger_links(a as int, list@));
                    }
                },
                None => {},
            }
            e += 1;
        }
        proof {
            assert(nbs@.take(e as int) =~= nbs@);
        }
        let ghost before = new_persons@;
        new_persons[a].neighbors = list;
        proof {
            assert forall|t: int| 0 <= t < k implies same_person(#[trigger] new_persons@[t], persons@[order@[t] as int]) by {
                assert(same_person(before[t], persons@[order@[t] as int]));
            }
            let nl1 = neighbor_lists(new_persons@.take(a + 1));
            assert(nl1.drop_last() =~= neighbor_lists(new_persons@.take(a as int)));
            assert(neighbor_lists(new_persons@.take(a as int)) =~= neighbor_lists(before.take(a as int)));
            assert(nl1.last() == new_persons@[a as int].neighbors@);
            assert(edges@ == sub_edges(nl1));
        }
        a += 1;
    }
    proof {
        assert(new_persons@.take(k as int) =~= new_persons@);
    }
    Subgraph { persons: new_persons, old_ids: order, id_map, edges }
}

/// The new number of a person that was selected before, if the subgraph
/// keeps it.
pub fn match_id(id_map: &AHashMap<usize, usize>, current: Option<usize>) -> (r: Option<usize>)
    ensures
        r == (match current {
            Some(c) => if map_contents(*id_map).contains_key(c) {
                Some(map_contents(*id_map)[c])
            } else {
                None
            },
            None => None,
        }),
{
    match current {
        Some(c) => map_get(id_map, c),
        None => None,
    }
}

/// The number of persons drawn at most, when choosing the degree filter.
pub const MAX_FILTERED_NODES: usize = 10000;

/// The number of persons whose degree is at least `f`.
pub open spec fn count_at_least(ps: Seq<Person>, f: u16) -> nat
    decreases ps.len(),
{
    if ps.len() == 0 {
        0
    } else {
        count_at_least(ps.drop_last(), f) + (if degree16(ps.last()) >= f {
            1nat
        } else {
            0nat
        })
    }
}

proof fn lemma_count_antitone(ps: Seq<Person>, f: u16, h: u16)
    requires
        f <= h,
    ensures
        count_at_least(ps, h) <= count_at_least(ps, f),
    decreases ps.len(),
{
    if ps.len() > 0 {
        lemma_count_antitone(ps.drop_last(), f, h);
    }
}

/// Whether more than `MAX_FILTERED_NODES` persons have degree at least `f`.
fn too_many_at(persons: &[Person], f: u16) -> (r: bool)
    ensures
        r == (count_at_least(persons@, f) > MAX_FILTERED_NODES),
{
    let mut count: usize = 0;
    let mut i: usize = 0;
    while i < persons.len()
        invariant
            i <= persons@.len(),
            count == count_at_least(persons@.take(i as int), f),
            count <= MAX_FILTERED_NODES,
        decreases persons@.len() - i,
    {
        proof {
            assert(persons@.take(i + 1).drop_last() =~= persons@.take(i as int));
        }
        let len = persons[i].neighbors.len();
        let deg = len as u16;
        assert(deg == (len % 0x1_0000) as u16) by (bit_vector)
            requires
                deg == len as u16;
        assert(deg == degree16(persons@[i as int]));
        if deg >= f {
            if count == MAX_FILTERED_NODES {
                proof {
                    lemma_count_prefix(persons@, i + 1, f);
                }
                return true;
            }
            count += 1;
        }
        i += 1;
    }
    proof {
        assert(persons@.take(i as int) =~= persons@);
    }
    false
}

proof fn lemma_count_prefix(ps: Seq<Person>, j: int, f: u16)
    requires
        0 <= j <= ps.len(),
    ensures
        count_at_least(ps.take(j), f) <= count_at_least(ps, f),
    decreases ps.len() - j,
{
    if j < ps.len() {
        lemma_count_prefix(ps, j + 1, f);
        assert(ps.take(j + 1).drop_last() =~= ps.take(j));
    } else {
        assert(ps.take(j) =~= ps);
    }
}

/// The smallest degree filter, from 1 up, that leaves at most
/// `MAX_FILTERED_NODES` persons.
pub fn min_edge_filter(persons: &[Person]) -> (r: u16)
    requires
        count_at_least(persons@, u16::MAX) <= MAX_FILTERED_NODES,
    ensures
        r >= 1,
        count_at_least(persons@, r) <= MAX_FILTERED_NODES,
        r == 1 || count_at_least(persons@, (r - 1) as u16) > MAX_FILTERED_NODES,
{
    let mut filter: u16 = 1;
    while too_many_at(persons, filter)
        invariant
            filter >= 1,
            count_at_least(persons@, u16::MAX) <= MAX_FILTERED_NODES,
            filter == 1 || count_at_least(persons@, (filter - 1) as u16) > MAX_FILTERED_NODES,
        decreases u16::MAX - filter,
    {
        if filter == u16::MAX {
            proof {
                assert(false);
            }
        }
        filter += 1;
    }
    filter
}

} // verus!
