//! Giving persons the communities that community detection found.
use vstd::prelude::*;
use crate::algorithms::louvain::{
    all_persons, lemma_level_payloads, lemma_level_persons_in_range, persons_of, Community, Graph, PersonId,
};
use crate::graph_format::Color3b;
use crate::graph_storage::{class_name, ModularityClass, Person};

verus! {

/// The community that the last of `nodes` holding person `p` stands at, or
/// `u16::MAX` when none holds it.
pub open spec fn community_of(nodes: Seq<Community>, p: usize) -> u16
    decreases nodes.len(),
{
    if nodes.len() == 0 {
        u16::MAX
    } else if nodes.last().persons().map_values(|x: PersonId| x.0).contains(p) {
        (nodes.len() - 1) as u16
    } else {
        community_of(nodes.drop_last(), p)
    }
}

/// `a` is `b` with another community.
pub open spec fn same_but_class(a: Person, b: Person) -> bool {
    &&& a.position == b.position
    &&& a.size_bits == b.size_bits
    &&& a.id@ == b.id@
    &&& a.name@ == b.name@
    &&& a.neighbors@ == b.neighbors@
}

/// Gives each person the number of the community found for it, and names
/// the communities `1, 2, ...` with the colours given; refuses, changing
/// nothing, when there are more than `max_classes` communities.
pub fn assign_communities(
    persons: &mut Vec<Person>,
    graph: &Graph,
    colors: &[Color3b],
    max_classes: usize,
) -> (r: Option<Vec<ModularityClass>>)
    requires
        graph.wf(),
        persons_of(graph.nodes@) == all_persons(old(persons)@.len()),
        colors@.len() >= graph.nodes@.len(),
        max_classes < u16::MAX,
    ensures
        r is None <==> graph.nodes@.len() > max_classes,
        r is None ==> final(persons)@ == old(persons)@,
        r matches Some(classes) ==> {
            &&& classes@.len() == graph.nodes@.len()
            &&& forall|i: int|
                0 <= i < classes@.len() ==> {
                    let m = #[trigger] classes@[i];
                    &&& m.color == colors@[i]
                    &&& m.id == i + 1
                    &&& m.name@ == class_name((i + 1) as u16)
                }
            &&& final(persons)@.len() == old(persons)@.len()
            &&& forall|p: int|
                0 <= p < final(persons)@.len() ==> same_but_class(#[trigger] final(persons)@[p], old(persons)@[p])
                    && final(persons)@[p].modularity_class == community_of(graph.nodes@, p as usize)
        },
{
    let k = graph.nodes.len();
    if k > max_classes {
        return None;
    }
    let n = persons.len();
    let ghost orig = persons@;
    proof {
        lemma_level_payloads(*graph);
    }
    let mut p: usize = 0;
    while p < n
        invariant
            n == orig.len(),
            persons@.len() == n,
            p <= n,
            forall|q: int|
                0 <= q < n ==> same_but_class(#[trigger] persons@[q], orig[q]),
            forall|q: int| 0 <= q < p ==> (#[trigger] persons@[q]).modularity_class == u16::MAX,
        decreases n - p,
    {
        persons[p].modularity_class = u16::MAX;
        p += 1;
    }
    proof {
        assert forall|q: int| 0 <= q < n implies (#[trigger] persons@[q]).modularity_class == community_of(
            graph.nodes@.take(0),
            q as usize,
        ) by {
            assert(graph.nodes@.take(0) =~= Seq::<Community>::empty());
        }
    }
    let mut classes: Vec<ModularityClass> = Vec::new();
    let mut i: usize = 0;
    while i < k
        invariant
            k == graph.nodes@.len(),
            k <= max_classes,
            max_classes < u16::MAX,
            colors@.len() >= k,
            n == orig.len(),
            persons_of(graph.nodes@) == all_persons(n as nat),
            forall|c: int| 0 <= c < k ==> (#[trigger] graph.nodes@[c]).has_payload(),
            persons@.len() == n,
            i <= k,
            forall|q: int| 0 <= q < n ==> same_but_class(#[trigger] persons@[q], orig[q]),
            forall|q: int|
                0 <= q < n ==> (#[trigger] persons@[q]).modularity_class == community_of(graph.nodes@.take(i as int), q as usize),
            classes@.len() == i,
            forall|c: int|
                0 <= c < i ==> {
                    let m = #[trigger] classes@[c];
                    &&& m.color == colors@[c]
                    &&& m.id == c + 1
                    &&& m.name@ == class_name((c + 1) as u16)
                },
        decreases k - i,
    {
        let comm = &graph.nodes[i];
        let members = comm.payload_persons();
        let ghost ids = members@.map_values(|x: PersonId| x.0);
        let ghost before = persons@;
        let mut t: usize = 0;
        while t < members.len()
            invariant
                n == orig.len(),
                persons_of(graph.nodes@) == all_persons(n as nat),
                i < k,
                k == graph.nodes@.len(),
                k < u16::MAX,
                members@ == graph.nodes@[i as int].persons(),
                ids == members@.map_values(|x: PersonId| x.0),
                persons@.len() == n,
                t <= members@.len(),
                forall|q: int| 0 <= q < n ==> same_but_class(#[trigger] persons@[q], orig[q]),
                forall|q: int|
                    0 <= q < n ==> (#[trigger] persons@[q]).modularity_class == (if ids.take(t as int).contains(q as usize) {
                        i as u16
                    } else {
                        before[q].modularity_class
                    }),
            decreases members@.len() - t,
        {
            let who = members[t].0;
            proof {
                lemma_level_persons_in_range(graph.nodes@, n as nat, i as int, t as int);
            }
            let ghost prev = persons@;
            persons[who].modularity_class = i as u16;
            proof {
                assert(ids.take(t + 1) =~= ids.take(t as int).push(who));
                assert forall|q: int| 0 <= q < n implies same_but_class(#[trigger] persons@[q], orig[q]) by {
                    assert(same_but_class(prev[q], orig[q]));
                }
                assert forall|q: int|
                    0 <= q < n implies (#[trigger] persons@[q]).modularity_class == (if ids.take(t + 1).contains(q as usize) {
                        i as u16
                    } else {
                        before[q].modularity_class
                    }) by {
                    if q as usize != who {
                        if ids.take(t + 1).contains(q as usize) {
                            let j = choose|j: int| 0 <= j < t + 1 && #[trigger] ids.take(t + 1)[j] == q as usize;
                            assert(ids.take(t as int)[j] == q as usize);
                        }
                        if ids.take(t as int).contains(q as usize) {
                            let j = choose|j: int| 0 <= j < t && #[trigger] ids.take(t as int)[j] == q as usize;
                            assert(ids.take(t + 1)[j] == q as usize);
                        }
                    } else {
                        assert(ids.take(t + 1)[t as int] == who);
                    }
                }
            }
            t += 1;
        }
        proof {
            assert(ids.take(t as int) =~= ids);
            assert(graph.nodes@.take(i + 1).drop_last() =~= graph.nodes@.take(i as int));
            assert(graph.nodes@.take(i + 1).last() == graph.nodes@[i as int]);
        }
        classes.push(ModularityClass::new(colors[i], (i + 1) as u16));
        i += 1;
    }
    proof {
        assert(graph.nodes@.take(k as int) =~= graph.nodes@);
    }
    Some(classes)
}

} // verus!
