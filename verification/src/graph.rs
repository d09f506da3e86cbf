//! Building the graph of control events and their auth chains.

use vstd::prelude::*;
use crate::assoc::{Key, VecSet};
use crate::auth_chain::EventIdSet;
use crate::event::{Event, EventView};
use crate::store::EventStore;
use crate::topo::EventGraph;

verus! {

/// The auth parents of an event that lie in the auth difference. An event that is not
/// known has none.
pub open spec fn in_diff_parents(
    events: Map<Seq<char>, EventView>,
    auth_diff: Set<Seq<char>>,
    id: Seq<char>,
) -> Set<Seq<char>> {
    if events.contains_key(id) {
        events[id].auth_events.to_set().intersect(auth_diff)
    } else {
        Set::empty()
    }
}

/// Whether each element of the path is an in-difference auth parent of the one before.
pub open spec fn is_auth_path(
    events: Map<Seq<char>, EventView>,
    auth_diff: Set<Seq<char>>,
    path: Seq<Seq<char>>,
) -> bool {
    &&& path.len() > 0
    &&& forall|i: int|
        0 <= i < path.len() - 1 ==> in_diff_parents(events, auth_diff, path[i]).contains(
            #[trigger] path[i + 1],
        )
}

/// Whether `to` is `from` itself or is reached from it through auth parents that lie in
/// the auth difference.
pub open spec fn reachable(
    events: Map<Seq<char>, EventView>,
    auth_diff: Set<Seq<char>>,
    from: Seq<char>,
    to: Seq<char>,
) -> bool {
    exists|path: Seq<Seq<char>>|
        is_auth_path(events, auth_diff, path) && #[trigger] path[0] == from && path.last() == to
}

/// Whether the graph gives each of its nodes exactly its in-difference auth parents, and
/// holds each of those as a node too.
pub open spec fn graph_consistent(
    graph: Map<Seq<char>, Set<Seq<char>>>,
    events: Map<Seq<char>, EventView>,
    auth_diff: Set<Seq<char>>,
) -> bool {
    forall|k: Seq<char>| #[trigger]
        graph.contains_key(k) ==> graph[k] == in_diff_parents(events, auth_diff, k)
            && graph[k].subset_of(graph.dom())
}

proof fn lemma_reachable_self(
    events: Map<Seq<char>, EventView>,
    auth_diff: Set<Seq<char>>,
    id: Seq<char>,
)
    ensures
        reachable(events, auth_diff, id, id),
{
    let path = seq![id];
    assert(is_auth_path(events, auth_diff, path));
    assert(path[0] == id && path.last() == id);
}

proof fn lemma_reachable_step(
    events: Map<Seq<char>, EventView>,
    auth_diff: Set<Seq<char>>,
    from: Seq<char>,
    via: Seq<char>,
    to: Seq<char>,
)
    requires
        reachable(events, auth_diff, from, via),
        in_diff_parents(events, auth_diff, via).contains(to),
    ensures
        reachable(events, auth_diff, from, to),
{
    let path = choose|path: Seq<Seq<char>>|
        is_auth_path(events, auth_diff, path) && #[trigger] path[0] == from && path.last() == via;
    let longer = path.push(to);
    assert forall|i: int| 0 <= i < longer.len() - 1 implies in_diff_parents(
        events,
        auth_diff,
        longer[i],
    ).contains(#[trigger] longer[i + 1]) by {
        if i < path.len() - 1 {
            assert(longer[i] == path[i]);
            assert(longer[i + 1] == path[i + 1]);
        }
    }
    assert(longer[0] == from && longer.last() == to);
}

proof fn lemma_path_stays_inside(
    graph: Map<Seq<char>, Set<Seq<char>>>,
    events: Map<Seq<char>, EventView>,
    auth_diff: Set<Seq<char>>,
    path: Seq<Seq<char>>,
    i: int,
)
    requires
        graph_consistent(graph, events, auth_diff),
        is_auth_path(events, auth_diff, path),
        graph.contains_key(path[0]),
        0 <= i < path.len(),
    ensures
        graph.contains_key(path[i]),
    decreases i,
{
    if i > 0 {
        lemma_path_stays_inside(graph, events, auth_diff, path, i - 1);
        assert(in_diff_parents(events, auth_diff, path[i - 1]).contains(path[i - 1 + 1]));
        assert(graph[path[i - 1]].contains(path[i]));
    }
}

/// A consistent graph that holds a node holds everything reachable from it.
pub proof fn lemma_consistent_graph_is_closed(
    graph: Map<Seq<char>, Set<Seq<char>>>,
    events: Map<Seq<char>, EventView>,
    auth_diff: Set<Seq<char>>,
    from: Seq<char>,
    to: Seq<char>,
)
    requires
        graph_consistent(graph, events, auth_diff),
        graph.contains_key(from),
        reachable(events, auth_diff, from, to),
    ensures
        graph.contains_key(to),
{
    let path = choose|path: Seq<Seq<char>>|
        is_auth_path(events, auth_diff, path) && #[trigger] path[0] == from && path.last() == to;
    lemma_path_stays_inside(graph, events, auth_diff, path, path.len() - 1);
}

/// The auth parents of an event that lie in the auth difference.
pub fn diff_parents(event: Option<&Event>, auth_diff: &EventIdSet) -> (r: EventIdSet)
    ensures
        r@ == (match event {
            Some(ev) => ev@.auth_events.to_set().intersect(auth_diff@),
            None => Set::empty(),
        }),
{
    let mut parents: EventIdSet = VecSet::new();
    match event {
        None => {},
        Some(ev) => {
            let ghost auth = ev@.auth_events;
            let mut i: usize = 0;
            while i < ev.auth_events.len()
                invariant
                    i <= ev.auth_events@.len(),
                    auth == ev.auth_events.deep_view(),
                    parents@ == auth.take(i as int).to_set().intersect(auth_diff@),
                decreases ev.auth_events@.len() - i,
            {
                let aid = &ev.auth_events[i];
                proof {
                    assert(auth.take(i + 1) =~= auth.take(i as int).push(aid@));
                    auth.take(i as int).lemma_push_to_set_commute(aid@);
                    if auth_diff@.contains(aid@) {
                        assert(auth.take(i + 1).to_set().intersect(auth_diff@) =~= auth.take(
                            i as int,
                        ).to_set().intersect(auth_diff@).insert(aid@));
                    } else {
                        assert(auth.take(i + 1).to_set().intersect(auth_diff@) =~= auth.take(
                            i as int,
                        ).to_set().intersect(auth_diff@));
                    }
                }
                if auth_diff.contains(aid) {
                    parents.insert(aid.clone());
                }
                i += 1;
            }
            assert(auth.take(i as int) =~= auth);
        },
    }
    parents
}

/// What holds of the graph and of the events still to visit while an auth chain is walked.
pub open spec fn walk_invariant(
    graph: Map<Seq<char>, Set<Seq<char>>>,
    start: Map<Seq<char>, Set<Seq<char>>>,
    state: Seq<Seq<char>>,
    events: Map<Seq<char>, EventView>,
    auth_diff: Set<Seq<char>>,
    seed: Seq<char>,
) -> bool {
    &&& forall|k: Seq<char>| #[trigger]
        graph.contains_key(k) ==> graph[k] == in_diff_parents(events, auth_diff, k)
    &&& forall|k: Seq<char>, p: Seq<char>|
        graph.contains_key(k) && #[trigger] graph[k].contains(p) ==> graph.contains_key(p)
            || state.contains(p)
    &&& forall|i: int|
        0 <= i < state.len() ==> reachable(events, auth_diff, seed, #[trigger] state[i])
            && auth_diff.insert(seed).contains(state[i])
    &&& forall|k: Seq<char>| #[trigger]
        graph.contains_key(k) ==> start.contains_key(k) || reachable(events, auth_diff, seed, k)
    &&& start.dom().subset_of(graph.dom())
    &&& graph.contains_key(seed) || state.contains(seed)
}

/// Adds to the graph an event and the part of its auth chain that lies in the auth
/// difference: every event reached from it through in-difference auth parents becomes a
/// node, with those parents as its edges. An event that is not known becomes a node
/// without edges.
pub fn add_event_and_auth_chain_to_graph(
    graph: &mut EventGraph,
    event_id: String,
    auth_diff: &EventIdSet,
    events: &EventStore,
)
    requires
        graph_consistent(old(graph)@, events@, auth_diff@),
    ensures
        graph_consistent(final(graph)@, events@, auth_diff@),
        final(graph)@.dom() == old(graph)@.dom().union(
            Set::new(|x: Seq<char>| reachable(events@, auth_diff@, event_id@, x)),
        ),
{
    let ghost seed = event_id@;
    let ghost start = graph@;
    let diff_len = auth_diff.len();
    let ghost universe = auth_diff@.insert(seed);
    let mut state: Vec<String> = Vec::new();
    state.push(event_id);
    proof {
        lemma_reachable_self(events@, auth_diff@, seed);
        assert(state.deep_view()[0] == seed);
        assert(state.deep_view().contains(seed));
        assert(walk_invariant(graph@, start, state.deep_view(), events@, auth_diff@, seed));
    }
    while state.len() > 0
        invariant
            universe == auth_diff@.insert(seed),
            universe.finite(),
            walk_invariant(graph@, start, state.deep_view(), events@, auth_diff@, seed),
        decreases universe.difference(graph@.dom()).len(), state@.len(),
    {
        let ghost stack0 = state.deep_view();
        let ghost graph0 = graph@;
        let eid = state.pop().unwrap();
        let ghost id = eid@;
        let ghost stack1 = state.deep_view();
        proof {
            assert(stack1 =~= stack0.drop_last());
            assert(stack0.last() == id);
            assert(forall|x: Seq<char>| stack0.contains(x) ==> x == id || stack1.contains(x)) by {
                assert forall|x: Seq<char>| stack0.contains(x) implies x == id || stack1.contains(
                    x,
                ) by {
                    let t = choose|t: int| 0 <= t < stack0.len() && stack0[t] == x;
                    if t < stack1.len() {
                        assert(stack1[t] == x);
                    }
                }
            }
            assert(forall|t: int| 0 <= t < stack1.len() ==> stack1[t] == stack0[t]);
        }
        if graph.contains_key(&eid) {
            proof {
                assert(walk_invariant(graph@, start, stack1, events@, auth_diff@, seed));
            }
        } else {
            let parents = diff_parents(events.fetch(&eid), auth_diff);
            proof {
                assert(parents@ == in_diff_parents(events@, auth_diff@, id));
            }
            let n = parents.len();
            let mut j: usize = 0;
            while j < n
                invariant
                    j <= n,
                    n == parents.elements().len(),
                    parents@ == in_diff_parents(events@, auth_diff@, id),
                    graph@ == graph0,
                    reachable(events@, auth_diff@, seed, id),
                    state.deep_view().len() >= stack1.len(),
                    forall|t: int| 0 <= t < stack1.len() ==> state.deep_view()[t] == stack1[t],
                    forall|t: int|
                        0 <= t < state.deep_view().len() ==> reachable(
                            events@,
                            auth_diff@,
                            seed,
                            #[trigger] state.deep_view()[t],
                        ) && auth_diff@.insert(seed).contains(state.deep_view()[t]),
                    forall|t: int|
                        0 <= t < j ==> graph0.contains_key(#[trigger] parents.elements()[t])
                            || state.deep_view().contains(parents.elements()[t]),
                decreases n - j,
            {
                let p = parents.get(j);
                let ghost before = state.deep_view();
                if !graph.contains_key(p) {
                    proof {
                        assert(parents@.contains(parents.elements()[j as int]));
                        lemma_reachable_step(events@, auth_diff@, seed, id, p@);
                    }
                    state.push(p.key_clone());
                    proof {
                        let after = state.deep_view();
                        assert(after =~= before.push(p@));
                        assert(after[before.len() as int] == p@);
                        assert forall|t: int| 0 <= t < j + 1 implies graph0.contains_key(
                            #[trigger] parents.elements()[t],
                        ) || after.contains(parents.elements()[t]) by {
                            if t < j && !graph0.contains_key(parents.elements()[t]) {
                                let u = choose|u: int|
                                    0 <= u < before.len() && before[u] == parents.elements()[t];
                                assert(after[u] == parents.elements()[t]);
                            }
                        }
                    }
                }
                j += 1;
            }
            let ghost stack2 = state.deep_view();
            let ghost parent_set = parents@;
            let ghost parent_list = parents.elements();
            graph.insert(eid, parents);
            proof {
                assert(graph@ == graph0.insert(id, parent_set));
                assert(universe.contains(id)) by {
                    assert(auth_diff@.insert(seed).contains(stack0[stack0.len() - 1]));
                }
                let left0 = universe.difference(graph0.dom());
                let left1 = universe.difference(graph@.dom());
                assert(left1 =~= left0.remove(id));
                assert(left0.contains(id));
                assert forall|x: Seq<char>| stack1.contains(x) implies stack2.contains(x) by {
                    let t = choose|t: int| 0 <= t < stack1.len() && stack1[t] == x;
                    assert(stack2[t] == x);
                }
                assert forall|k: Seq<char>, p: Seq<char>|
                    graph@.contains_key(k) && #[trigger] graph@[k].contains(
                        p,
                    ) implies graph@.contains_key(p) || stack2.contains(p) by {
                    if k == id {
                        let t = choose|t: int| 0 <= t < n && parent_list[t] == p;
                        assert(graph0.contains_key(parent_list[t]) || stack2.contains(
                            parent_list[t],
                        ));
                    } else {
                        assert(graph0.contains_key(k) && graph0[k].contains(p));
                    }
                }
                assert(walk_invariant(graph@, start, stack2, events@, auth_diff@, seed));
            }
        }
    }
    proof {
        let stack = state.deep_view();
        assert(stack.len() == 0);
        assert(graph_consistent(graph@, events@, auth_diff@)) by {
            assert forall|k: Seq<char>| #[trigger] graph@.contains_key(k) implies graph@[k]
                == in_diff_parents(events@, auth_diff@, k) && graph@[k].subset_of(graph@.dom()) by {
                assert forall|p: Seq<char>| graph@[k].contains(p) implies graph@.dom().contains(
                    p,
                ) by {
                    assert(graph@.contains_key(p) || stack.contains(p));
                }
            }
        }
        let reached = Set::new(|x: Seq<char>| reachable(events@, auth_diff@, seed, x));
        assert forall|x: Seq<char>| reached.contains(x) implies graph@.contains_key(x) by {
            lemma_consistent_graph_is_closed(graph@, events@, auth_diff@, seed, x);
        }
        assert(graph@.dom() =~= start.dom().union(reached));
    }
}

} // verus!
