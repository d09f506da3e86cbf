//! Sorting the control events: reverse topological order, weighted by power.

use vstd::prelude::*;
use crate::assoc::{entry_keys, lemma_entries_map, Key, VecMap};
use crate::auth_chain::EventIdSet;
use crate::error::{unsorted_reason, Error, ErrorView};
use crate::event::EventView;
use crate::graph::{
    add_event_and_auth_chain_to_graph, graph_consistent, in_diff_parents, reachable,
};
use crate::power::{get_power_level_for_sender, sender_power_level};
use crate::store::EventStore;
use crate::topo::{
    is_lexicographical_topological_order, is_sorted_prefix, key_fails, key_fn_answers,
    key_fn_is_function, key_fn_result, ready,
    key_known, key_result_view, keys_known, lemma_order_rests_on_emitted_keys,
    lexicographical_topological_sort, topological_keys, EventGraph,
};

verus! {

/// The graph of the control events: every event reached from one of them through auth
/// parents that lie in the auth difference, with those parents as its edges.
pub open spec fn control_graph(
    events: Map<Seq<char>, EventView>,
    auth_diff: Set<Seq<char>>,
    seeds: Set<Seq<char>>,
) -> Map<Seq<char>, Set<Seq<char>>> {
    Map::new(
        |x: Seq<char>| exists|s: Seq<char>| seeds.contains(s) && reachable(events, auth_diff, s, x),
        |x: Seq<char>| in_diff_parents(events, auth_diff, x),
    )
}

/// The rank and timestamp by which control events are ordered: the sender's power level,
/// negated so that higher power sorts earlier, and the origin server's timestamp.
pub open spec fn power_keys(events: Map<Seq<char>, EventView>) -> spec_fn(Seq<char>) -> (int, int) {
    |id: Seq<char>|
        (
            -(match sender_power_level(events, id) {
                Some(level) => level as int,
                None => 0int,
            }),
            events[id].origin_server_ts as int,
        )
}

/// Whether the power level of the sender can be told for every node of the graph.
pub open spec fn levels_known(
    events: Map<Seq<char>, EventView>,
    graph: Map<Seq<char>, Set<Seq<char>>>,
) -> bool {
    forall|x: Seq<char>| graph.contains_key(x) ==> #[trigger] sender_power_level(events, x) is Some
}

/// What is asked of an event to sort it: its sender's power level and its timestamp.
pub open spec fn power_key_result(
    levels: Map<Seq<char>, i64>,
    events: Map<Seq<char>, EventView>,
    id: Seq<char>,
) -> Result<(i64, u64), ErrorView> {
    if levels.contains_key(id) && events.contains_key(id) {
        Ok((levels[id], events[id].origin_server_ts))
    } else {
        Err(ErrorView::NotFound(""@))
    }
}

/// Whether the graph cannot be sorted to the end: its order leaves nodes out, which are
/// on a cycle or hang on one.
pub open spec fn unsortable(
    graph: Map<Seq<char>, Set<Seq<char>>>,
    keys: spec_fn(Seq<char>) -> (int, int),
) -> bool {
    exists|s: Seq<Seq<char>>| #[trigger]
        is_lexicographical_topological_order(graph, keys, s) && s.to_set() != graph.dom()
}

/// Builds the graph of the control events.
pub fn build_control_graph(
    events_to_sort: &Vec<String>,
    auth_diff: &EventIdSet,
    events: &EventStore,
) -> (graph: EventGraph)
    ensures
        graph@ == control_graph(events@, auth_diff@, events_to_sort.deep_view().to_set()),
{
    let ghost seeds = events_to_sort.deep_view();
    let mut graph: EventGraph = VecMap::new();
    let mut i: usize = 0;
    while i < events_to_sort.len()
        invariant
            i <= events_to_sort@.len(),
            seeds == events_to_sort.deep_view(),
            graph_consistent(graph@, events@, auth_diff@),
            graph@.dom() == Set::new(
                |x: Seq<char>|
                    exists|t: int| 0 <= t < i && reachable(events@, auth_diff@, seeds[t], x),
            ),
        decreases events_to_sort@.len() - i,
    {
        let ghost before = graph@.dom();
        assert(seeds[i as int] == events_to_sort@[i as int]@);
        add_event_and_auth_chain_to_graph(&mut graph, events_to_sort[i].clone(), auth_diff, events);
        proof {
            let after = Set::new(
                |x: Seq<char>|
                    exists|t: int| 0 <= t < i + 1 && reachable(events@, auth_diff@, seeds[t], x),
            );
            assert forall|x: Seq<char>| graph@.dom().contains(x) implies after.contains(x) by {
                if before.contains(x) {
                    let t = choose|t: int|
                        0 <= t < i && reachable(events@, auth_diff@, seeds[t], x);
                    assert(reachable(events@, auth_diff@, seeds[t], x));
                } else {
                    assert(reachable(events@, auth_diff@, seeds[i as int], x));
                }
            }
            assert forall|x: Seq<char>| after.contains(x) implies graph@.dom().contains(x) by {
                let t = choose|t: int|
                    0 <= t < i + 1 && reachable(events@, auth_diff@, seeds[t], x);
                if t < i {
                    assert(before.contains(x));
                }
            }
            assert(graph@.dom() =~= after);
        }
        i += 1;
    }
    proof {
        let wanted = control_graph(events@, auth_diff@, seeds.to_set());
        assert forall|x: Seq<char>| graph@.contains_key(x) implies wanted.contains_key(x) by {
            let t = choose|t: int|
                0 <= t < seeds.len() && reachable(events@, auth_diff@, seeds[t], x);
            assert(seeds.to_set().contains(seeds[t]));
        }
        assert forall|x: Seq<char>| wanted.contains_key(x) implies graph@.contains_key(x) by {
            let s = choose|s: Seq<char>|
                seeds.to_set().contains(s) && reachable(events@, auth_diff@, s, x);
            let t = choose|t: int| 0 <= t < seeds.len() && seeds[t] == s;
            assert(reachable(events@, auth_diff@, seeds[t], x));
        }
        assert(graph@.dom() =~= wanted.dom());
        assert forall|x: Seq<char>| #[trigger] graph@.contains_key(x) implies graph@[x]
            == wanted[x] by {}
        assert(graph@ =~= wanted);
    }
    graph
}

/// The power level of the sender of every node of the graph.
fn sender_power_levels(graph: &EventGraph, events: &EventStore) -> (r: Result<
    VecMap<String, i64>,
    Error,
>)
    ensures
        match r {
            Ok(levels) => {
                &&& levels_known(events@, graph@)
                &&& levels@.dom() == graph@.dom()
                &&& forall|x: Seq<char>| #[trigger]
                    levels@.contains_key(x) ==> sender_power_level(events@, x) == Some(levels@[x])
            },
            Err(e) => !levels_known(events@, graph@) && e@ == ErrorView::SerdeJson,
        },
{
    let mut levels: VecMap<String, i64> = VecMap::new();
    let n = graph.len();
    proof {
        lemma_entries_map(graph.entries());
    }
    let mut i: usize = 0;
    while i < n
        invariant
            i <= n,
            n == graph.entries().len(),
            entry_keys(graph.entries()).no_duplicates(),
            forall|j: int| 0 <= j < n ==> graph@.contains_key(#[trigger] graph.entries()[j].0),
            forall|x: Seq<char>| #[trigger]
                graph@.contains_key(x) ==> exists|j: int| 0 <= j < n && graph.entries()[j].0 == x,
            levels@.dom() == Set::new(
                |x: Seq<char>| exists|j: int| 0 <= j < i && graph.entries()[j].0 == x,
            ),
            forall|x: Seq<char>| #[trigger]
                levels@.contains_key(x) ==> sender_power_level(events@, x) == Some(levels@[x]),
        decreases n - i,
    {
        let node = graph.key_at(i);
        let ghost before = levels@.dom();
        match get_power_level_for_sender(node, events) {
            Err(e) => {
                assert(graph@.contains_key(graph.entries()[i as int].0));
                return Err(e);
            },
            Ok(level) => {
                levels.insert(node.key_clone(), level);
            },
        }
        proof {
            let after = Set::new(
                |x: Seq<char>| exists|j: int| 0 <= j < i + 1 && graph.entries()[j].0 == x,
            );
            assert forall|x: Seq<char>| levels@.dom().contains(x) implies after.contains(x) by {
                if before.contains(x) {
                    let j = choose|j: int| 0 <= j < i && graph.entries()[j].0 == x;
                    assert(graph.entries()[j].0 == x);
                } else {
                    assert(graph.entries()[i as int].0 == x);
                }
            }
            assert forall|x: Seq<char>| after.contains(x) implies levels@.dom().contains(x) by {
                let j = choose|j: int| 0 <= j < i + 1 && graph.entries()[j].0 == x;
                if j < i {
                    assert(before.contains(x));
                }
            }
            assert(levels@.dom() =~= after);
        }
        i += 1;
    }
    proof {
        assert forall|x: Seq<char>| graph@.contains_key(x) implies levels@.contains_key(x) by {
            let j = choose|j: int| 0 <= j < n && graph.entries()[j].0 == x;
            assert(graph.entries()[j].0 == x);
        }
        assert forall|x: Seq<char>| levels@.contains_key(x) implies graph@.contains_key(x) by {
            let j = choose|j: int| 0 <= j < n && graph.entries()[j].0 == x;
            assert(graph@.contains_key(graph.entries()[j].0));
        }
        assert(levels@.dom() =~= graph@.dom());
    }
    Ok(levels)
}

/// Events are sorted from "earliest" to "latest".
///
/// They are compared using the negative power level (reverse topological ordering), the
/// origin server timestamp and in case of a tie the event ids are compared
/// lexicographically.
///
/// The power level is negative because a higher power level is equated to an earlier
/// (further back in time) origin server timestamp.
pub fn reverse_topological_power_sort(
    events_to_sort: Vec<String>,
    auth_diff: &EventIdSet,
    events: &EventStore,
) -> (r: Result<Vec<String>, Error>)
    ensures
        ({
            let graph = control_graph(events@, auth_diff@, events_to_sort.deep_view().to_set());
            match r {
                Ok(sorted) => {
                    &&& levels_known(events@, graph)
                    &&& is_lexicographical_topological_order(
                        graph,
                        power_keys(events@),
                        sorted.deep_view(),
                    )
                    &&& sorted.deep_view().to_set() == graph.dom()
                    &&& forall|i: int|
                        0 <= i < sorted@.len() ==> events@.contains_key(
                            #[trigger] sorted.deep_view()[i],
                        )
                },
                Err(e) => if !levels_known(events@, graph) {
                    e@ == ErrorView::SerdeJson
                } else {
                    ||| (e@ == ErrorView::NotFound(""@) && exists|m: Seq<char>|
                        graph.contains_key(m) && !events@.contains_key(m))
                    ||| (e@ == ErrorView::InvalidPdu(unsorted_reason()) && unsortable(
                        graph,
                        power_keys(events@),
                    ))
                },
            }
        }),
{
    let graph = build_control_graph(&events_to_sort, auth_diff, events);
    let event_to_pl = match sender_power_levels(&graph, events) {
        Err(e) => {
            return Err(e);
        },
        Ok(levels) => levels,
    };
    let key_fn = |id: &String| -> (r: Result<(i64, u64), Error>)
        ensures
            key_result_view(r) == power_key_result(event_to_pl@, events@, id@),
        {
            match event_to_pl.get(id) {
                None => Err(Error::NotFound("".to_owned())),
                Some(level) => match events.fetch(id) {
                    None => Err(Error::NotFound("".to_owned())),
                    Some(ev) => Ok((*level, ev.origin_server_ts)),
                },
            }
        };
    assert(key_fn_is_function(key_fn));
    let r = lexicographical_topological_sort(&graph, &key_fn);
    proof {
        let keys = topological_keys(key_fn);
        assert forall|x: Seq<char>| key_fn_answers(key_fn, x) implies key_fn_result(key_fn, x)
            == power_key_result(event_to_pl@, events@, x) by {
            let (s, a) = choose|s: &String, a: Result<(i64, u64), Error>|
                s@ == x && #[trigger] key_fn.ensures((s,), a);
        }
        match &r {
            Ok(sorted) => {
                let s = sorted.deep_view();
                assert forall|i: int| 0 <= i < s.len() implies keys(#[trigger] s[i]) == power_keys(
                    events@,
                )(s[i]) && events@.contains_key(s[i]) by {
                    assert(key_known(key_fn)(s[i]));
                    assert(event_to_pl@.contains_key(s[i]));
                }
                lemma_order_rests_on_emitted_keys(graph@, keys, power_keys(events@), s);
            },
            Err(e) => {
                if key_fails(graph@, key_fn, e@) {
                    let (p, m) = choose|p: Seq<Seq<char>>, m: Seq<char>|
                        {
                            &&& is_sorted_prefix(graph@, keys, p)
                            &&& keys_known(key_fn, p)
                            &&& #[trigger] ready(graph@, p.to_set()).contains(m)
                            &&& key_fn_answers(key_fn, m)
                            &&& key_fn_result(key_fn, m) == Err::<(i64, u64), ErrorView>(e@)
                        };
                    assert(graph@.contains_key(m));
                    assert(event_to_pl@.contains_key(m));
                } else {
                    let s = choose|s: Seq<Seq<char>>|
                        {
                            &&& #[trigger] is_lexicographical_topological_order(graph@, keys, s)
                            &&& keys_known(key_fn, s)
                            &&& s.to_set() != graph@.dom()
                        };
                    assert forall|i: int| 0 <= i < s.len() implies keys(#[trigger] s[i])
                        == power_keys(events@)(s[i]) by {
                        assert(key_known(key_fn)(s[i]));
                        assert(event_to_pl@.contains_key(s[i]));
                    }
                    lemma_order_rests_on_emitted_keys(graph@, keys, power_keys(events@), s);
                }
            },
        }
    }
    r
}

} // verus!
