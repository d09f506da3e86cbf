//! State resolution: one state out of the states of several forks.

use vstd::prelude::*;
use crate::assoc::{entry_keys, lemma_entries_map, Key, VecMap, VecSet};
use crate::auth::{
    accepts_every, auth_check_is_function, auth_types_is_function, files_every, iterative_auth,
    iterative_auth_check, lemma_iterative_auth_entries,
};
use crate::auth_chain::{auth_chain_diff, get_auth_chain_diff, EventIdSet};
use crate::content::option_view;
use crate::control::{
    control_graph, levels_known, power_keys, reverse_topological_power_sort,
};
use crate::error::{unsorted_reason, Error, ErrorView};
use crate::event::{
    room_power_levels_name, Event, EventView, StateEventType, StateKey, StateMap,
    TimelineEventType,
};
use crate::graph::{in_diff_parents, is_auth_path, reachable};
use crate::mainline::{
    first_failure, is_first_failure, is_sorted_by, lemma_first_failure, lemma_sorted_is_unique,
    mainline, mainline_depths, mainline_keys, mainline_sort, sort_failure,
};
use crate::power::{is_power_event_id, is_power_event_spec};
use crate::room_version::{room_version_spec, RoomVersion, RoomVersionId};
use crate::separate::{
    conflicted_state, is_unconflicted, lemma_present_values, occurs, separate, unconflicted_state,
};
use crate::store::EventStore;
use crate::topo::{
    is_lexicographical_topological_order, lemma_order_is_unique, lemma_sorted_prefix_nodes,
};

verus! {

/// The full conflicted set: the events of the auth chain difference and of the
/// conflicted state that exist. Events that cannot be verified are not honored.
pub open spec fn full_conflicted_set(
    conflicted: Map<(Seq<char>, Seq<char>), Seq<Seq<char>>>,
    auth_diff: Set<Seq<char>>,
    existing: Set<Seq<char>>,
) -> Set<Seq<char>> {
    Set::new(
        |id: Seq<char>|
            existing.contains(id) && (auth_diff.contains(id) || exists|k: (Seq<char>, Seq<char>)|
                conflicted.contains_key(k) && #[trigger] conflicted[k].contains(id)),
    )
}

/// The control events of the full conflicted set.
pub open spec fn control_events(events: Map<Seq<char>, EventView>, full: Set<Seq<char>>) -> Set<
    Seq<char>,
> {
    Set::new(|id: Seq<char>| full.contains(id) && is_power_event_spec(events[id]))
}

/// The control events and their auth chains within the full conflicted set, in reverse
/// topological order weighted by power.
pub open spec fn sorted_controls(events: Map<Seq<char>, EventView>, full: Set<Seq<char>>) -> Seq<
    Seq<char>,
> {
    choose|s: Seq<Seq<char>>|
        is_lexicographical_topological_order(
            control_graph(events, full, control_events(events, full)),
            power_keys(events),
            s,
        )
}

/// The events of `rest`, ascending by mainline depth, timestamp and id.
pub open spec fn sorted_by_mainline(
    events: Map<Seq<char>, EventView>,
    depths: Map<Seq<char>, usize>,
    rest: Set<Seq<char>>,
) -> Seq<Seq<char>> {
    choose|s: Seq<Seq<char>>| s.to_set() == rest && is_sorted_by(mainline_keys(events, depths), s)
}

/// The resolved power-levels event of a state, if it has one.
pub open spec fn power_tip(state: Map<(Seq<char>, Seq<char>), Seq<char>>) -> Option<Seq<char>> {
    if state.contains_key((room_power_levels_name(), ""@)) {
        Some(state[(room_power_levels_name(), ""@)])
    } else {
        None
    }
}

/// The events left after the control events, in mainline order; none where nothing is
/// left, without a look at the mainline. An event whose mainline depth cannot be told is
/// an error, that of the least such event by event id.
pub open spec fn sorted_remainder(
    events: Map<Seq<char>, EventView>,
    rest: Set<Seq<char>>,
    tip: Option<Seq<char>>,
) -> Result<Seq<Seq<char>>, ErrorView> {
    if rest == Set::<Seq<char>>::empty() {
        Ok(Seq::empty())
    } else {
        match mainline(events, tip) {
            Err(e) => Err(e),
            Ok(line) => match first_failure(events, mainline_depths(line), rest) {
                Some(e) => Err(e),
                None => Ok(sorted_by_mainline(events, mainline_depths(line), rest)),
            },
        }
    }
}

/// The resolution of a conflict: the control events are sorted and checked on top of the
/// unconflicted state, then the other events are sorted along the mainline of the
/// resolved power levels and checked on top of that, and at last the unconflicted state
/// is put back over everything.
pub open spec fn resolve_conflicts<
    T: Fn(&TimelineEventType, &String, Option<&String>, &String) -> Result<Vec<StateKey>, Error>,
    C: Fn(&RoomVersion, &Event, Option<&Event>, &StateMap<&Event>) -> Result<bool, Error>,
>(
    room_version: RoomVersionId,
    events: Map<Seq<char>, EventView>,
    auth_types: T,
    auth_check: C,
    clean: Map<(Seq<char>, Seq<char>), Seq<char>>,
    full: Set<Seq<char>>,
) -> Result<Map<(Seq<char>, Seq<char>), Seq<char>>, ErrorView> {
    let graph = control_graph(events, full, control_events(events, full));
    if !levels_known(events, graph) {
        Err(ErrorView::SerdeJson)
    } else {
        let controls = sorted_controls(events, full);
        if controls.to_set() != graph.dom() {
            Err(ErrorView::InvalidPdu(unsorted_reason()))
        } else {
            resolve_sorted(room_version, events, auth_types, auth_check, clean, full, controls)
        }
    }
}

/// The resolution of a conflict whose control events have been sorted.
pub open spec fn resolve_sorted<
    T: Fn(&TimelineEventType, &String, Option<&String>, &String) -> Result<Vec<StateKey>, Error>,
    C: Fn(&RoomVersion, &Event, Option<&Event>, &StateMap<&Event>) -> Result<bool, Error>,
>(
    room_version: RoomVersionId,
    events: Map<Seq<char>, EventView>,
    auth_types: T,
    auth_check: C,
    clean: Map<(Seq<char>, Seq<char>), Seq<char>>,
    full: Set<Seq<char>>,
    controls: Seq<Seq<char>>,
) -> Result<Map<(Seq<char>, Seq<char>), Seq<char>>, ErrorView> {
    match room_version_spec(room_version) {
        Err(e) => Err(e),
        Ok(rules) => match iterative_auth(rules, events, auth_types, auth_check, clean, controls) {
            Err(e) => Err(e),
            Ok(resolved_control) => match sorted_remainder(
                events,
                full.difference(controls.to_set()),
                power_tip(resolved_control),
            ) {
                Err(e) => Err(e),
                Ok(remainder) => match iterative_auth(
                    rules,
                    events,
                    auth_types,
                    auth_check,
                    resolved_control,
                    remainder,
                ) {
                    Err(e) => Err(e),
                    Ok(resolved) => Ok(resolved.union_prefer_right(clean)),
                },
            },
        },
    }
}

/// The state that the state sets resolve to: the unconflicted state itself where
/// nothing is in conflict, else the resolution of the conflict.
pub open spec fn resolve_spec<
    T: Fn(&TimelineEventType, &String, Option<&String>, &String) -> Result<Vec<StateKey>, Error>,
    C: Fn(&RoomVersion, &Event, Option<&Event>, &StateMap<&Event>) -> Result<bool, Error>,
>(
    room_version: RoomVersionId,
    state_sets: Seq<Map<(Seq<char>, Seq<char>), Seq<char>>>,
    auth_chain_sets: Seq<Set<Seq<char>>>,
    events: Map<Seq<char>, EventView>,
    existing: Set<Seq<char>>,
    auth_types: T,
    auth_check: C,
) -> Result<Map<(Seq<char>, Seq<char>), Seq<char>>, ErrorView> {
    let clean = unconflicted_state(state_sets);
    let conflicted = conflicted_state(state_sets);
    if conflicted.dom() == Set::<(Seq<char>, Seq<char>)>::empty() {
        Ok(clean)
    } else {
        resolve_conflicts(
            room_version,
            events,
            auth_types,
            auth_check,
            clean,
            full_conflicted_set(conflicted, auth_chain_diff(auth_chain_sets), existing),
        )
    }
}

/// Whether every entry of the resolved state is accounted for: the unconflicted state is
/// there as it was, and every other entry files an event of the full conflicted set
/// under that event's own type and state key.
pub open spec fn entries_accounted_for(
    state: Map<(Seq<char>, Seq<char>), Seq<char>>,
    clean: Map<(Seq<char>, Seq<char>), Seq<char>>,
    full: Set<Seq<char>>,
    events: Map<Seq<char>, EventView>,
) -> bool {
    &&& forall|k: (Seq<char>, Seq<char>)| #[trigger]
        clean.contains_key(k) ==> state.contains_key(k) && state[k] == clean[k]
    &&& forall|k: (Seq<char>, Seq<char>)| #[trigger]
        state.contains_key(k) ==> clean.contains_key(k) || (full.contains(state[k])
            && events.contains_key(state[k]) && events[state[k]].state_key_pair() == Some(k))
}

/// Whether some state set holds the event under the key.
pub open spec fn held(
    sets: Seq<Map<(Seq<char>, Seq<char>), Seq<char>>>,
    key: (Seq<char>, Seq<char>),
    id: Seq<char>,
) -> bool {
    exists|i: int| 0 <= i < sets.len() && (#[trigger] sets[i]).contains_key(key) && sets[i][key] == id
}

/// Whether the state sets hold every event that can be fetched under the event's own
/// type and state key.
pub open spec fn filed_under_own_keys(
    sets: Seq<Map<(Seq<char>, Seq<char>), Seq<char>>>,
    events: Map<Seq<char>, EventView>,
) -> bool {
    forall|key: (Seq<char>, Seq<char>), id: Seq<char>|
        #[trigger] held(sets, key, id) && events.contains_key(id)
            ==> events[id].state_key_pair() == Some(key)
}

/// Whether the state sets hold every event of the auth chain difference that exists.
pub open spec fn hold_the_difference(
    sets: Seq<Map<(Seq<char>, Seq<char>), Seq<char>>>,
    auth_diff: Set<Seq<char>>,
    existing: Set<Seq<char>>,
) -> bool {
    forall|id: Seq<char>|
        auth_diff.contains(id) && #[trigger] existing.contains(id) ==> exists|
            key: (Seq<char>, Seq<char>),
        | held(sets, key, id)
}

/// The keys that a resolution keeps where the rules accept every event: the keys of the
/// state sets, but for the conflicted keys for which no state set holds an event that
/// exists.
pub open spec fn expected_keys(
    sets: Seq<Map<(Seq<char>, Seq<char>), Seq<char>>>,
    existing: Set<Seq<char>>,
) -> Set<(Seq<char>, Seq<char>)> {
    Set::new(
        |key: (Seq<char>, Seq<char>)|
            occurs(sets, key) && (is_unconflicted(sets, key) || exists|id: Seq<char>|
                held(sets, key, id) && existing.contains(id)),
    )
}

/// Gathers the full conflicted set.
pub fn gather_full_conflicted(
    conflicting: &StateMap<Vec<String>>,
    auth_chain_diff: &EventIdSet,
    events: &EventStore,
) -> (full: EventIdSet)
    ensures
        full@ == full_conflicted_set(conflicting@, auth_chain_diff@, events.existing()),
        forall|id: Seq<char>| full@.contains(id) ==> events@.contains_key(id),
{
    let ghost wanted = full_conflicted_set(conflicting@, auth_chain_diff@, events.existing());
    let mut full: EventIdSet = VecSet::new();
    let n = auth_chain_diff.len();
    let mut i: usize = 0;
    while i < n
        invariant
            i <= n,
            n == auth_chain_diff.elements().len(),
            wanted == full_conflicted_set(conflicting@, auth_chain_diff@, events.existing()),
            full@.subset_of(wanted),
            forall|t: int|
                0 <= t < i && events.existing().contains(#[trigger] auth_chain_diff.elements()[t])
                    ==> full@.contains(auth_chain_diff.elements()[t]),
        decreases n - i,
    {
        let id = auth_chain_diff.get(i);
        if events.event_exists(id) {
            assert(auth_chain_diff@.contains(auth_chain_diff.elements()[i as int]));
            full.insert(id.clone());
        }
        i += 1;
    }
    let m = conflicting.len();
    proof {
        lemma_entries_map(conflicting.entries());
    }
    let mut j: usize = 0;
    while j < m
        invariant
            j <= m,
            m == conflicting.entries().len(),
            n == auth_chain_diff.elements().len(),
            entry_keys(conflicting.entries()).no_duplicates(),
            wanted == full_conflicted_set(conflicting@, auth_chain_diff@, events.existing()),
            full@.subset_of(wanted),
            forall|t: int|
                0 <= t < n && events.existing().contains(#[trigger] auth_chain_diff.elements()[t])
                    ==> full@.contains(auth_chain_diff.elements()[t]),
            forall|t: int, id: Seq<char>|
                0 <= t < j && events.existing().contains(id) && #[trigger] conflicting.entries()[t].1.contains(
                    id,
                ) ==> full@.contains(id),
        decreases m - j,
    {
        let ids = conflicting.value_at(j);
        let ghost key = conflicting.entries()[j as int].0;
        let ghost listed = conflicting.entries()[j as int].1;
        proof {
            lemma_entries_map(conflicting.entries());
            assert(conflicting@.contains_key(key) && conflicting@[key] == listed);
            assert(ids.deep_view() == listed);
        }
        let mut k: usize = 0;
        while k < ids.len()
            invariant
                k <= ids@.len(),
                ids.deep_view() == listed,
                conflicting@.contains_key(key) && conflicting@[key] == listed,
                wanted == full_conflicted_set(conflicting@, auth_chain_diff@, events.existing()),
                full@.subset_of(wanted),
                forall|t: int|
                    0 <= t < n && events.existing().contains(#[trigger] auth_chain_diff.elements()[t])
                        ==> full@.contains(auth_chain_diff.elements()[t]),
                forall|t: int, id: Seq<char>|
                    0 <= t < j && events.existing().contains(id)
                        && #[trigger] conflicting.entries()[t].1.contains(id) ==> full@.contains(
                        id,
                    ),
                forall|t: int|
                    0 <= t < k && events.existing().contains(#[trigger] listed[t]) ==> full@.contains(
                        listed[t],
                    ),
            decreases ids@.len() - k,
        {
            let id = &ids[k];
            assert(listed[k as int] == id@);
            if events.event_exists(id) {
                assert(conflicting@[key].contains(id@));
                full.insert(id.clone());
            }
            k += 1;
        }
        proof {
            assert forall|id: Seq<char>|
                events.existing().contains(id) && #[trigger] conflicting.entries()[j as int].1.contains(
                    id,
                ) implies full@.contains(id) by {
                let t = choose|t: int| 0 <= t < listed.len() && listed[t] == id;
                assert(events.existing().contains(listed[t]));
            }
        }
        j += 1;
    }
    proof {
        assert forall|id: Seq<char>| wanted.contains(id) implies full@.contains(id) by {
            if auth_chain_diff@.contains(id) {
                let t = choose|t: int|
                    0 <= t < auth_chain_diff.elements().len() && auth_chain_diff.elements()[t]
                        == id;
                assert(events.existing().contains(auth_chain_diff.elements()[t]));
            } else {
                let key = choose|key: (Seq<char>, Seq<char>)|
                    conflicting@.contains_key(key) && #[trigger] conflicting@[key].contains(id);
                lemma_entries_map(conflicting.entries());
                let t = choose|t: int|
                    0 <= t < conflicting.entries().len() && conflicting.entries()[t].0 == key
                        && conflicting.entries()[t].1 == conflicting@[key];
                assert(conflicting.entries()[t].1.contains(id));
            }
        }
        assert(full@ =~= wanted);
        events.lemma_existing_can_be_fetched();
    }
    full
}

/// Picks the control events out of the full conflicted set.
pub fn pick_control_events(all_conflicted: &EventIdSet, events: &EventStore) -> (controls: Vec<
    String,
>)
    ensures
        controls.deep_view().to_set() == Set::new(
            |id: Seq<char>|
                all_conflicted@.contains(id) && events@.contains_key(id) && is_power_event_spec(
                    events@[id],
                ),
        ),
{
    let ghost wanted = Set::new(
        |id: Seq<char>|
            all_conflicted@.contains(id) && events@.contains_key(id) && is_power_event_spec(
                events@[id],
            ),
    );
    let mut controls: Vec<String> = Vec::new();
    let n = all_conflicted.len();
    let mut i: usize = 0;
    while i < n
        invariant
            i <= n,
            n == all_conflicted.elements().len(),
            wanted == Set::new(
                |id: Seq<char>|
                    all_conflicted@.contains(id) && events@.contains_key(id) && is_power_event_spec(
                        events@[id],
                    ),
            ),
            controls.deep_view().to_set().subset_of(wanted),
            forall|t: int|
                0 <= t < i && wanted.contains(#[trigger] all_conflicted.elements()[t])
                    ==> controls.deep_view().to_set().contains(all_conflicted.elements()[t]),
        decreases n - i,
    {
        let id = all_conflicted.get(i);
        assert(all_conflicted@.contains(all_conflicted.elements()[i as int]));
        if is_power_event_id(id, events) {
            let ghost before = controls.deep_view();
            controls.push(id.clone());
            proof {
                assert(controls.deep_view() =~= before.push(id@));
                before.lemma_push_to_set_commute(id@);
            }
        }
        i += 1;
    }
    proof {
        assert forall|id: Seq<char>| wanted.contains(id) implies controls.deep_view().to_set().contains(
            id,
        ) by {
            let t = choose|t: int|
                0 <= t < all_conflicted.elements().len() && all_conflicted.elements()[t] == id;
            assert(wanted.contains(all_conflicted.elements()[t]));
        }
        assert(controls.deep_view().to_set() =~= wanted);
    }
    controls
}

/// Whether a list of ids holds an id.
pub fn list_contains(list: &Vec<String>, id: &String) -> (b: bool)
    ensures
        b == list.deep_view().contains(id@),
{
    let mut i: usize = 0;
    while i < list.len()
        invariant
            i <= list@.len(),
            forall|t: int| 0 <= t < i ==> list.deep_view()[t] != id@,
        decreases list@.len() - i,
    {
        if list[i] == *id {
            assert(list.deep_view()[i as int] == id@);
            return true;
        }
        i += 1;
    }
    false
}

/// The events of the full conflicted set that are not among the sorted control events:
/// neither the control events that passed the check nor, more importantly, those that
/// failed it.
pub fn events_left(all_conflicted: &EventIdSet, sorted_control_levels: &Vec<String>) -> (left: Vec<
    String,
>)
    ensures
        left.deep_view().to_set() == all_conflicted@.difference(
            sorted_control_levels.deep_view().to_set(),
        ),
{
    let ghost wanted = all_conflicted@.difference(sorted_control_levels.deep_view().to_set());
    let mut left: Vec<String> = Vec::new();
    let n = all_conflicted.len();
    let mut i: usize = 0;
    while i < n
        invariant
            i <= n,
            n == all_conflicted.elements().len(),
            wanted == all_conflicted@.difference(sorted_control_levels.deep_view().to_set()),
            left.deep_view().to_set().subset_of(wanted),
            forall|t: int|
                0 <= t < i && wanted.contains(#[trigger] all_conflicted.elements()[t])
                    ==> left.deep_view().to_set().contains(all_conflicted.elements()[t]),
        decreases n - i,
    {
        let id = all_conflicted.get(i);
        assert(all_conflicted@.contains(all_conflicted.elements()[i as int]));
        if !list_contains(sorted_control_levels, id) {
            let ghost before = left.deep_view();
            left.push(id.clone());
            proof {
                assert(left.deep_view() =~= before.push(id@));
                before.lemma_push_to_set_commute(id@);
            }
        }
        i += 1;
    }
    proof {
        assert forall|id: Seq<char>| wanted.contains(id) implies left.deep_view().to_set().contains(
            id,
        ) by {
            let t = choose|t: int|
                0 <= t < all_conflicted.elements().len() && all_conflicted.elements()[t] == id;
            assert(wanted.contains(all_conflicted.elements()[t]));
        }
        assert(left.deep_view().to_set() =~= wanted);
    }
    left
}

/// A copy of a state map.
pub fn copy_state(state: &StateMap<String>) -> (copy: StateMap<String>)
    ensures
        copy@ == state@,
{
    let mut copy: StateMap<String> = VecMap::new();
    let n = state.len();
    proof {
        lemma_entries_map(state.entries());
    }
    let mut i: usize = 0;
    while i < n
        invariant
            i <= n,
            n == state.entries().len(),
            entry_keys(state.entries()).no_duplicates(),
            forall|k: (Seq<char>, Seq<char>)| #[trigger]
                copy@.contains_key(k) ==> state@.contains_key(k) && copy@[k] == state@[k],
            forall|t: int| 0 <= t < i ==> copy@.contains_key(#[trigger] state.entries()[t].0),
        decreases n - i,
    {
        proof {
            lemma_entries_map(state.entries());
        }
        copy.insert(state.key_at(i).key_clone(), state.value_at(i).clone());
        i += 1;
    }
    proof {
        lemma_entries_map(state.entries());
        assert forall|k: (Seq<char>, Seq<char>)| state@.contains_key(k) implies copy@.contains_key(
            k,
        ) by {
            let t = choose|t: int| 0 <= t < n && state.entries()[t].0 == k;
            assert(copy@.contains_key(state.entries()[t].0));
        }
        assert(copy@ =~= state@);
    }
    copy
}

/// Puts the entries of `over` into `state`, over what is there.
pub fn extend_state(state: &mut StateMap<String>, over: &StateMap<String>)
    ensures
        final(state)@ == old(state)@.union_prefer_right(over@),
{
    let ghost start = state@;
    let n = over.len();
    proof {
        lemma_entries_map(over.entries());
    }
    let mut i: usize = 0;
    while i < n
        invariant
            i <= n,
            n == over.entries().len(),
            entry_keys(over.entries()).no_duplicates(),
            forall|k: (Seq<char>, Seq<char>)| #[trigger]
                state@.contains_key(k) ==> start.contains_key(k) || over@.contains_key(k),
            forall|k: (Seq<char>, Seq<char>)| #[trigger]
                start.contains_key(k) ==> state@.contains_key(k),
            forall|k: (Seq<char>, Seq<char>)| #[trigger]
                state@.contains_key(k) ==> state@[k] == (if over@.contains_key(k)
                    && exists|t: int| 0 <= t < i && over.entries()[t].0 == k {
                    over@[k]
                } else {
                    start[k]
                }),
            forall|t: int| 0 <= t < i ==> state@.contains_key(#[trigger] over.entries()[t].0),
        decreases n - i,
    {
        let ghost before = state@;
        let ghost key = over.entries()[i as int].0;
        proof {
            lemma_entries_map(over.entries());
        }
        state.insert(over.key_at(i).key_clone(), over.value_at(i).clone());
        proof {
            assert forall|k: (Seq<char>, Seq<char>)| #[trigger] state@.contains_key(k) implies state@[k]
                == (if over@.contains_key(k) && exists|t: int|
                0 <= t < i + 1 && over.entries()[t].0 == k {
                over@[k]
            } else {
                start[k]
            }) by {
                if k == key {
                    assert(over.entries()[i as int].0 == k);
                } else {
                    assert(before.contains_key(k));
                    if over@.contains_key(k) && exists|t: int|
                        0 <= t < i + 1 && over.entries()[t].0 == k {
                        let t = choose|t: int| 0 <= t < i + 1 && over.entries()[t].0 == k;
                        assert(t < i);
                    }
                }
            }
        }
        i += 1;
    }
    proof {
        lemma_entries_map(over.entries());
        let wanted = start.union_prefer_right(over@);
        assert forall|k: (Seq<char>, Seq<char>)| wanted.contains_key(k) implies state@.contains_key(
            k,
        ) by {
            if over@.contains_key(k) {
                let t = choose|t: int| 0 <= t < n && over.entries()[t].0 == k;
                assert(state@.contains_key(over.entries()[t].0));
            }
        }
        assert forall|k: (Seq<char>, Seq<char>)| state@.contains_key(k) implies state@[k]
            == wanted[k] by {
            if over@.contains_key(k) {
                let t = choose|t: int| 0 <= t < n && over.entries()[t].0 == k;
            }
        }
        assert(state@ =~= wanted);
    }
}

/// Every node of the control graph is a known event, the full conflicted set holding
/// known events only.
pub proof fn lemma_control_graph_is_known(
    events: Map<Seq<char>, EventView>,
    full: Set<Seq<char>>,
    seeds: Set<Seq<char>>,
    x: Seq<char>,
)
    requires
        full.subset_of(events.dom()),
        seeds.subset_of(full),
        control_graph(events, full, seeds).contains_key(x),
    ensures
        full.contains(x),
        events.contains_key(x),
{
    let s = choose|s: Seq<char>| seeds.contains(s) && reachable(events, full, s, x);
    let path = choose|path: Seq<Seq<char>>|
        is_auth_path(events, full, path) && #[trigger] path[0] == s && path.last() == x;
    if path.len() > 1 {
        let i = path.len() - 2;
        assert(in_diff_parents(events, full, path[i]).contains(path[i + 1]));
    }
}

/// The keys of the resolved state where every event of the full conflicted set has been
/// filed under its own key.
proof fn lemma_resolved_keys(
    sets: Seq<Map<(Seq<char>, Seq<char>), Seq<char>>>,
    auth_diff: Set<Seq<char>>,
    existing: Set<Seq<char>>,
    events: Map<Seq<char>, EventView>,
    checked: Map<(Seq<char>, Seq<char>), Seq<char>>,
    state: Map<(Seq<char>, Seq<char>), Seq<char>>,
)
    requires
        existing.subset_of(events.dom()),
        filed_under_own_keys(sets, events),
        hold_the_difference(sets, auth_diff, existing),
        state == checked.union_prefer_right(unconflicted_state(sets)),
        entries_accounted_for(
            state,
            unconflicted_state(sets),
            full_conflicted_set(conflicted_state(sets), auth_diff, existing),
            events,
        ),
        forall|id: Seq<char>| #[trigger]
            full_conflicted_set(conflicted_state(sets), auth_diff, existing).contains(id)
                ==> events[id].state_key_pair() is Some && checked.contains_key(
                events[id].state_key_pair()->Some_0,
            ),
    ensures
        state.dom() == expected_keys(sets, existing),
{
    let clean = unconflicted_state(sets);
    let conflicted = conflicted_state(sets);
    let full = full_conflicted_set(conflicted, auth_diff, existing);
    assert forall|k: (Seq<char>, Seq<char>)| state.contains_key(k) implies expected_keys(
        sets,
        existing,
    ).contains(k) by {
        if clean.contains_key(k) {
            assert(sets[0].contains_key(k));
        } else {
            let id = state[k];
            assert(full.contains(id));
            assert(exists|key: (Seq<char>, Seq<char>)| held(sets, key, id)) by {
                if !auth_diff.contains(id) {
                    let key = choose|key: (Seq<char>, Seq<char>)|
                        conflicted.contains_key(key) && #[trigger] conflicted[key].contains(id);
                    lemma_present_values(sets, key, id);
                    assert(held(sets, key, id));
                }
            }
            let key = choose|key: (Seq<char>, Seq<char>)| held(sets, key, id);
            assert(held(sets, key, id) && events.contains_key(id));
            assert(key == k);
            let i = choose|i: int|
                0 <= i < sets.len() && (#[trigger] sets[i]).contains_key(k) && sets[i][k] == id;
            assert(occurs(sets, k));
        }
    }
    assert forall|k: (Seq<char>, Seq<char>)| expected_keys(sets, existing).contains(
        k,
    ) implies state.contains_key(k) by {
        if !is_unconflicted(sets, k) {
            let id = choose|id: Seq<char>| held(sets, k, id) && existing.contains(id);
            lemma_present_values(sets, k, id);
            assert(conflicted.contains_key(k) && conflicted[k].contains(id));
            assert(full.contains(id));
            assert(held(sets, k, id) && events.contains_key(id));
            assert(events[id].state_key_pair() == Some(k));
            assert(checked.contains_key(k));
        }
    }
    assert(state.dom() =~= expected_keys(sets, existing));
}

/// Resolve sets of state events as they come in.
///
/// ## Arguments
///
/// * `state_sets` - The incoming state to resolve. Each `StateMap` represents a possible
///   fork in the state of a room.
///
/// * `auth_chain_sets` - The full recursive set of `auth_events` for each event in the
///   `state_sets`.
///
/// * `events` - The events that this server can fetch, each with the answer whether it
///   exists. Of the conflicted events only those that exist are honored.
///
/// * `auth_types_for_event`, `auth_check` - The authorization rules.
///
/// ## Invariants
///
/// The caller of `resolve` must ensure that all the events are from the same room.
pub fn resolve<
    T: Fn(&TimelineEventType, &String, Option<&String>, &String) -> Result<Vec<StateKey>, Error>,
    C: Fn(&RoomVersion, &Event, Option<&Event>, &StateMap<&Event>) -> Result<bool, Error>,
>(
    room_version: &RoomVersionId,
    state_sets: &Vec<StateMap<String>>,
    auth_chain_sets: &Vec<EventIdSet>,
    events: &EventStore,
    auth_types_for_event: &T,
    auth_check: &C,
) -> (r: Result<StateMap<String>, Error>)
    requires
        auth_types_is_function(*auth_types_for_event),
        auth_check_is_function(*auth_check),
    ensures
        match r {
            Ok(state) => resolve_spec(
                *room_version,
                state_sets.deep_view(),
                auth_chain_sets.deep_view(),
                events@,
                events.existing(),
                *auth_types_for_event,
                *auth_check,
            ) == Ok::<Map<(Seq<char>, Seq<char>), Seq<char>>, ErrorView>(state@),
            Err(e) => resolve_spec(
                *room_version,
                state_sets.deep_view(),
                auth_chain_sets.deep_view(),
                events@,
                events.existing(),
                *auth_types_for_event,
                *auth_check,
            ) == Err::<Map<(Seq<char>, Seq<char>), Seq<char>>, ErrorView>(e@),
        },
        r matches Ok(state) ==> entries_accounted_for(
            state@,
            unconflicted_state(state_sets.deep_view()),
            full_conflicted_set(
                conflicted_state(state_sets.deep_view()),
                auth_chain_diff(auth_chain_sets.deep_view()),
                events.existing(),
            ),
            events@,
        ),
        r matches Ok(state) ==> (filed_under_own_keys(state_sets.deep_view(), events@)
            && hold_the_difference(
            state_sets.deep_view(),
            auth_chain_diff(auth_chain_sets.deep_view()),
            events.existing(),
        ) && accepts_every(
            *auth_check,
            full_conflicted_set(
                conflicted_state(state_sets.deep_view()),
                auth_chain_diff(auth_chain_sets.deep_view()),
                events.existing(),
            ),
        ) ==> state@.dom() == expected_keys(state_sets.deep_view(), events.existing())),
{
    // Split non-conflicting and conflicting state.
    let (clean, conflicting) = separate(state_sets);
    if conflicting.is_empty() {
        proof {
            let sets = state_sets.deep_view();
            assert(conflicting@.dom() =~= Set::<(Seq<char>, Seq<char>)>::empty());
            assert forall|k: (Seq<char>, Seq<char>)| expected_keys(
                sets,
                events.existing(),
            ).contains(k) == clean@.contains_key(k) by {
                if occurs(sets, k) && !is_unconflicted(sets, k) {
                    assert(conflicting@.contains_key(k));
                }
                if is_unconflicted(sets, k) {
                    assert(sets[0].contains_key(k));
                }
            }
            assert(clean@.dom() =~= expected_keys(sets, events.existing()));
        }
        return Ok(clean);
    }
    proof {
        if conflicting@.dom() == Set::<(Seq<char>, Seq<char>)>::empty() {
            assert(conflicting@ =~= Map::<(Seq<char>, Seq<char>), Seq<Seq<char>>>::empty());
        }
    }
    let auth_chain_diff = get_auth_chain_diff(auth_chain_sets);
    // The full conflicted set holds each event once; events that cannot be verified are
    // not honored.
    let all_conflicted = gather_full_conflicted(&conflicting, &auth_chain_diff, events);
    let ghost full = all_conflicted@;
    // Get only the control events: those with the empty state key, and bans and kicks.
    let control_events_list = pick_control_events(&all_conflicted, events);
    let ghost seeds = control_events(events@, full);
    let ghost graph = control_graph(events@, full, seeds);
    proof {
        assert(control_events_list.deep_view().to_set() =~= seeds);
        assert(full.subset_of(events@.dom()));
        assert(seeds.subset_of(full));
        assert forall|x: Seq<char>| graph.contains_key(x) implies events@.contains_key(x) by {
            lemma_control_graph_is_known(events@, full, seeds, x);
        }
    }
    // Sort the control events based on power level, timestamp and event id, and on the
    // edges between them.
    let sorted_control_levels = match reverse_topological_power_sort(
        control_events_list,
        &all_conflicted,
        events,
    ) {
        Err(e) => {
            proof {
                if levels_known(events@, graph) {
                    let s = choose|s: Seq<Seq<char>>| #[trigger]
                        is_lexicographical_topological_order(graph, power_keys(events@), s)
                            && s.to_set() != graph.dom();
                    let chosen = sorted_controls(events@, full);
                    lemma_order_is_unique(graph, power_keys(events@), power_keys(events@), chosen, s);
                }
            }
            return Err(e);
        },
        Ok(sorted) => sorted,
    };
    let ghost controls = sorted_control_levels.deep_view();
    proof {
        let chosen = sorted_controls(events@, full);
        assert(is_lexicographical_topological_order(graph, power_keys(events@), controls));
        lemma_order_is_unique(graph, power_keys(events@), power_keys(events@), chosen, controls);
        lemma_sorted_prefix_nodes(graph, power_keys(events@), controls);
        assert forall|i: int| 0 <= i < controls.len() implies full.contains(
            #[trigger] controls[i],
        ) by {
            lemma_control_graph_is_known(events@, full, seeds, controls[i]);
        }
    }
    let rules = match RoomVersion::new(room_version) {
        Err(e) => {
            return Err(e);
        },
        Ok(rules) => rules,
    };
    // Sequentially auth check each control event.
    let resolved_control = match iterative_auth_check(
        &rules,
        &sorted_control_levels,
        copy_state(&clean),
        events,
        auth_types_for_event,
        auth_check,
    ) {
        Err(e) => {
            return Err(e);
        },
        Ok(state) => state,
    };
    let ghost control_state = resolved_control@;
    proof {
        lemma_iterative_auth_entries(
            rules,
            events@,
            *auth_types_for_event,
            *auth_check,
            clean@,
            controls,
        );
    }
    // The control events have been resolved; the remaining events are sorted using the
    // mainline of the resolved power level.
    let events_to_resolve = events_left(&all_conflicted, &sorted_control_levels);
    let ghost rest = full.difference(controls.to_set());
    // This is the power-levels event that the mainline starts from.
    let power_key: StateKey = (StateEventType::room_power_levels(), "".to_owned());
    let power_event = match resolved_control.get(&power_key) {
        Some(id) => Some(id.clone()),
        None => None,
    };
    assert(option_view(power_event) == power_tip(resolved_control@));
    let ghost left = events_to_resolve.deep_view();
    proof {
        if left.len() == 0 {
            assert(rest =~= Set::<Seq<char>>::empty());
        } else {
            assert(left.to_set().contains(left[0]));
            assert(rest.contains(left[0]));
        }
    }
    let sorted_left_events = match mainline_sort(&events_to_resolve, power_event, events) {
        Err(e) => {
            proof {
                if mainline(events@, power_tip(resolved_control@)) is Ok {
                    let depths = mainline_depths(
                        mainline(events@, power_tip(resolved_control@))->Ok_0,
                    );
                    let id = choose|id: Seq<char>|
                        #[trigger] is_first_failure(events@, depths, rest, id) && sort_failure(
                            events@,
                            depths,
                            id,
                        ) == Some(e@);
                    lemma_first_failure(events@, depths, rest, id);
                }
            }
            return Err(e);
        },
        Ok(sorted) => sorted,
    };
    proof {
        let remainder = sorted_left_events.deep_view();
        if left.len() == 0 {
            assert(remainder =~= Seq::empty());
        } else {
            let line = mainline(events@, power_tip(resolved_control@))->Ok_0;
            let depths = mainline_depths(line);
            let chosen = sorted_by_mainline(events@, depths, rest);
            assert(remainder.to_set() == rest && is_sorted_by(
                mainline_keys(events@, depths),
                remainder,
            ));
            lemma_sorted_is_unique(mainline_keys(events@, depths), chosen, remainder);
        }
    }
    let ghost remainder = sorted_left_events.deep_view();
    proof {
        assert forall|i: int| 0 <= i < remainder.len() implies full.contains(
            #[trigger] remainder[i],
        ) by {
            assert(remainder.to_set().contains(remainder[i]));
            if left.len() > 0 {
                assert(rest.contains(remainder[i]));
            }
        }
        lemma_iterative_auth_entries(
            rules,
            events@,
            *auth_types_for_event,
            *auth_check,
            control_state,
            remainder,
        );
    }
    // The control events are part of the final resolved state.
    let mut resolved_state = match iterative_auth_check(
        &rules,
        &sorted_left_events,
        resolved_control,
        events,
        auth_types_for_event,
        auth_check,
    ) {
        Err(e) => {
            return Err(e);
        },
        Ok(state) => state,
    };
    let ghost checked = resolved_state@;
    // Add the unconflicted state to the resolved state: it takes priority.
    extend_state(&mut resolved_state, &clean);
    proof {
        assert forall|k: (Seq<char>, Seq<char>)| #[trigger]
            resolved_state@.contains_key(k) implies clean@.contains_key(k) || (full.contains(
            resolved_state@[k],
        ) && events@.contains_key(resolved_state@[k])
            && events@[resolved_state@[k]].state_key_pair() == Some(k)) by {
            if !clean@.contains_key(k) {
                assert(checked.contains_key(k));
                if control_state.contains_key(k) && checked[k] == control_state[k] {
                    assert(!(clean@.contains_key(k)));
                    let i = choose|i: int|
                        0 <= i < controls.len() && events@.contains_key(#[trigger] controls[i])
                            && events@[controls[i]].state_key_pair() == Some(k)
                            && control_state[k] == controls[i];
                    assert(full.contains(controls[i]));
                } else {
                    let i = choose|i: int|
                        0 <= i < remainder.len() && events@.contains_key(#[trigger] remainder[i])
                            && events@[remainder[i]].state_key_pair() == Some(k) && checked[k]
                            == remainder[i];
                    assert(full.contains(remainder[i]));
                }
            }
        }
    }
    proof {
        let sets = state_sets.deep_view();
        if filed_under_own_keys(sets, events@) && hold_the_difference(
            sets,
            auth_chain_diff@,
            events.existing(),
        ) && accepts_every(*auth_check, full) {
            assert(accepts_every(*auth_check, controls.to_set()));
            assert(accepts_every(*auth_check, remainder.to_set()));
            assert(files_every(control_state, clean@, events@, controls));
            assert(files_every(checked, control_state, events@, remainder));
            assert forall|id: Seq<char>| #[trigger] full.contains(id) implies events@[id].state_key_pair() is Some
                && checked.contains_key(events@[id].state_key_pair()->Some_0) by {
                if controls.to_set().contains(id) {
                    let i = choose|i: int| 0 <= i < controls.len() && controls[i] == id;
                    assert(control_state.contains_key(events@[controls[i]].state_key_pair()->Some_0));
                } else {
                    assert(rest.contains(id));
                    assert(remainder.to_set().contains(id));
                    let i = choose|i: int| 0 <= i < remainder.len() && remainder[i] == id;
                    assert(checked.contains_key(events@[remainder[i]].state_key_pair()->Some_0));
                }
            }
            events.lemma_existing_can_be_fetched();
            lemma_resolved_keys(
                sets,
                auth_chain_diff@,
                events.existing(),
                events@,
                checked,
                resolved_state@,
            );
        }
    }
    Ok(resolved_state)
}

} // verus!
