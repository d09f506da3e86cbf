//! What holds of state resolution whatever the state sets, the events and the rules are.

use vstd::prelude::*;
use crate::auth_chain::{auth_chain_diff, in_every_chain, in_some_chain};
use crate::error::{Error, ErrorView};
use crate::event::{Event, EventView, StateKey, StateMap, TimelineEventType};
use crate::order::{id_lt, key_lt};
use crate::resolve::{full_conflicted_set, resolve_spec};
use crate::room_version::{RoomVersion, RoomVersionId};
use crate::separate::{
    conflicted_state, is_unconflicted, lemma_present_values, occurs, present_values,
    unconflicted_state,
};

verus! {

/// A sequence and a shuffle of it hold the same elements.
pub proof fn lemma_shuffled_holds_the_same<A>(s1: Seq<A>, s2: Seq<A>)
    requires
        s1.to_multiset() == s2.to_multiset(),
    ensures
        forall|a: A| s1.contains(a) <==> s2.contains(a),
{
    s1.to_multiset_ensures();
    s2.to_multiset_ensures();
    assert forall|a: A| s1.contains(a) == s2.contains(a) by {
        let n1 = s1.to_multiset().count(a);
        let n2 = s2.to_multiset().count(a);
        assert(n1 == n2);
        assert(s1.contains(a) <==> s1.to_multiset().count(a) > 0);
        assert(s2.contains(a) <==> s2.to_multiset().count(a) > 0);
    }
}

/// With nothing in conflict, the resolved state is exactly the unconflicted state, and
/// no event is looked at: the events and the rules make no difference.
pub proof fn lemma_no_conflict_resolves_to_unconflicted<
    T: Fn(&TimelineEventType, &String, Option<&String>, &String) -> Result<Vec<StateKey>, Error>,
    C: Fn(&RoomVersion, &Event, Option<&Event>, &StateMap<&Event>) -> Result<bool, Error>,
>(
    room_version: RoomVersionId,
    state_sets: Seq<Map<(Seq<char>, Seq<char>), Seq<char>>>,
    auth_chain_sets: Seq<Set<Seq<char>>>,
    events: Map<Seq<char>, EventView>,
    existing: Set<Seq<char>>,
    auth_types: T,
    auth_check: C,
)
    requires
        conflicted_state(state_sets).dom() == Set::<(Seq<char>, Seq<char>)>::empty(),
    ensures
        resolve_spec(
            room_version,
            state_sets,
            auth_chain_sets,
            events,
            existing,
            auth_types,
            auth_check,
        )
            == Ok::<Map<(Seq<char>, Seq<char>), Seq<char>>, ErrorView>(
            unconflicted_state(state_sets),
        ),
{
}

/// A single state set resolves to itself.
pub proof fn lemma_single_state_set_resolves_to_itself<
    T: Fn(&TimelineEventType, &String, Option<&String>, &String) -> Result<Vec<StateKey>, Error>,
    C: Fn(&RoomVersion, &Event, Option<&Event>, &StateMap<&Event>) -> Result<bool, Error>,
>(
    room_version: RoomVersionId,
    state_set: Map<(Seq<char>, Seq<char>), Seq<char>>,
    auth_chain_sets: Seq<Set<Seq<char>>>,
    events: Map<Seq<char>, EventView>,
    existing: Set<Seq<char>>,
    auth_types: T,
    auth_check: C,
)
    ensures
        resolve_spec(
            room_version,
            seq![state_set],
            auth_chain_sets,
            events,
            existing,
            auth_types,
            auth_check,
        ) == Ok::<Map<(Seq<char>, Seq<char>), Seq<char>>, ErrorView>(state_set),
{
    let sets = seq![state_set];
    assert(sets[0] == state_set);
    assert forall|k: (Seq<char>, Seq<char>)| is_unconflicted(sets, k) == state_set.contains_key(
        k,
    ) by {
        if is_unconflicted(sets, k) {
            assert(sets[0].contains_key(k));
        }
    }
    assert(unconflicted_state(sets) =~= state_set);
    assert forall|k: (Seq<char>, Seq<char>)| !conflicted_state(sets).dom().contains(k) by {
        if occurs(sets, k) {
            let i = choose|i: int| 0 <= i < sets.len() && (#[trigger] sets[i]).contains_key(k);
            assert(sets[i] == state_set);
        }
    }
    assert(conflicted_state(sets).dom() =~= Set::<(Seq<char>, Seq<char>)>::empty());
}

/// Resolution is idempotent: a resolved state, given as the only state set, resolves to
/// itself.
pub proof fn lemma_resolve_is_idempotent<
    T: Fn(&TimelineEventType, &String, Option<&String>, &String) -> Result<Vec<StateKey>, Error>,
    C: Fn(&RoomVersion, &Event, Option<&Event>, &StateMap<&Event>) -> Result<bool, Error>,
>(
    room_version: RoomVersionId,
    state_sets: Seq<Map<(Seq<char>, Seq<char>), Seq<char>>>,
    auth_chain_sets: Seq<Set<Seq<char>>>,
    again_auth_chain_sets: Seq<Set<Seq<char>>>,
    events: Map<Seq<char>, EventView>,
    existing: Set<Seq<char>>,
    auth_types: T,
    auth_check: C,
    resolved: Map<(Seq<char>, Seq<char>), Seq<char>>,
)
    requires
        resolve_spec(
            room_version,
            state_sets,
            auth_chain_sets,
            events,
            existing,
            auth_types,
            auth_check,
        )
            == Ok::<Map<(Seq<char>, Seq<char>), Seq<char>>, ErrorView>(resolved),
    ensures
        resolve_spec(
            room_version,
            seq![resolved],
            again_auth_chain_sets,
            events,
            existing,
            auth_types,
            auth_check,
        ) == resolve_spec(
            room_version,
            state_sets,
            auth_chain_sets,
            events,
            existing,
            auth_types,
            auth_check,
        ),
{
    lemma_single_state_set_resolves_to_itself(
        room_version,
        resolved,
        again_auth_chain_sets,
        events,
        existing,
        auth_types,
        auth_check,
    );
}

/// The unconflicted state is in every resolved state as it was, whatever became of the
/// control events.
pub proof fn lemma_unconflicted_state_survives<
    T: Fn(&TimelineEventType, &String, Option<&String>, &String) -> Result<Vec<StateKey>, Error>,
    C: Fn(&RoomVersion, &Event, Option<&Event>, &StateMap<&Event>) -> Result<bool, Error>,
>(
    room_version: RoomVersionId,
    state_sets: Seq<Map<(Seq<char>, Seq<char>), Seq<char>>>,
    auth_chain_sets: Seq<Set<Seq<char>>>,
    events: Map<Seq<char>, EventView>,
    existing: Set<Seq<char>>,
    auth_types: T,
    auth_check: C,
    key: (Seq<char>, Seq<char>),
)
    requires
        resolve_spec(
            room_version,
            state_sets,
            auth_chain_sets,
            events,
            existing,
            auth_types,
            auth_check,
        )
            is Ok,
        unconflicted_state(state_sets).contains_key(key),
    ensures
        resolve_spec(
            room_version,
            state_sets,
            auth_chain_sets,
            events,
            existing,
            auth_types,
            auth_check,
        )->Ok_0.contains_key(key),
        resolve_spec(
            room_version,
            state_sets,
            auth_chain_sets,
            events,
            existing,
            auth_types,
            auth_check,
        )->Ok_0[key] == unconflicted_state(state_sets)[key],
{
}

/// The auth chain difference does not depend on the order of the auth chains.
pub proof fn lemma_auth_chain_diff_of_shuffled(
    chains1: Seq<Set<Seq<char>>>,
    chains2: Seq<Set<Seq<char>>>,
)
    requires
        chains1.to_multiset() == chains2.to_multiset(),
    ensures
        auth_chain_diff(chains1) == auth_chain_diff(chains2),
{
    lemma_shuffled_holds_the_same(chains1, chains2);
    assert forall|id: Seq<char>| auth_chain_diff(chains1).contains(id) == auth_chain_diff(
        chains2,
    ).contains(id) by {
        lemma_chain_membership(chains1, chains2, id);
        lemma_chain_membership(chains2, chains1, id);
    }
    assert(auth_chain_diff(chains1) =~= auth_chain_diff(chains2));
}

proof fn lemma_chain_membership(
    chains1: Seq<Set<Seq<char>>>,
    chains2: Seq<Set<Seq<char>>>,
    id: Seq<char>,
)
    requires
        forall|c: Set<Seq<char>>| chains1.contains(c) <==> chains2.contains(c),
    ensures
        in_some_chain(chains1, id) ==> in_some_chain(chains2, id),
        in_every_chain(chains2, id) ==> in_every_chain(chains1, id),
{
    if in_some_chain(chains1, id) {
        let i = choose|i: int| 0 <= i < chains1.len() && (#[trigger] chains1[i]).contains(id);
        assert(chains1.contains(chains1[i]));
        let j = choose|j: int| 0 <= j < chains2.len() && chains2[j] == chains1[i];
        assert(chains2[j].contains(id));
    }
    if in_every_chain(chains2, id) {
        assert forall|i: int| 0 <= i < chains1.len() implies (#[trigger] chains1[i]).contains(
            id,
        ) by {
            assert(chains1.contains(chains1[i]));
            let j = choose|j: int| 0 <= j < chains2.len() && chains2[j] == chains1[i];
            assert(chains2[j].contains(id));
        }
    }
}

proof fn lemma_unconflicted_of_same_sets(
    sets1: Seq<Map<(Seq<char>, Seq<char>), Seq<char>>>,
    sets2: Seq<Map<(Seq<char>, Seq<char>), Seq<char>>>,
    key: (Seq<char>, Seq<char>),
)
    requires
        forall|m: Map<(Seq<char>, Seq<char>), Seq<char>>| sets1.contains(m) <==> sets2.contains(m),
    ensures
        is_unconflicted(sets1, key) ==> is_unconflicted(sets2, key) && sets2[0][key]
            == sets1[0][key],
        occurs(sets1, key) ==> occurs(sets2, key),
{
    if is_unconflicted(sets1, key) {
        assert(sets1.contains(sets1[0]));
        let j0 = choose|j: int| 0 <= j < sets2.len() && sets2[j] == sets1[0];
        assert forall|j: int| 0 <= j < sets2.len() implies (#[trigger] sets2[j]).contains_key(key)
            && sets2[j][key] == sets1[0][key] by {
            assert(sets2.contains(sets2[j]));
            let i = choose|i: int| 0 <= i < sets1.len() && sets1[i] == sets2[j];
            assert(sets1[i].contains_key(key));
        }
        assert(sets2[0].contains_key(key));
    }
    if occurs(sets1, key) {
        let i = choose|i: int| 0 <= i < sets1.len() && (#[trigger] sets1[i]).contains_key(key);
        assert(sets1.contains(sets1[i]));
        let j = choose|j: int| 0 <= j < sets2.len() && sets2[j] == sets1[i];
        assert(sets2[j].contains_key(key));
    }
}

proof fn lemma_held_by_same_sets(
    sets1: Seq<Map<(Seq<char>, Seq<char>), Seq<char>>>,
    sets2: Seq<Map<(Seq<char>, Seq<char>), Seq<char>>>,
    key: (Seq<char>, Seq<char>),
    id: Seq<char>,
)
    requires
        forall|m: Map<(Seq<char>, Seq<char>), Seq<char>>| sets1.contains(m) <==> sets2.contains(m),
    ensures
        present_values(sets1, key).contains(id) ==> present_values(sets2, key).contains(id),
{
    lemma_present_values(sets1, key, id);
    lemma_present_values(sets2, key, id);
    if present_values(sets1, key).contains(id) {
        let i = choose|i: int|
            0 <= i < sets1.len() && (#[trigger] sets1[i]).contains_key(key) && sets1[i][key] == id;
        assert(sets1.contains(sets1[i]));
        let j = choose|j: int| 0 <= j < sets2.len() && sets2[j] == sets1[i];
        assert(sets2[j].contains_key(key) && sets2[j][key] == id);
    }
}

/// Shuffling the state sets, and with them the auth chains, does not change the resolved
/// state. (The order of the events inside a state set is no part of its value.)
pub proof fn lemma_order_of_state_sets_is_irrelevant<
    T: Fn(&TimelineEventType, &String, Option<&String>, &String) -> Result<Vec<StateKey>, Error>,
    C: Fn(&RoomVersion, &Event, Option<&Event>, &StateMap<&Event>) -> Result<bool, Error>,
>(
    room_version: RoomVersionId,
    state_sets: Seq<Map<(Seq<char>, Seq<char>), Seq<char>>>,
    shuffled_state_sets: Seq<Map<(Seq<char>, Seq<char>), Seq<char>>>,
    auth_chain_sets: Seq<Set<Seq<char>>>,
    shuffled_auth_chain_sets: Seq<Set<Seq<char>>>,
    events: Map<Seq<char>, EventView>,
    existing: Set<Seq<char>>,
    auth_types: T,
    auth_check: C,
)
    requires
        state_sets.to_multiset() == shuffled_state_sets.to_multiset(),
        auth_chain_sets.to_multiset() == shuffled_auth_chain_sets.to_multiset(),
    ensures
        resolve_spec(
            room_version,
            shuffled_state_sets,
            shuffled_auth_chain_sets,
            events,
            existing,
            auth_types,
            auth_check,
        ) == resolve_spec(
            room_version,
            state_sets,
            auth_chain_sets,
            events,
            existing,
            auth_types,
            auth_check,
        ),
{
    let s1 = state_sets;
    let s2 = shuffled_state_sets;
    lemma_shuffled_holds_the_same(s1, s2);
    lemma_auth_chain_diff_of_shuffled(auth_chain_sets, shuffled_auth_chain_sets);
    assert forall|k: (Seq<char>, Seq<char>)|
        is_unconflicted(s1, k) == is_unconflicted(s2, k) && occurs(s1, k) == occurs(s2, k) && (
        is_unconflicted(s1, k) ==> s1[0][k] == s2[0][k]) by {
        lemma_unconflicted_of_same_sets(s1, s2, k);
        lemma_unconflicted_of_same_sets(s2, s1, k);
    }
    assert(unconflicted_state(s1) =~= unconflicted_state(s2));
    assert(conflicted_state(s1).dom() =~= conflicted_state(s2).dom());
    let diff = auth_chain_diff(auth_chain_sets);
    let full1 = full_conflicted_set(conflicted_state(s1), diff, existing);
    let full2 = full_conflicted_set(conflicted_state(s2), diff, existing);
    assert forall|id: Seq<char>| full1.contains(id) == full2.contains(id) by {
        if full1.contains(id) && !diff.contains(id) {
            let k = choose|k: (Seq<char>, Seq<char>)|
                conflicted_state(s1).contains_key(k) && #[trigger] conflicted_state(s1)[k].contains(
                    id,
                );
            lemma_held_by_same_sets(s1, s2, k, id);
            assert(conflicted_state(s2).contains_key(k) && conflicted_state(s2)[k].contains(id));
        }
        if full2.contains(id) && !diff.contains(id) {
            let k = choose|k: (Seq<char>, Seq<char>)|
                conflicted_state(s2).contains_key(k) && #[trigger] conflicted_state(s2)[k].contains(
                    id,
                );
            lemma_held_by_same_sets(s2, s1, k, id);
            assert(conflicted_state(s1).contains_key(k) && conflicted_state(s1)[k].contains(id));
        }
    }
    assert(full1 =~= full2);
}

/// Between two events of equal rank and equal timestamp the event id decides.
pub proof fn lemma_ties_go_by_event_id(rank: int, ts: int, a: Seq<char>, b: Seq<char>)
    ensures
        key_lt((rank, ts, a), (rank, ts, b)) == id_lt(a, b),
{
}

} // verus!
