//! Splitting the state that all forks agree on from the state that is in conflict.

use vstd::prelude::*;
use crate::assoc::{entry_keys, lemma_entries_map, Key};
use crate::event::{StateKey, StateMap};

verus! {

/// Whether every state set holds the key, and all hold the same event for it.
pub open spec fn is_unconflicted(
    sets: Seq<Map<(Seq<char>, Seq<char>), Seq<char>>>,
    key: (Seq<char>, Seq<char>),
) -> bool {
    &&& sets.len() > 0
    &&& forall|i: int|
        0 <= i < sets.len() ==> (#[trigger] sets[i]).contains_key(key) && sets[i][key]
            == sets[0][key]
}

/// Whether some state set holds the key.
pub open spec fn occurs(
    sets: Seq<Map<(Seq<char>, Seq<char>), Seq<char>>>,
    key: (Seq<char>, Seq<char>),
) -> bool {
    exists|i: int| 0 <= i < sets.len() && (#[trigger] sets[i]).contains_key(key)
}

/// The events that the state sets hold for the key, in the order of the sets; a set
/// that does not hold the key adds nothing, and an event held twice is listed twice.
pub open spec fn present_values(
    sets: Seq<Map<(Seq<char>, Seq<char>), Seq<char>>>,
    key: (Seq<char>, Seq<char>),
) -> Seq<Seq<char>>
    decreases sets.len(),
{
    if sets.len() == 0 {
        Seq::empty()
    } else if sets.last().contains_key(key) {
        present_values(sets.drop_last(), key).push(sets.last()[key])
    } else {
        present_values(sets.drop_last(), key)
    }
}

/// The state on which all state sets agree.
pub open spec fn unconflicted_state(sets: Seq<Map<(Seq<char>, Seq<char>), Seq<char>>>) -> Map<
    (Seq<char>, Seq<char>),
    Seq<char>,
> {
    Map::new(
        |key: (Seq<char>, Seq<char>)| is_unconflicted(sets, key),
        |key: (Seq<char>, Seq<char>)| sets[0][key],
    )
}

/// The state on which the state sets do not agree: every key that some set holds and
/// that is not unconflicted, with the events held for it.
pub open spec fn conflicted_state(sets: Seq<Map<(Seq<char>, Seq<char>), Seq<char>>>) -> Map<
    (Seq<char>, Seq<char>),
    Seq<Seq<char>>,
> {
    Map::new(
        |key: (Seq<char>, Seq<char>)| occurs(sets, key) && !is_unconflicted(sets, key),
        |key: (Seq<char>, Seq<char>)| present_values(sets, key),
    )
}

/// An event is held for a key by the state sets exactly if some state set holds it there.
pub proof fn lemma_present_values(
    sets: Seq<Map<(Seq<char>, Seq<char>), Seq<char>>>,
    key: (Seq<char>, Seq<char>),
    id: Seq<char>,
)
    ensures
        present_values(sets, key).contains(id) <==> exists|i: int|
            0 <= i < sets.len() && (#[trigger] sets[i]).contains_key(key) && sets[i][key] == id,
    decreases sets.len(),
{
    if sets.len() > 0 {
        let before = sets.drop_last();
        lemma_present_values(before, key, id);
        let held = present_values(before, key);
        if present_values(sets, key).contains(id) {
            if sets.last().contains_key(key) {
                let after = held.push(sets.last()[key]);
                let t = choose|t: int| 0 <= t < after.len() && after[t] == id;
                if t < held.len() {
                    assert(held[t] == id);
                    let i = choose|i: int|
                        0 <= i < before.len() && (#[trigger] before[i]).contains_key(key)
                            && before[i][key] == id;
                    assert(sets[i] == before[i]);
                } else {
                    assert(sets[sets.len() - 1].contains_key(key));
                }
            } else {
                let i = choose|i: int|
                    0 <= i < before.len() && (#[trigger] before[i]).contains_key(key)
                        && before[i][key] == id;
                assert(sets[i] == before[i]);
            }
        }
        if exists|i: int|
            0 <= i < sets.len() && (#[trigger] sets[i]).contains_key(key) && sets[i][key] == id {
            let i = choose|i: int|
                0 <= i < sets.len() && (#[trigger] sets[i]).contains_key(key) && sets[i][key]
                    == id;
            if i < before.len() {
                assert(before[i] == sets[i]);
                assert(held.contains(id));
                let t = choose|t: int| 0 <= t < held.len() && held[t] == id;
                if sets.last().contains_key(key) {
                    assert(held.push(sets.last()[key])[t] == id);
                }
            } else {
                assert(held.push(sets.last()[key])[held.len() as int] == id);
            }
        }
    }
}

/// Whether all elements of a sequence are equal. Those of an empty sequence are.
pub open spec fn all_equal_spec<A>(s: Seq<A>) -> bool {
    forall|i: int, j: int| 0 <= i < s.len() && 0 <= j < s.len() ==> s[i] == s[j]
}

/// The elements of a sequence in the order of their first occurrence, each once.
pub open spec fn first_occurrences<A>(s: Seq<A>) -> Seq<A>
    decreases s.len(),
{
    if s.len() == 0 {
        Seq::empty()
    } else if first_occurrences(s.drop_last()).contains(s.last()) {
        first_occurrences(s.drop_last())
    } else {
        first_occurrences(s.drop_last()).push(s.last())
    }
}

/// The first occurrences hold what the sequence holds, and nothing twice.
pub proof fn lemma_first_occurrences<A>(s: Seq<A>)
    ensures
        first_occurrences(s).no_duplicates(),
        forall|a: A| #[trigger] first_occurrences(s).contains(a) <==> s.contains(a),
    decreases s.len(),
{
    if s.len() > 0 {
        let before = s.drop_last();
        let last = s.last();
        let firsts = first_occurrences(before);
        let result = first_occurrences(s);
        lemma_first_occurrences(before);
        assert(s =~= before.push(last));
        if firsts.contains(last) {
            assert(result == firsts);
        } else {
            assert(result == firsts.push(last));
            assert forall|i: int, j: int|
                0 <= i < result.len() && 0 <= j < result.len() && i != j implies result[i]
                != result[j] by {
                if i < firsts.len() {
                    assert(firsts.contains(result[i]));
                }
                if j < firsts.len() {
                    assert(firsts.contains(result[j]));
                }
            }
        }
        assert forall|a: A| #[trigger] result.contains(a) <==> s.contains(a) by {
            if result.contains(a) {
                let t = choose|t: int| 0 <= t < result.len() && result[t] == a;
                if t < firsts.len() {
                    assert(firsts[t] == a);
                    assert(firsts.contains(a));
                    assert(before.contains(a));
                    let i = choose|i: int| 0 <= i < before.len() && before[i] == a;
                    assert(s[i] == a);
                } else {
                    assert(a == last);
                    assert(s[s.len() - 1] == a);
                }
            }
            if s.contains(a) {
                let i = choose|i: int| 0 <= i < s.len() && s[i] == a;
                if i < before.len() {
                    assert(before[i] == a);
                    assert(before.contains(a));
                    assert(firsts.contains(a));
                    let t = choose|t: int| 0 <= t < firsts.len() && firsts[t] == a;
                    assert(result[t] == a);
                } else {
                    assert(a == last);
                    if firsts.contains(last) {
                    } else {
                        assert(result[firsts.len() as int] == a);
                    }
                }
            }
        }
    }
}

/// What each state set holds for the key, `None` for a set without it.
pub open spec fn values_at(
    sets: Seq<Map<(Seq<char>, Seq<char>), Seq<char>>>,
    key: (Seq<char>, Seq<char>),
) -> Seq<Option<Seq<char>>> {
    Seq::new(
        sets.len(),
        |i: int|
            if sets[i].contains_key(key) {
                Some(sets[i][key])
            } else {
                None
            },
    )
}

/// The views of a list of optional ids.
pub open spec fn id_views(ids: Seq<Option<&String>>) -> Seq<Option<Seq<char>>> {
    Seq::new(
        ids.len(),
        |i: int|
            match ids[i] {
                Some(id) => Some(id@),
                None => None,
            },
    )
}

/// Whether all elements of the list are equal.
pub fn all_equal(ids: &Vec<Option<&String>>) -> (b: bool)
    ensures
        b == all_equal_spec(id_views(ids@)),
{
    let ghost views = id_views(ids@);
    let mut i: usize = 1;
    while i < ids.len()
        invariant
            1 <= i,
            views == id_views(ids@),
            forall|t: int| 0 <= t < i && t < ids@.len() ==> #[trigger] views[t] == views[0],
        decreases ids@.len() - i,
    {
        let same = match (&ids[i], &ids[0]) {
            (Some(a), Some(b)) => **a == **b,
            (None, None) => true,
            _ => false,
        };
        if !same {
            assert(views[i as int] != views[0]);
            return false;
        }
        i += 1;
    }
    true
}

/// The keys in the order of their first occurrence, each once.
pub fn unique(keys: Vec<StateKey>) -> (firsts: Vec<StateKey>)
    ensures
        firsts.deep_view() == first_occurrences(keys.deep_view()),
{
    let ghost all = keys.deep_view();
    let mut firsts: Vec<StateKey> = Vec::new();
    let mut i: usize = 0;
    assert(all.take(0) =~= Seq::empty());
    assert(firsts.deep_view() =~= Seq::empty());
    while i < keys.len()
        invariant
            i <= keys@.len(),
            all == keys.deep_view(),
            firsts.deep_view() == first_occurrences(all.take(i as int)),
        decreases keys@.len() - i,
    {
        let key = &keys[i];
        let ghost before = firsts.deep_view();
        proof {
            assert(all.take(i + 1).drop_last() =~= all.take(i as int));
            assert(all.take(i + 1).last() == key@);
            assert(keys@[i as int].deep_view() == key@);
        }
        let mut found = false;
        let mut j: usize = 0;
        while j < firsts.len() && !found
            invariant
                j <= firsts@.len(),
                before == firsts.deep_view(),
                found ==> before.contains(key@),
                !found ==> forall|t: int| 0 <= t < j ==> before[t] != key@,
            decreases firsts@.len() - j + (if found { 0int } else { 1int }),
        {
            assert(before[j as int] == firsts@[j as int]@);
            if firsts[j].key_eq(key) {
                found = true;
            } else {
                j += 1;
            }
        }
        if !found {
            firsts.push(key.key_clone());
            assert(firsts.deep_view() =~= before.push(key@));
        }
        i += 1;
    }
    assert(all.take(i as int) =~= all);
    firsts
}

/// The keys of all the state sets, set by set.
fn all_keys(state_sets: &Vec<StateMap<String>>) -> (keys: Vec<StateKey>)
    ensures
        forall|k: (Seq<char>, Seq<char>)|
            keys.deep_view().contains(k) <==> occurs(state_sets.deep_view(), k),
{
    let ghost sets = state_sets.deep_view();
    let mut keys: Vec<StateKey> = Vec::new();
    let mut i: usize = 0;
    while i < state_sets.len()
        invariant
            i <= state_sets@.len(),
            sets == state_sets.deep_view(),
            forall|k: (Seq<char>, Seq<char>)| #[trigger]
                keys.deep_view().contains(k) ==> occurs(sets, k),
            forall|t: int, k: (Seq<char>, Seq<char>)|
                0 <= t < i && (#[trigger] sets[t]).contains_key(k)
                    ==> #[trigger] keys.deep_view().contains(k),
        decreases state_sets@.len() - i,
    {
        let set = &state_sets[i];
        let n = set.len();
        proof {
            lemma_entries_map(set.entries());
            assert(sets[i as int] == set@);
        }
        let mut j: usize = 0;
        while j < n
            invariant
                j <= n,
                i < state_sets@.len(),
                n == set.entries().len(),
                entry_keys(set.entries()).no_duplicates(),
                sets == state_sets.deep_view(),
                sets[i as int] == set@,
                forall|k: (Seq<char>, Seq<char>)| #[trigger]
                    keys.deep_view().contains(k) ==> occurs(sets, k),
                forall|t: int, k: (Seq<char>, Seq<char>)|
                    0 <= t < i && (#[trigger] sets[t]).contains_key(k)
                        ==> #[trigger] keys.deep_view().contains(k),
                forall|t: int|
                    0 <= t < j ==> keys.deep_view().contains(#[trigger] set.entries()[t].0),
            decreases n - j,
        {
            let ghost before = keys.deep_view();
            let key = set.key_at(j);
            proof {
                lemma_entries_map(set.entries());
                assert(sets[i as int].contains_key(key@));
            }
            keys.push(key.key_clone());
            proof {
                let after = keys.deep_view();
                assert(after =~= before.push(key@));
                assert(after[before.len() as int] == key@);
                assert forall|k: (Seq<char>, Seq<char>)| before.contains(k) implies after.contains(
                    k,
                ) by {
                    let t = choose|t: int| 0 <= t < before.len() && before[t] == k;
                    assert(after[t] == k);
                }
                assert forall|k: (Seq<char>, Seq<char>)| #[trigger]
                    after.contains(k) implies occurs(sets, k) by {
                    let t = choose|t: int| 0 <= t < after.len() && after[t] == k;
                    if t < before.len() {
                        assert(before[t] == k);
                        assert(before.contains(k));
                    }
                }
            }
            j += 1;
        }
        proof {
            lemma_entries_map(set.entries());
            assert forall|k: (Seq<char>, Seq<char>)| (#[trigger] sets[i as int]).contains_key(
                k,
            ) implies #[trigger] keys.deep_view().contains(k) by {
                let t = choose|t: int| 0 <= t < n && set.entries()[t].0 == k;
                assert(keys.deep_view().contains(set.entries()[t].0));
            }
        }
        i += 1;
    }
    proof {
        assert forall|k: (Seq<char>, Seq<char>)| occurs(sets, k) implies keys.deep_view().contains(
            k,
        ) by {
            let t = choose|t: int| 0 <= t < sets.len() && (#[trigger] sets[t]).contains_key(k);
            assert(sets[t].contains_key(k));
        }
    }
    keys
}

/// What each state set holds for the key.
fn values_of<'a>(state_sets: &'a Vec<StateMap<String>>, key: &StateKey) -> (ids: Vec<
    Option<&'a String>,
>)
    ensures
        id_views(ids@) == values_at(state_sets.deep_view(), key@),
{
    let ghost sets = state_sets.deep_view();
    let mut ids: Vec<Option<&'a String>> = Vec::new();
    let mut i: usize = 0;
    while i < state_sets.len()
        invariant
            i <= state_sets@.len(),
            sets == state_sets.deep_view(),
            ids@.len() == i,
            forall|t: int| 0 <= t < i ==> id_views(ids@)[t] == values_at(sets, key@)[t],
        decreases state_sets@.len() - i,
    {
        assert(sets[i as int] == state_sets@[i as int]@);
        let ghost before = ids@;
        let held = state_sets[i].get(key);
        ids.push(held);
        proof {
            assert forall|t: int| 0 <= t < i + 1 implies id_views(ids@)[t] == values_at(
                sets,
                key@,
            )[t] by {
                if t < i {
                    assert(ids@[t] == before[t]);
                    assert(id_views(before)[t] == values_at(sets, key@)[t]);
                } else {
                    assert(ids@[t] == held);
                }
            }
        }
        i += 1;
    }
    assert(id_views(ids@) =~= values_at(sets, key@));
    ids
}

/// The ids that are there, in order.
fn present_ids(ids: &Vec<Option<&String>>, Ghost(sets): Ghost<
    Seq<Map<(Seq<char>, Seq<char>), Seq<char>>>,
>, Ghost(key): Ghost<(Seq<char>, Seq<char>)>) -> (present: Vec<String>)
    requires
        id_views(ids@) == values_at(sets, key),
    ensures
        present.deep_view() == present_values(sets, key),
{
    let mut present: Vec<String> = Vec::new();
    let mut i: usize = 0;
    assert(sets.take(0) =~= Seq::empty());
    assert(present.deep_view() =~= Seq::empty());
    assert(id_views(ids@).len() == ids@.len());
    assert(values_at(sets, key).len() == sets.len());
    while i < ids.len()
        invariant
            i <= ids@.len(),
            ids@.len() == sets.len(),
            id_views(ids@) == values_at(sets, key),
            present.deep_view() == present_values(sets.take(i as int), key),
        decreases ids@.len() - i,
    {
        let ghost before = present.deep_view();
        proof {
            assert(sets.take(i + 1).drop_last() =~= sets.take(i as int));
            assert(sets.take(i + 1).last() == sets[i as int]);
            assert(id_views(ids@)[i as int] == values_at(sets, key)[i as int]);
        }
        match &ids[i] {
            Some(id) => {
                present.push((*id).clone());
                assert(present.deep_view() =~= before.push(id@));
            },
            None => {},
        }
        i += 1;
    }
    assert(sets.take(i as int) =~= sets);
    present
}

/// The state sets agree on a key that some of them holds exactly if what they hold for
/// it is all equal.
pub proof fn lemma_unconflicted_is_all_equal(
    sets: Seq<Map<(Seq<char>, Seq<char>), Seq<char>>>,
    key: (Seq<char>, Seq<char>),
)
    requires
        occurs(sets, key),
    ensures
        is_unconflicted(sets, key) == all_equal_spec(values_at(sets, key)),
        is_unconflicted(sets, key) ==> values_at(sets, key).last() == Some(sets[0][key]),
{
    let values = values_at(sets, key);
    let w = choose|i: int| 0 <= i < sets.len() && (#[trigger] sets[i]).contains_key(key);
    if all_equal_spec(values) {
        assert forall|i: int| 0 <= i < sets.len() implies (#[trigger] sets[i]).contains_key(key)
            && sets[i][key] == sets[0][key] by {
            assert(values[i] == values[w]);
            assert(values[0] == values[w]);
        }
    }
    if is_unconflicted(sets, key) {
        assert forall|i: int, j: int| 0 <= i < values.len() && 0 <= j < values.len() implies values[i]
            == values[j] by {
            assert(sets[i].contains_key(key) && sets[j].contains_key(key));
        }
        assert(sets[sets.len() - 1].contains_key(key));
    }
}

/// Split the events that have no conflicts from those that are conflicting.
///
/// The return tuple looks like `(unconflicted, conflicted)`.
///
/// State is determined to be conflicting if for the given key there is not exactly one
/// event id. This includes missing events: if one state set includes an event that none
/// of the others have, this is a conflicting event.
pub fn separate(state_sets: &Vec<StateMap<String>>) -> (r: (
    StateMap<String>,
    StateMap<Vec<String>>,
))
    ensures
        r.0@ == unconflicted_state(state_sets.deep_view()),
        r.1@ == conflicted_state(state_sets.deep_view()),
{
    let ghost sets = state_sets.deep_view();
    let mut unconflicted_state_map: StateMap<String> = StateMap::new();
    let mut conflicted_state_map: StateMap<Vec<String>> = StateMap::new();
    let every_key = all_keys(state_sets);
    let ghost every = every_key.deep_view();
    let keys = unique(every_key);
    let ghost listed = keys.deep_view();
    proof {
        lemma_first_occurrences(every);
    }
    let mut i: usize = 0;
    while i < keys.len()
        invariant
            i <= keys@.len(),
            sets == state_sets.deep_view(),
            listed == keys.deep_view(),
            forall|k: (Seq<char>, Seq<char>)| listed.contains(k) == occurs(sets, k),
            forall|k: (Seq<char>, Seq<char>)| #[trigger]
                unconflicted_state_map@.contains_key(k) ==> is_unconflicted(sets, k)
                    && unconflicted_state_map@[k] == sets[0][k],
            forall|k: (Seq<char>, Seq<char>)| #[trigger]
                conflicted_state_map@.contains_key(k) ==> occurs(sets, k) && !is_unconflicted(
                    sets,
                    k,
                ) && conflicted_state_map@[k] == present_values(sets, k),
            forall|t: int|
                0 <= t < i ==> unconflicted_state_map@.contains_key(#[trigger] listed[t])
                    || conflicted_state_map@.contains_key(listed[t]),
        decreases keys@.len() - i,
    {
        let key = &keys[i];
        proof {
            assert(listed[i as int] == key@);
            assert(keys@[i as int].deep_view() == key@);
            assert(listed.contains(key@));
            lemma_unconflicted_is_all_equal(sets, key@);
        }
        let mut event_ids = values_of(state_sets, key);
        if all_equal(&event_ids) {
            let ghost values = id_views(event_ids@);
            assert(values.last() == values[values.len() - 1]);
            match event_ids.pop() {
                Some(Some(id)) => {
                    unconflicted_state_map.insert(key.key_clone(), id.clone());
                },
                _ => {},
            }
        } else {
            let present = present_ids(&event_ids, Ghost(sets), Ghost(key@));
            conflicted_state_map.insert(key.key_clone(), present);
        }
        i += 1;
    }
    proof {
        assert forall|k: (Seq<char>, Seq<char>)| is_unconflicted(
            sets,
            k,
        ) implies #[trigger] unconflicted_state_map@.contains_key(k) by {
            assert(sets[0].contains_key(k));
            assert(listed.contains(k));
            let t = choose|t: int| 0 <= t < listed.len() && listed[t] == k;
            assert(unconflicted_state_map@.contains_key(listed[t])
                || conflicted_state_map@.contains_key(listed[t]));
        }
        assert forall|k: (Seq<char>, Seq<char>)|
            occurs(sets, k) && !is_unconflicted(
                sets,
                k,
            ) implies #[trigger] conflicted_state_map@.contains_key(k) by {
            assert(listed.contains(k));
            let t = choose|t: int| 0 <= t < listed.len() && listed[t] == k;
            assert(unconflicted_state_map@.contains_key(listed[t])
                || conflicted_state_map@.contains_key(listed[t]));
        }
        assert(unconflicted_state_map@ =~= unconflicted_state(sets));
        assert(conflicted_state_map@ =~= conflicted_state(sets));
    }
    (unconflicted_state_map, conflicted_state_map)
}

} // verus!
