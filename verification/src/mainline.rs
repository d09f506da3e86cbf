//! Sorting events by their depth on the mainline of power-level events.

use vstd::prelude::*;
use crate::assoc::{VecMap, VecSet};
use crate::content::option_view;
use crate::error::{auth_cycle_reason, Error, ErrorView};
use crate::event::{is_type_and_key, room_power_levels_name, Event, EventView, TimelineEventType};
use crate::order::{
    id_less, id_lt, key_lt, least_index, lemma_id_lt_order, lemma_key_lt_order, SortKey,
};
use crate::store::EventStore;
use crate::topo::{heap_holds, lemma_heap_push, lemma_heap_remove, node_key};

verus! {

/// The first of the given auth events that is a power-levels event with the empty state
/// key. An auth event that comes before it and is not known is an error.
pub open spec fn required_power_parent(
    events: Map<Seq<char>, EventView>,
    auth_events: Seq<Seq<char>>,
) -> Result<Option<Seq<char>>, ErrorView>
    decreases auth_events.len(),
{
    if auth_events.len() == 0 {
        Ok(None)
    } else if !events.contains_key(auth_events[0]) {
        Err(ErrorView::NotFound(auth_events[0]))
    } else if events[auth_events[0]].is_type_and_key(room_power_levels_name(), ""@) {
        Ok(Some(auth_events[0]))
    } else {
        required_power_parent(events, auth_events.drop_first())
    }
}

/// Puts what was found so far in front of what is found from here on.
pub open spec fn then_mainline(done: Seq<Seq<char>>, rest: Result<Seq<Seq<char>>, ErrorView>)
    -> Result<Seq<Seq<char>>, ErrorView> {
    match rest {
        Ok(more) => Ok(done + more),
        Err(e) => Err(e),
    }
}

/// The mainline from a power-levels event on: the event, then the power-levels event
/// among its auth events, and so on, as far as `fuel` further steps lead. A chain that
/// is longer than that cannot end, and is an error.
pub open spec fn mainline_from(events: Map<Seq<char>, EventView>, id: Seq<char>, fuel: nat)
    -> Result<Seq<Seq<char>>, ErrorView>
    decreases fuel,
{
    if !events.contains_key(id) {
        Err(ErrorView::NotFound(id))
    } else {
        match required_power_parent(events, events[id].auth_events) {
            Err(e) => Err(e),
            Ok(None) => Ok(seq![id]),
            Ok(Some(parent)) => if fuel == 0 {
                Err(ErrorView::InvalidPdu(auth_cycle_reason()))
            } else {
                then_mainline(seq![id], mainline_from(events, parent, (fuel - 1) as nat))
            },
        }
    }
}

/// The mainline of a resolved power-levels event, the event itself first; empty where
/// there is no such event. No chain of different events is longer than the store.
pub open spec fn mainline(events: Map<Seq<char>, EventView>, tip: Option<Seq<char>>) -> Result<
    Seq<Seq<char>>,
    ErrorView,
> {
    match tip {
        None => Ok(Seq::empty()),
        Some(id) => mainline_from(events, id, events.dom().len()),
    }
}

/// The depth of each event of a mainline: zero for the last, the oldest, and one more
/// for each event before it.
pub open spec fn mainline_depths(mainline: Seq<Seq<char>>) -> Map<Seq<char>, usize>
    decreases mainline.len(),
{
    if mainline.len() == 0 {
        Map::empty()
    } else {
        mainline_depths(mainline.drop_first()).insert(mainline[0], (mainline.len() - 1) as usize)
    }
}

/// The mainline depth of an event: its own depth if it is on the mainline, else that of
/// the power-levels event among its auth events, and so on; zero where that chain ends
/// off the mainline.
pub open spec fn mainline_depth(
    events: Map<Seq<char>, EventView>,
    depths: Map<Seq<char>, usize>,
    event: EventView,
    fuel: nat,
) -> Result<usize, ErrorView>
    decreases fuel,
{
    if depths.contains_key(event.event_id) {
        Ok(depths[event.event_id])
    } else {
        match required_power_parent(events, event.auth_events) {
            Err(e) => Err(e),
            Ok(None) => Ok(0usize),
            Ok(Some(parent)) => if fuel == 0 {
                Err(ErrorView::InvalidPdu(auth_cycle_reason()))
            } else {
                mainline_depth(events, depths, events[parent], (fuel - 1) as nat)
            },
        }
    }
}

/// Finds the power-levels event among the given auth events, all of which must be known
/// up to it.
pub fn find_required_power_parent(events: &EventStore, auth_events: &Vec<String>) -> (r: Result<
    Option<String>,
    Error,
>)
    ensures
        match r {
            Ok(Some(id)) => required_power_parent(events@, auth_events.deep_view()) == Ok::<
                Option<Seq<char>>,
                ErrorView,
            >(Some(id@)) && events@.contains_key(id@),
            Ok(None) => required_power_parent(events@, auth_events.deep_view()) == Ok::<
                Option<Seq<char>>,
                ErrorView,
            >(None),
            Err(e) => required_power_parent(events@, auth_events.deep_view()) == Err::<
                Option<Seq<char>>,
                ErrorView,
            >(e@),
        },
{
    let ghost auth = auth_events.deep_view();
    let power_levels = TimelineEventType::room_power_levels();
    let mut i: usize = 0;
    assert(auth.skip(0) =~= auth);
    while i < auth_events.len()
        invariant
            i <= auth_events@.len(),
            auth == auth_events.deep_view(),
            power_levels@ == room_power_levels_name(),
            required_power_parent(events@, auth) == required_power_parent(
                events@,
                auth.skip(i as int),
            ),
        decreases auth_events@.len() - i,
    {
        proof {
            assert(auth.skip(i as int)[0] == auth_events@[i as int]@);
            assert(auth.skip(i as int).drop_first() =~= auth.skip(i + 1));
        }
        match events.fetch(&auth_events[i]) {
            None => {
                return Err(Error::not_found(&auth_events[i]));
            },
            Some(aev) => {
                if is_type_and_key(aev, &power_levels, "") {
                    return Ok(Some(auth_events[i].clone()));
                }
            },
        }
        i += 1;
    }
    Ok(None)
}

/// Follows the power-levels events from the resolved one back to the oldest.
#[verifier::loop_isolation(false)]
pub fn build_mainline(resolved_power_level: Option<String>, events: &EventStore) -> (r: Result<
    Vec<String>,
    Error,
>)
    ensures
        match r {
            Ok(line) => mainline(
                events@,
                option_view(resolved_power_level),
            ) == Ok::<Seq<Seq<char>>, ErrorView>(line.deep_view()),
            Err(e) => mainline(
                events@,
                option_view(resolved_power_level),
            ) == Err::<Seq<Seq<char>>, ErrorView>(e@),
        },
{
    let ghost wanted = mainline(events@, option_view(resolved_power_level));
    let mut fuel = events.len();
    let mut line: Vec<String> = Vec::new();
    let mut pl = resolved_power_level;
    proof {
        assert(line.deep_view() =~= Seq::empty());
        if pl is Some {
            match mainline_from(events@, pl->Some_0@, fuel as nat) {
                Ok(more) => {
                    assert(line.deep_view() + more =~= more);
                },
                Err(_) => {},
            }
        }
    }
    while pl.is_some()
        invariant
            wanted == (match pl {
                Some(id) => then_mainline(line.deep_view(), mainline_from(events@, id@, fuel as nat)),
                None => Ok(line.deep_view()),
            }),
        decreases
                (if pl is Some {
                    fuel + 1
                } else {
                    0
                }),
    {
        let p = pl.unwrap();
        let ghost before = line.deep_view();
        match events.fetch(&p) {
            None => {
                return Err(Error::not_found(&p));
            },
            Some(event) => {
                match find_required_power_parent(events, &event.auth_events) {
                    Err(e) => {
                        return Err(e);
                    },
                    Ok(None) => {
                        line.push(p);
                        assert(line.deep_view() =~= before + seq![p@]);
                        pl = None;
                    },
                    Ok(Some(parent)) => {
                        if fuel == 0 {
                            return Err(Error::auth_cycle());
                        }
                        line.push(p);
                        proof {
                            let after = line.deep_view();
                            assert(after =~= before + seq![p@]);
                            match mainline_from(events@, parent@, (fuel - 1) as nat) {
                                Ok(more) => {
                                    assert(before + (seq![p@] + more) =~= after + more);
                                },
                                Err(_) => {},
                            }
                        }
                        fuel = fuel - 1;
                        pl = Some(parent);
                    },
                }
            },
        }
    }
    Ok(line)
}

/// Numbers the events of a mainline by depth.
pub fn number_mainline(line: &Vec<String>) -> (depths: VecMap<String, usize>)
    ensures
        depths@ == mainline_depths(line.deep_view()),
{
    let ghost all = line.deep_view();
    let mut depths: VecMap<String, usize> = VecMap::new();
    let mut i: usize = line.len();
    assert(all.skip(i as int) =~= Seq::empty());
    while i > 0
        invariant
            i <= line@.len(),
            all == line.deep_view(),
            depths@ == mainline_depths(all.skip(i as int)),
        decreases i,
    {
        i -= 1;
        proof {
            assert(all.skip(i as int).drop_first() =~= all.skip(i + 1));
            assert(all.skip(i as int)[0] == line@[i as int]@);
        }
        depths.insert(line[i].clone(), line.len() - 1 - i);
    }
    assert(all.skip(0) =~= all);
    depths
}

/// Get the mainline depth from the `mainline_map` or find a power-levels event that has
/// an associated mainline depth.
#[verifier::loop_isolation(false)]
pub fn get_mainline_depth(
    event: Option<&Event>,
    mainline_map: &VecMap<String, usize>,
    events: &EventStore,
) -> (r: Result<usize, Error>)
    ensures
        match event {
            None => r matches Ok(d) && d == 0,
            Some(ev) => match r {
                Ok(d) => mainline_depth(events@, mainline_map@, ev@, events@.dom().len()) == Ok::<
                    usize,
                    ErrorView,
                >(d),
                Err(e) => mainline_depth(events@, mainline_map@, ev@, events@.dom().len()) == Err::<
                    usize,
                    ErrorView,
                >(e@),
            },
        },
{
    let mut fuel = events.len();
    let mut current = event;
    let ghost wanted = match event {
        Some(ev) => mainline_depth(events@, mainline_map@, ev@, fuel as nat),
        None => Ok(0usize),
    };
    while current.is_some()
        invariant
            wanted == (match current {
                Some(ev) => mainline_depth(events@, mainline_map@, ev@, fuel as nat),
                None => Ok(0usize),
            }),
        decreases
                (if current is Some {
                    fuel + 1
                } else {
                    0
                }),
    {
        let sort_ev = current.unwrap();
        match mainline_map.get(&sort_ev.event_id) {
            Some(depth) => {
                return Ok(*depth);
            },
            None => {},
        }
        match find_required_power_parent(events, &sort_ev.auth_events) {
            Err(e) => {
                return Err(e);
            },
            Ok(None) => {
                current = None;
            },
            Ok(Some(parent)) => {
                if fuel == 0 {
                    return Err(Error::auth_cycle());
                }
                fuel = fuel - 1;
                current = events.fetch(&parent);
            },
        }
    }
    Ok(0)
}

/// Whether a sequence ascends strictly by the keys of its elements.
pub open spec fn is_sorted_by(keys: spec_fn(Seq<char>) -> (int, int), s: Seq<Seq<char>>) -> bool {
    forall|i: int, j: int|
        0 <= i < j < s.len() ==> key_lt(node_key(keys, #[trigger] s[i]), node_key(keys, #[trigger] s[j]))
}

/// Sorts keys with different ids and hands back their ids in ascending order.
pub(crate) fn sort_keys(
    heap: Vec<SortKey>,
    Ghost(keys): Ghost<spec_fn(Seq<char>) -> (int, int)>,
    Ghost(nodes): Ghost<Set<Seq<char>>>,
) -> (sorted: Vec<String>)
    requires
        heap_holds(keys, |x: Seq<char>| true, heap@, nodes),
    ensures
        sorted.deep_view().to_set() == nodes,
        is_sorted_by(keys, sorted.deep_view()),
{
    let ghost known = |x: Seq<char>| true;
    let mut heap = heap;
    let mut sorted: Vec<String> = Vec::new();
    let ghost mut rest = nodes;
    assert(sorted.deep_view().to_set() =~= Set::empty());
    while heap.len() > 0
        invariant
            heap_holds(keys, known, heap@, rest),
            nodes == sorted.deep_view().to_set().union(rest),
            is_sorted_by(keys, sorted.deep_view()),
            forall|i: int, m: Seq<char>|
                0 <= i < sorted@.len() && #[trigger] rest.contains(m) ==> key_lt(
                    node_key(keys, #[trigger] sorted.deep_view()[i]),
                    node_key(keys, m),
                ),
        decreases heap@.len(),
    {
        let best = least_index(&heap);
        let ghost heap0 = heap@;
        let ghost out0 = sorted.deep_view();
        let item = heap.remove(best);
        let ghost id = item.id@;
        proof {
            assert(heap0[best as int] == item);
            lemma_heap_remove(keys, known, heap0, rest, best as int);
            assert(rest.contains(id));
            assert forall|m: Seq<char>| #[trigger] rest.remove(id).contains(m) implies key_lt(
                node_key(keys, id),
                node_key(keys, m),
            ) by {
                let k = choose|k: int| 0 <= k < heap0.len() && (#[trigger] heap0[k]).id@ == m;
                assert(k != best);
            }
        }
        sorted.push(item.id);
        proof {
            let out1 = sorted.deep_view();
            assert(out1 =~= out0.push(id));
            out0.lemma_push_to_set_commute(id);
            assert(out1.to_set().union(rest.remove(id)) =~= out0.to_set().union(rest));
            assert forall|i: int, j: int| 0 <= i < j < out1.len() implies key_lt(
                node_key(keys, #[trigger] out1[i]),
                node_key(keys, #[trigger] out1[j]),
            ) by {
                if j < out0.len() {
                    assert(out1[i] == out0[i] && out1[j] == out0[j]);
                } else {
                    assert(out1[i] == out0[i]);
                }
            }
            assert forall|i: int, m: Seq<char>|
                0 <= i < out1.len() && #[trigger] rest.remove(id).contains(m) implies key_lt(
                node_key(keys, #[trigger] out1[i]),
                node_key(keys, m),
            ) by {
                if i < out0.len() {
                    assert(out1[i] == out0[i]);
                    assert(rest.contains(m));
                }
            }
            rest = rest.remove(id);
        }
    }
    proof {
        assert(rest =~= Set::empty()) by {
            assert forall|m: Seq<char>| !rest.contains(m) by {
                if rest.contains(m) {
                    let k = choose|k: int| 0 <= k < heap@.len() && (#[trigger] heap@[k]).id@ == m;
                }
            }
        }
        assert(sorted.deep_view().to_set().union(rest) =~= sorted.deep_view().to_set());
    }
    sorted
}

/// A strictly ascending sequence is determined by its elements.
pub proof fn lemma_sorted_is_unique(
    keys: spec_fn(Seq<char>) -> (int, int),
    s1: Seq<Seq<char>>,
    s2: Seq<Seq<char>>,
)
    requires
        is_sorted_by(keys, s1),
        is_sorted_by(keys, s2),
        s1.to_set() == s2.to_set(),
    ensures
        s1 == s2,
    decreases s1.len(),
{
    if s1.len() == 0 {
        if s2.len() > 0 {
            assert(s2.to_set().contains(s2[0]));
        }
        assert(s1 =~= s2);
    } else if s2.len() == 0 {
        assert(s1.to_set().contains(s1[0]));
    } else {
        let a = s1[0];
        let b = s2[0];
        assert(s1.to_set().contains(a));
        assert(s2.to_set().contains(b));
        if a != b {
            let i = choose|i: int| 0 <= i < s2.len() && s2[i] == a;
            let j = choose|j: int| 0 <= j < s1.len() && s1[j] == b;
            assert(key_lt(node_key(keys, s2[0]), node_key(keys, s2[i])));
            assert(key_lt(node_key(keys, s1[0]), node_key(keys, s1[j])));
            lemma_key_lt_order(node_key(keys, a), node_key(keys, b), node_key(keys, a));
        }
        let t1 = s1.drop_first();
        let t2 = s2.drop_first();
        assert forall|x: Seq<char>| t1.to_set().contains(x) == t2.to_set().contains(x) by {
            lemma_key_lt_order(node_key(keys, a), node_key(keys, a), node_key(keys, a));
            if t1.to_set().contains(x) {
                let i = choose|i: int| 0 <= i < t1.len() && t1[i] == x;
                assert(s1[i + 1] == x);
                assert(key_lt(node_key(keys, s1[0]), node_key(keys, s1[i + 1])));
                assert(s2.to_set().contains(x));
                let j = choose|j: int| 0 <= j < s2.len() && s2[j] == x;
                assert(j != 0);
                assert(t2[j - 1] == x);
            }
            if t2.to_set().contains(x) {
                let i = choose|i: int| 0 <= i < t2.len() && t2[i] == x;
                assert(s2[i + 1] == x);
                assert(key_lt(node_key(keys, s2[0]), node_key(keys, s2[i + 1])));
                assert(s1.to_set().contains(x));
                let j = choose|j: int| 0 <= j < s1.len() && s1[j] == x;
                assert(j != 0);
                assert(t1[j - 1] == x);
            }
        }
        assert(t1.to_set() =~= t2.to_set());
        assert(is_sorted_by(keys, t1)) by {
            assert forall|i: int, j: int| 0 <= i < j < t1.len() implies key_lt(
                node_key(keys, #[trigger] t1[i]),
                node_key(keys, #[trigger] t1[j]),
            ) by {
                assert(t1[i] == s1[i + 1] && t1[j] == s1[j + 1]);
            }
        }
        assert(is_sorted_by(keys, t2)) by {
            assert forall|i: int, j: int| 0 <= i < j < t2.len() implies key_lt(
                node_key(keys, #[trigger] t2[i]),
                node_key(keys, #[trigger] t2[j]),
            ) by {
                assert(t2[i] == s2[i + 1] && t2[j] == s2[j + 1]);
            }
        }
        lemma_sorted_is_unique(keys, t1, t2);
        assert(s1 =~= seq![a] + t1);
        assert(s2 =~= seq![b] + t2);
    }
}

/// The rank and timestamp by which the remaining events are ordered: the mainline depth
/// and the origin server's timestamp.
pub open spec fn mainline_keys(events: Map<Seq<char>, EventView>, depths: Map<Seq<char>, usize>)
    -> spec_fn(Seq<char>) -> (int, int) {
    |id: Seq<char>|
        (
            match mainline_depth(events, depths, events[id], events.dom().len()) {
                Ok(depth) => depth as int,
                Err(_) => 0int,
            },
            events[id].origin_server_ts as int,
        )
}

/// What stands in the way of sorting an event, if anything does: the event is not
/// known, or its mainline depth cannot be told.
pub open spec fn sort_failure(
    events: Map<Seq<char>, EventView>,
    depths: Map<Seq<char>, usize>,
    id: Seq<char>,
) -> Option<ErrorView> {
    if !events.contains_key(id) {
        Some(ErrorView::NotFound(id))
    } else {
        match mainline_depth(events, depths, events[id], events.dom().len()) {
            Err(e) => Some(e),
            Ok(_) => None,
        }
    }
}

/// Whether `id` is the least, by event id, of the events of `ids` that cannot be sorted.
pub open spec fn is_first_failure(
    events: Map<Seq<char>, EventView>,
    depths: Map<Seq<char>, usize>,
    ids: Set<Seq<char>>,
    id: Seq<char>,
) -> bool {
    &&& ids.contains(id)
    &&& sort_failure(events, depths, id) is Some
    &&& forall|m: Seq<char>|
        ids.contains(m) && #[trigger] sort_failure(events, depths, m) is Some && m != id
            ==> id_lt(id, m)
}

/// The error that a mainline sort of `ids` ends with, if some event cannot be sorted:
/// that of the least such event by event id, whatever the order in which they are given.
pub open spec fn first_failure(
    events: Map<Seq<char>, EventView>,
    depths: Map<Seq<char>, usize>,
    ids: Set<Seq<char>>,
) -> Option<ErrorView> {
    if exists|id: Seq<char>| ids.contains(id) && sort_failure(events, depths, id) is Some {
        sort_failure(
            events,
            depths,
            choose|id: Seq<char>| is_first_failure(events, depths, ids, id),
        )
    } else {
        None
    }
}

/// The first failure is the failure of whatever event is the least that fails.
pub proof fn lemma_first_failure(
    events: Map<Seq<char>, EventView>,
    depths: Map<Seq<char>, usize>,
    ids: Set<Seq<char>>,
    id: Seq<char>,
)
    requires
        is_first_failure(events, depths, ids, id),
    ensures
        first_failure(events, depths, ids) == sort_failure(events, depths, id),
{
    let chosen = choose|c: Seq<char>| is_first_failure(events, depths, ids, c);
    assert(is_first_failure(events, depths, ids, chosen));
    if chosen != id {
        assert(sort_failure(events, depths, chosen) is Some);
        assert(sort_failure(events, depths, id) is Some);
        lemma_id_lt_order(id, chosen, id);
    }
}

/// Returns the sorted `to_sort` list of event ids based on a mainline sort using the
/// depth of `resolved_power_level`, the server timestamp, and the event id.
///
/// The depth of the given event is calculated based on the depth of its closest "parent"
/// power-levels event on the mainline. Every event of `to_sort` is in the result; an
/// event that is not known, or whose depth cannot be told, is an error.
pub fn mainline_sort(
    to_sort: &Vec<String>,
    resolved_power_level: Option<String>,
    events: &EventStore,
) -> (r: Result<Vec<String>, Error>)
    ensures
        to_sort@.len() == 0 ==> (r matches Ok(sorted) && sorted@.len() == 0),
        to_sort@.len() > 0 ==> (match mainline(events@, option_view(resolved_power_level)) {
            Err(e) => (r matches Err(x) && x@ == e),
            Ok(line) => match r {
                Ok(sorted) => {
                    &&& forall|id: Seq<char>|
                        to_sort.deep_view().to_set().contains(id) ==> #[trigger] sort_failure(
                            events@,
                            mainline_depths(line),
                            id,
                        ) is None
                    &&& sorted.deep_view().to_set() == to_sort.deep_view().to_set()
                    &&& is_sorted_by(
                        mainline_keys(events@, mainline_depths(line)),
                        sorted.deep_view(),
                    )
                },
                Err(e) => exists|id: Seq<char>|
                    #[trigger] is_first_failure(
                        events@,
                        mainline_depths(line),
                        to_sort.deep_view().to_set(),
                        id,
                    ) && sort_failure(events@, mainline_depths(line), id) == Some(e@),
            },
        }),
{
    // There are no event ids to sort, bail.
    if to_sort.len() == 0 {
        return Ok(Vec::new());
    }
    let line = match build_mainline(resolved_power_level, events) {
        Err(e) => {
            return Err(e);
        },
        Ok(line) => line,
    };
    let mainline_map = number_mainline(&line);
    let ghost depths = mainline_map@;
    let ghost keys = mainline_keys(events@, depths);
    let ghost known = |x: Seq<char>| true;
    let ghost all = to_sort.deep_view();
    let mut order: Vec<SortKey> = Vec::new();
    let mut seen: VecSet<String> = VecSet::new();
    let mut failed: Option<(String, Error)> = None;
    let mut i: usize = 0;
    assert(all.take(0) =~= Seq::empty());
    assert(seen@ =~= all.take(0).to_set());
    while i < to_sort.len()
        invariant
            i <= to_sort@.len(),
            all == to_sort.deep_view(),
            depths == mainline_map@,
            keys == mainline_keys(events@, depths),
            known == (|x: Seq<char>| true),
            failed is None ==> heap_holds(keys, known, order@, seen@) && seen@ == all.take(
                i as int,
            ).to_set() && forall|t: int|
                0 <= t < i ==> sort_failure(events@, depths, #[trigger] all[t]) is None,
            failed matches Some(f) ==> is_first_failure(
                events@,
                depths,
                all.take(i as int).to_set(),
                f.0@,
            ) && sort_failure(events@, depths, f.0@) == Some(f.1@),
        decreases to_sort@.len() - i,
    {
        let ev_id = &to_sort[i];
        let ghost id = ev_id@;
        let ghost prev = all.take(i as int);
        let ghost next = all.take(i + 1);
        proof {
            assert(all[i as int] == id);
            assert(next =~= prev.push(id));
            prev.lemma_push_to_set_commute(id);
            assert(next.to_set() == prev.to_set().insert(id));
            assert forall|m: Seq<char>| prev.to_set().contains(m) implies exists|t: int|
                0 <= t < i && all[t] == m by {
                let t = choose|t: int| 0 <= t < prev.len() && prev[t] == m;
                assert(all[t] == m);
            }
        }
        let outcome: Result<(usize, u64), Error> = match events.fetch(ev_id) {
            None => Err(Error::not_found(ev_id)),
            Some(event) => match get_mainline_depth(Some(event), &mainline_map, events) {
                Err(e) => Err(e),
                Ok(depth) => Ok((depth, event.origin_server_ts)),
            },
        };
        match outcome {
            Err(e) => {
                assert(sort_failure(events@, depths, id) == Some(e@));
                let replace = match &failed {
                    None => true,
                    Some(f) => id_less(ev_id, &f.0),
                };
                proof {
                    if failed is Some {
                        let first = failed->Some_0.0@;
                        if replace {
                            assert forall|m: Seq<char>|
                                next.to_set().contains(m) && #[trigger] sort_failure(
                                    events@,
                                    depths,
                                    m,
                                ) is Some && m != id implies id_lt(id, m) by {
                                if m != first {
                                    lemma_id_lt_order(id, first, m);
                                }
                            }
                        } else {
                            lemma_id_lt_order(id, first, id);
                        }
                    } else {
                        assert forall|m: Seq<char>|
                            next.to_set().contains(m) && #[trigger] sort_failure(
                                events@,
                                depths,
                                m,
                            ) is Some && m != id implies id_lt(id, m) by {
                            let t = choose|t: int| 0 <= t < i && all[t] == m;
                            assert(sort_failure(events@, depths, all[t]) is None);
                        }
                    }
                }
                if replace {
                    failed = Some((ev_id.clone(), e));
                }
            },
            Ok((depth, ts)) => {
                assert(sort_failure(events@, depths, id) is None);
                if failed.is_none() {
                    if seen.insert(ev_id.clone()) {
                        let key = SortKey { rank: depth as i128, ts, id: ev_id.clone() };
                        proof {
                            lemma_heap_push(keys, known, order@, prev.to_set(), key);
                        }
                        order.push(key);
                    }
                }
            },
        }
        i += 1;
    }
    assert(all.take(i as int) =~= all);
    match failed {
        Some(f) => {
            assert(is_first_failure(events@, depths, all.to_set(), f.0@));
            Err(f.1)
        },
        None => {
            proof {
                assert forall|m: Seq<char>| all.to_set().contains(m) implies sort_failure(
                    events@,
                    depths,
                    m,
                ) is None by {
                    let t = choose|t: int| 0 <= t < all.len() && all[t] == m;
                    assert(sort_failure(events@, depths, all[t]) is None);
                }
            }
            // Sort the event ids by their depth, timestamp and id.
            let sorted = sort_keys(order, Ghost(keys), Ghost(seen@));
            Ok(sorted)
        },
    }
}

/// Without a resolved power-levels event there is no mainline, every event that is
/// sorted has depth zero, and the order is by timestamp and then by event id.
pub proof fn lemma_no_mainline_depth_is_zero(
    events: Map<Seq<char>, EventView>,
    event: EventView,
    fuel: nat,
)
    ensures
        mainline(events, None) == Ok::<Seq<Seq<char>>, ErrorView>(Seq::empty()),
        mainline_depths(Seq::empty()) == Map::<Seq<char>, usize>::empty(),
        (mainline_depth(events, Map::empty(), event, fuel) matches Ok(depth) ==> depth == 0),
    decreases fuel,
{
    match required_power_parent(events, event.auth_events) {
        Ok(Some(parent)) => {
            if fuel > 0 {
                lemma_no_mainline_depth_is_zero(events, events[parent], (fuel - 1) as nat);
            }
        },
        _ => {},
    }
}

} // verus!
