//! Checking events against the authorization rules, one after the other.
//!
//! The rules themselves are the caller's: a function that names the state an event
//! needs to be authorized, and a function that accepts or rejects an event given that
//! state. This module gathers the state, asks, and keeps what was accepted.

use vstd::prelude::*;
use crate::assoc::{entries_insert, Key, VecMap};
use crate::error::{no_state_key_reason, Error, ErrorView};
use crate::event::{
    room_third_party_invite_name, Event, EventTypeExt, EventView, StateKey, StateMap,
    TimelineEventType,
};
use crate::room_version::RoomVersion;
use crate::store::EventStore;

verus! {

/// The view of what the function that names the needed state hands back.
pub open spec fn types_result_view(r: Result<Vec<StateKey>, Error>) -> Result<
    Seq<(Seq<char>, Seq<char>)>,
    ErrorView,
> {
    match r {
        Ok(v) => Ok(v.deep_view()),
        Err(e) => Err(e@),
    }
}

/// The view of a verdict.
pub open spec fn check_result_view(r: Result<bool, Error>) -> Result<bool, ErrorView> {
    match r {
        Ok(b) => Ok(b),
        Err(e) => Err(e@),
    }
}

/// The view of an optional borrowed string.
pub open spec fn option_ref_view(o: Option<&String>) -> Option<Seq<char>> {
    match o {
        Some(s) => Some(s@),
        None => None,
    }
}

/// The view of an optional borrowed event.
pub open spec fn option_event_view(o: Option<&Event>) -> Option<EventView> {
    match o {
        Some(e) => Some(e@),
        None => None,
    }
}

/// Whether the function that names the needed state can be called on every event and
/// answers by the values of its arguments alone.
pub open spec fn auth_types_is_function<
    T: Fn(&TimelineEventType, &String, Option<&String>, &String) -> Result<Vec<StateKey>, Error>,
>(f: T) -> bool {
    &&& forall|k: &TimelineEventType, s: &String, sk: Option<&String>, c: &String| #[trigger]
        f.requires((k, s, sk, c))
    &&& forall|
        k1: &TimelineEventType,
        s1: &String,
        sk1: Option<&String>,
        c1: &String,
        r1: Result<Vec<StateKey>, Error>,
        k2: &TimelineEventType,
        s2: &String,
        sk2: Option<&String>,
        c2: &String,
        r2: Result<Vec<StateKey>, Error>,
    |
        k1@ == k2@ && s1@ == s2@ && option_ref_view(sk1) == option_ref_view(sk2) && c1@ == c2@
            && #[trigger] f.ensures((k1, s1, sk1, c1), r1) && #[trigger] f.ensures(
            (k2, s2, sk2, c2),
            r2,
        ) ==> types_result_view(r1) == types_result_view(r2)
}

/// What the function that names the needed state answers for an event of the given
/// type, sender, state key and content.
pub open spec fn auth_types_result<
    T: Fn(&TimelineEventType, &String, Option<&String>, &String) -> Result<Vec<StateKey>, Error>,
>(f: T, kind: Seq<char>, sender: Seq<char>, state_key: Option<Seq<char>>, content: Seq<char>)
    -> Result<Seq<(Seq<char>, Seq<char>)>, ErrorView> {
    let (k, s, sk, c, r) = choose|
        k: &TimelineEventType,
        s: &String,
        sk: Option<&String>,
        c: &String,
        r: Result<Vec<StateKey>, Error>,
    |
        k@ == kind && s@ == sender && option_ref_view(sk) == state_key && c@ == content
            && #[trigger] f.ensures((k, s, sk, c), r);
    types_result_view(r)
}

/// Whether the authorization check can be called on every event and answers by the
/// values of its arguments alone.
pub open spec fn auth_check_is_function<
    C: Fn(&RoomVersion, &Event, Option<&Event>, &StateMap<&Event>) -> Result<bool, Error>,
>(f: C) -> bool {
    &&& forall|v: &RoomVersion, e: &Event, t: Option<&Event>, c: &StateMap<&Event>| #[trigger]
        f.requires((v, e, t, c))
    &&& forall|
        v1: &RoomVersion,
        e1: &Event,
        t1: Option<&Event>,
        c1: &StateMap<&Event>,
        r1: Result<bool, Error>,
        v2: &RoomVersion,
        e2: &Event,
        t2: Option<&Event>,
        c2: &StateMap<&Event>,
        r2: Result<bool, Error>,
    |
        *v1 == *v2 && e1@ == e2@ && option_event_view(t1) == option_event_view(t2)
            && c1.entries() == c2.entries() && #[trigger] f.ensures((v1, e1, t1, c1), r1)
            && #[trigger] f.ensures((v2, e2, t2, c2), r2) ==> check_result_view(r1)
            == check_result_view(r2)
}

/// The verdict of the authorization check on an event, given the room version, the
/// third-party invite if there is one, and the state that authorizes the event.
pub open spec fn auth_check_result<
    C: Fn(&RoomVersion, &Event, Option<&Event>, &StateMap<&Event>) -> Result<bool, Error>,
>(
    f: C,
    room_version: RoomVersion,
    event: EventView,
    third_party_invite: Option<EventView>,
    auth_context: Seq<((Seq<char>, Seq<char>), EventView)>,
) -> Result<bool, ErrorView> {
    let (v, e, t, c, r) = choose|
        v: &RoomVersion,
        e: &Event,
        t: Option<&Event>,
        c: &StateMap<&Event>,
        r: Result<bool, Error>,
    |
        *v == room_version && e@ == event && option_event_view(t) == third_party_invite
            && c.entries() == auth_context && #[trigger] f.ensures((v, e, t, c), r);
    check_result_view(r)
}

/// The state that an event's own auth events give: each auth event, filed under its type
/// and state key. One that is not known is an error, and so is one without a state key.
pub open spec fn parents_context(events: Map<Seq<char>, EventView>, auth_events: Seq<Seq<char>>)
    -> Result<Seq<((Seq<char>, Seq<char>), EventView)>, ErrorView>
    decreases auth_events.len(),
{
    if auth_events.len() == 0 {
        Ok(Seq::empty())
    } else {
        match parents_context(events, auth_events.drop_last()) {
            Err(e) => Err(e),
            Ok(context) => {
                let aid = auth_events.last();
                if !events.contains_key(aid) {
                    Err(ErrorView::NotFound(aid))
                } else {
                    match events[aid].state_key {
                        None => Err(ErrorView::InvalidPdu(no_state_key_reason())),
                        Some(k) => Ok(entries_insert(context, (events[aid].kind, k), events[aid])),
                    }
                }
            },
        }
    }
}

/// The state after the resolved state has been laid over it: for each of the needed
/// keys that the resolved state holds, the event that it holds takes the place of what
/// the auth events gave. An event of the resolved state that is not known is an error.
pub open spec fn overlay(
    events: Map<Seq<char>, EventView>,
    resolved: Map<(Seq<char>, Seq<char>), Seq<char>>,
    needed: Seq<(Seq<char>, Seq<char>)>,
    context: Seq<((Seq<char>, Seq<char>), EventView)>,
) -> Result<Seq<((Seq<char>, Seq<char>), EventView)>, ErrorView>
    decreases needed.len(),
{
    if needed.len() == 0 {
        Ok(context)
    } else {
        match overlay(events, resolved, needed.drop_last(), context) {
            Err(e) => Err(e),
            Ok(before) => {
                let key = needed.last();
                if !resolved.contains_key(key) {
                    Ok(before)
                } else if !events.contains_key(resolved[key]) {
                    Err(ErrorView::NotFound(resolved[key]))
                } else {
                    Ok(entries_insert(before, key, events[resolved[key]]))
                }
            },
        }
    }
}

/// Once laying over has failed on some of the needed keys, it fails in the same way
/// with more.
proof fn lemma_overlay_error_stays(
    events: Map<Seq<char>, EventView>,
    resolved: Map<(Seq<char>, Seq<char>), Seq<char>>,
    needed: Seq<(Seq<char>, Seq<char>)>,
    context: Seq<((Seq<char>, Seq<char>), EventView)>,
    n: int,
)
    requires
        0 <= n <= needed.len(),
        overlay(events, resolved, needed.take(n), context) is Err,
    ensures
        overlay(events, resolved, needed, context) == overlay(
            events,
            resolved,
            needed.take(n),
            context,
        ),
    decreases needed.len() - n,
{
    if n == needed.len() {
        assert(needed.take(n) =~= needed);
    } else {
        assert(needed.take(n + 1).drop_last() =~= needed.take(n));
        lemma_overlay_error_stays(events, resolved, needed, context, n + 1);
    }
}

/// The first third-party invite in the state that authorizes an event.
pub open spec fn first_third_party_invite(context: Seq<((Seq<char>, Seq<char>), EventView)>)
    -> Option<EventView>
    decreases context.len(),
{
    if context.len() == 0 {
        None
    } else if context[0].1.kind == room_third_party_invite_name() {
        Some(context[0].1)
    } else {
        first_third_party_invite(context.drop_first())
    }
}

/// The resolved state after a verdict on an event: with the event filed under its type
/// and state key if it was accepted, unchanged if it was rejected.
pub open spec fn after_verdict(
    resolved: Map<(Seq<char>, Seq<char>), Seq<char>>,
    kind: Seq<char>,
    state_key: Seq<char>,
    id: Seq<char>,
    verdict: Result<bool, ErrorView>,
) -> Result<Map<(Seq<char>, Seq<char>), Seq<char>>, ErrorView> {
    match verdict {
        Err(e) => Err(e),
        Ok(true) => Ok(resolved.insert((kind, state_key), id)),
        Ok(false) => Ok(resolved),
    }
}

/// The resolved state after one event has been checked: with the event filed under its
/// type and state key if it was accepted, unchanged if it was rejected.
pub open spec fn auth_step<
    T: Fn(&TimelineEventType, &String, Option<&String>, &String) -> Result<Vec<StateKey>, Error>,
    C: Fn(&RoomVersion, &Event, Option<&Event>, &StateMap<&Event>) -> Result<bool, Error>,
>(
    room_version: RoomVersion,
    events: Map<Seq<char>, EventView>,
    auth_types: T,
    auth_check: C,
    resolved: Map<(Seq<char>, Seq<char>), Seq<char>>,
    id: Seq<char>,
) -> Result<Map<(Seq<char>, Seq<char>), Seq<char>>, ErrorView> {
    if !events.contains_key(id) {
        Err(ErrorView::NotFound(id))
    } else {
        let event = events[id];
        match event.state_key {
            None => Err(ErrorView::InvalidPdu(no_state_key_reason())),
            Some(state_key) => match parents_context(events, event.auth_events) {
                Err(e) => Err(e),
                Ok(from_parents) => match auth_types_result(
                    auth_types,
                    event.kind,
                    event.sender,
                    Some(state_key),
                    event.content,
                ) {
                    Err(e) => Err(e),
                    Ok(needed) => match overlay(events, resolved, needed, from_parents) {
                        Err(e) => Err(e),
                        Ok(context) => after_verdict(
                            resolved,
                            event.kind,
                            state_key,
                            id,
                            auth_check_result(
                                auth_check,
                                room_version,
                                event,
                                first_third_party_invite(context),
                                context,
                            ),
                        ),
                    },
                },
            },
        }
    }
}

/// The resolved state after the events have been checked in order, each against the
/// state that the ones before it left.
pub open spec fn iterative_auth<
    T: Fn(&TimelineEventType, &String, Option<&String>, &String) -> Result<Vec<StateKey>, Error>,
    C: Fn(&RoomVersion, &Event, Option<&Event>, &StateMap<&Event>) -> Result<bool, Error>,
>(
    room_version: RoomVersion,
    events: Map<Seq<char>, EventView>,
    auth_types: T,
    auth_check: C,
    resolved: Map<(Seq<char>, Seq<char>), Seq<char>>,
    ids: Seq<Seq<char>>,
) -> Result<Map<(Seq<char>, Seq<char>), Seq<char>>, ErrorView>
    decreases ids.len(),
{
    if ids.len() == 0 {
        Ok(resolved)
    } else {
        match auth_step(room_version, events, auth_types, auth_check, resolved, ids[0]) {
            Err(e) => Err(e),
            Ok(next) => iterative_auth(
                room_version,
                events,
                auth_types,
                auth_check,
                next,
                ids.drop_first(),
            ),
        }
    }
}

/// Gathers the state that an event's own auth events give.
pub fn gather_parents<'a>(events: &'a EventStore, auth_events: &Vec<String>) -> (r: Result<
    StateMap<&'a Event>,
    Error,
>)
    ensures
        match r {
            Ok(context) => parents_context(events@, auth_events.deep_view()) == Ok::<
                Seq<((Seq<char>, Seq<char>), EventView)>,
                ErrorView,
            >(context.entries()),
            Err(e) => parents_context(events@, auth_events.deep_view()) == Err::<
                Seq<((Seq<char>, Seq<char>), EventView)>,
                ErrorView,
            >(e@),
        },
{
    let ghost auth = auth_events.deep_view();
    let mut context: StateMap<&'a Event> = VecMap::new();
    let mut i: usize = 0;
    assert(auth.take(0) =~= Seq::empty());
    while i < auth_events.len()
        invariant
            i <= auth_events@.len(),
            auth == auth_events.deep_view(),
            parents_context(events@, auth.take(i as int)) == Ok::<
                Seq<((Seq<char>, Seq<char>), EventView)>,
                ErrorView,
            >(context.entries()),
        decreases auth_events@.len() - i,
    {
        let ghost next = auth.take(i + 1);
        proof {
            assert(next.drop_last() =~= auth.take(i as int));
            assert(next.last() == auth_events@[i as int]@);
        }
        match events.fetch(&auth_events[i]) {
            None => {
                proof {
                    lemma_parents_error_stays(events@, auth, i + 1);
                }
                return Err(Error::not_found(&auth_events[i]));
            },
            Some(ev) => {
                match &ev.state_key {
                    None => {
                        proof {
                            lemma_parents_error_stays(events@, auth, i + 1);
                        }
                        return Err(Error::no_state_key());
                    },
                    Some(k) => {
                        context.insert((&ev.kind).with_state_key(k.as_str()), ev);
                    },
                }
            },
        }
        i += 1;
    }
    assert(auth.take(i as int) =~= auth);
    Ok(context)
}

/// Once gathering has failed on some auth events, it fails in the same way with more.
proof fn lemma_parents_error_stays(
    events: Map<Seq<char>, EventView>,
    auth_events: Seq<Seq<char>>,
    n: int,
)
    requires
        0 <= n <= auth_events.len(),
        parents_context(events, auth_events.take(n)) is Err,
    ensures
        parents_context(events, auth_events) == parents_context(events, auth_events.take(n)),
    decreases auth_events.len() - n,
{
    if n == auth_events.len() {
        assert(auth_events.take(n) =~= auth_events);
    } else {
        assert(auth_events.take(n + 1).drop_last() =~= auth_events.take(n));
        lemma_parents_error_stays(events, auth_events, n + 1);
    }
}

/// Lays the resolved state over the state that the auth events gave.
pub fn overlay_resolved<'a>(
    context: &mut StateMap<&'a Event>,
    events: &'a EventStore,
    resolved: &StateMap<String>,
    needed: &Vec<StateKey>,
) -> (r: Result<(), Error>)
    ensures
        match r {
            Ok(()) => overlay(events@, resolved@, needed.deep_view(), old(context).entries())
                == Ok::<Seq<((Seq<char>, Seq<char>), EventView)>, ErrorView>(
                final(context).entries(),
            ),
            Err(e) => overlay(events@, resolved@, needed.deep_view(), old(context).entries())
                == Err::<Seq<((Seq<char>, Seq<char>), EventView)>, ErrorView>(e@),
        },
{
    let ghost start = context.entries();
    let ghost keys = needed.deep_view();
    let mut i: usize = 0;
    assert(keys.take(0) =~= Seq::empty());
    while i < needed.len()
        invariant
            i <= needed@.len(),
            keys == needed.deep_view(),
            start == old(context).entries(),
            overlay(events@, resolved@, keys.take(i as int), start) == Ok::<
                Seq<((Seq<char>, Seq<char>), EventView)>,
                ErrorView,
            >(context.entries()),
        decreases needed@.len() - i,
    {
        let key = &needed[i];
        proof {
            assert(keys.take(i + 1).drop_last() =~= keys.take(i as int));
            assert(keys.take(i + 1).last() == key@);
            assert(needed@[i as int].deep_view() == needed@[i as int]@);
        }
        match resolved.get(key) {
            None => {},
            Some(ev_id) => {
                match events.fetch(ev_id) {
                    None => {
                        proof {
                            lemma_overlay_error_stays(events@, resolved@, keys, start, i + 1);
                        }
                        return Err(Error::not_found(ev_id));
                    },
                    Some(ev) => {
                        context.insert(key.key_clone(), ev);
                    },
                }
            },
        }
        i += 1;
    }
    assert(keys.take(i as int) =~= keys);
    Ok(())
}

/// Finds the third-party invite in the state that authorizes an event.
pub fn find_third_party_invite<'a>(context: &StateMap<&'a Event>) -> (r: Option<&'a Event>)
    ensures
        option_event_view(r) == first_third_party_invite(context.entries()),
{
    let ghost all = context.entries();
    let third_party_invite = TimelineEventType::room_third_party_invite();
    let n = context.len();
    let mut i: usize = 0;
    assert(all.skip(0) =~= all);
    while i < n
        invariant
            i <= n,
            n == context.entries().len(),
            all == context.entries(),
            third_party_invite@ == room_third_party_invite_name(),
            first_third_party_invite(all) == first_third_party_invite(all.skip(i as int)),
        decreases n - i,
    {
        let ev: &'a Event = *context.value_at(i);
        proof {
            assert(all.skip(i as int)[0] == all[i as int]);
            assert(all.skip(i as int).drop_first() =~= all.skip(i + 1));
        }
        if ev.kind.same(&third_party_invite) {
            return Some(ev);
        }
        i += 1;
    }
    None
}

/// Whether the authorization check accepts each of the given events, whatever the room
/// version and the state that it is given: every answer that it has for one of them is
/// to accept it.
pub open spec fn accepts_every<
    C: Fn(&RoomVersion, &Event, Option<&Event>, &StateMap<&Event>) -> Result<bool, Error>,
>(auth_check: C, ids: Set<Seq<char>>) -> bool {
    forall|v: &RoomVersion, e: &Event, t: Option<&Event>, c: &StateMap<&Event>, r: Result<bool, Error>|
        ids.contains(e@.event_id) && #[trigger] auth_check.ensures((v, e, t, c), r)
            ==> check_result_view(r) == Ok::<bool, ErrorView>(true)
}

/// Whether the state holds the keys of `before` and files each of the events under the
/// event's own type and state key.
pub open spec fn files_every(
    state: Map<(Seq<char>, Seq<char>), Seq<char>>,
    before: Map<(Seq<char>, Seq<char>), Seq<char>>,
    events: Map<Seq<char>, EventView>,
    ids: Seq<Seq<char>>,
) -> bool {
    &&& forall|k: (Seq<char>, Seq<char>)| #[trigger] before.contains_key(k) ==> state.contains_key(k)
    &&& forall|i: int|
        0 <= i < ids.len() ==> events.contains_key(#[trigger] ids[i])
            && events[ids[i]].state_key_pair() is Some && state.contains_key(
            events[ids[i]].state_key_pair()->Some_0,
        )
}

/// Files an event in the resolved state if the verdict on it is to accept it.
pub fn apply_verdict(
    resolved_state: StateMap<String>,
    kind: &TimelineEventType,
    state_key: &String,
    event_id: &String,
    verdict: Result<bool, Error>,
) -> (r: Result<StateMap<String>, Error>)
    ensures
        match r {
            Ok(next) => after_verdict(
                resolved_state@,
                kind@,
                state_key@,
                event_id@,
                check_result_view(verdict),
            ) == Ok::<Map<(Seq<char>, Seq<char>), Seq<char>>, ErrorView>(next@),
            Err(e) => after_verdict(
                resolved_state@,
                kind@,
                state_key@,
                event_id@,
                check_result_view(verdict),
            ) == Err::<Map<(Seq<char>, Seq<char>), Seq<char>>, ErrorView>(e@),
        },
{
    let mut resolved_state = resolved_state;
    match verdict {
        Err(e) => Err(e),
        Ok(true) => {
            // Add the event to the resolved state.
            resolved_state.insert(kind.with_state_key(state_key.as_str()), event_id.clone());
            Ok(resolved_state)
        },
        Ok(false) => {
            // The event failed the check: it is not added to the resolved state.
            Ok(resolved_state)
        },
    }
}

/// Checks one event against the resolved state and files it there if it is accepted.
pub fn check_one<
    T: Fn(&TimelineEventType, &String, Option<&String>, &String) -> Result<Vec<StateKey>, Error>,
    C: Fn(&RoomVersion, &Event, Option<&Event>, &StateMap<&Event>) -> Result<bool, Error>,
>(
    room_version: &RoomVersion,
    event_id: &String,
    resolved_state: StateMap<String>,
    events: &EventStore,
    auth_types_for_event: &T,
    auth_check: &C,
) -> (r: Result<StateMap<String>, Error>)
    requires
        auth_types_is_function(*auth_types_for_event),
        auth_check_is_function(*auth_check),
    ensures
        match r {
            Ok(next) => auth_step(
                *room_version,
                events@,
                *auth_types_for_event,
                *auth_check,
                resolved_state@,
                event_id@,
            ) == Ok::<Map<(Seq<char>, Seq<char>), Seq<char>>, ErrorView>(next@),
            Err(e) => auth_step(
                *room_version,
                events@,
                *auth_types_for_event,
                *auth_check,
                resolved_state@,
                event_id@,
            ) == Err::<Map<(Seq<char>, Seq<char>), Seq<char>>, ErrorView>(e@),
        },
        r matches Ok(next) ==> (accepts_every(*auth_check, Set::empty().insert(event_id@))
            ==> events@.contains_key(event_id@) && events@[event_id@].state_key_pair() is Some
            && next@ == resolved_state@.insert(
            events@[event_id@].state_key_pair()->Some_0,
            event_id@,
        )),
{
    let event = match events.fetch(event_id) {
        None => {
            return Err(Error::not_found(event_id));
        },
        Some(event) => event,
    };
    let state_key = match &event.state_key {
        None => {
            return Err(Error::no_state_key());
        },
        Some(k) => k,
    };
    let mut auth_events = match gather_parents(events, &event.auth_events) {
        Err(e) => {
            return Err(e);
        },
        Ok(context) => context,
    };
    let answer = auth_types_for_event(&event.kind, &event.sender, Some(state_key), &event.content);
    proof {
        let (k, s, sk, c, a) = choose|
            k: &TimelineEventType,
            s: &String,
            sk: Option<&String>,
            c: &String,
            a: Result<Vec<StateKey>, Error>,
        |
            k@ == event@.kind && s@ == event@.sender && option_ref_view(sk) == Some(state_key@)
                && c@ == event@.content && #[trigger] auth_types_for_event.ensures(
                (k, s, sk, c),
                a,
            );
        assert(auth_types_for_event.ensures(
            (&event.kind, &event.sender, Some(state_key), &event.content),
            answer,
        ));
        assert(types_result_view(a) == types_result_view(answer));
    }
    let needed = match answer {
        Err(e) => {
            return Err(e);
        },
        Ok(needed) => needed,
    };
    match overlay_resolved(&mut auth_events, events, &resolved_state, &needed) {
        Err(e) => {
            return Err(e);
        },
        Ok(()) => {},
    }
    // The key of a third-party invite is the token that was signed, not the sender,
    // so it has to be searched for.
    let current_third_party = find_third_party_invite(&auth_events);
    let verdict = auth_check(room_version, event, current_third_party, &auth_events);
    proof {
        let (v, e, t, c, a) = choose|
            v: &RoomVersion,
            e: &Event,
            t: Option<&Event>,
            c: &StateMap<&Event>,
            a: Result<bool, Error>,
        |
            *v == *room_version && e@ == event@ && option_event_view(t) == option_event_view(
                current_third_party,
            ) && c.entries() == auth_events.entries() && #[trigger] auth_check.ensures(
                (v, e, t, c),
                a,
            );
        assert(auth_check.ensures((room_version, event, current_third_party, &auth_events), verdict));
        assert(check_result_view(a) == check_result_view(verdict));
        assert(Set::<Seq<char>>::empty().insert(event_id@).contains(event@.event_id));
    }
    apply_verdict(resolved_state, &event.kind, state_key, event_id, verdict)
}

/// Check that each event is authenticated based on the events before it.
///
/// Returns the `unconflicted_state` combined with the newly authed events: any event
/// that fails the authorization check is left out of the returned state map.
///
/// For each event of `events_to_check` the events needed to authorize it are gathered
/// from the store and from the state resolved so far, and the event is put to
/// `auth_check`. An event that is needed and cannot be fetched ends the check with
/// `NotFound`: the event itself, one of its auth events, or an event of the resolved
/// state that is laid over them.
#[verifier::loop_isolation(false)]
pub fn iterative_auth_check<
    T: Fn(&TimelineEventType, &String, Option<&String>, &String) -> Result<Vec<StateKey>, Error>,
    C: Fn(&RoomVersion, &Event, Option<&Event>, &StateMap<&Event>) -> Result<bool, Error>,
>(
    room_version: &RoomVersion,
    events_to_check: &Vec<String>,
    unconflicted_state: StateMap<String>,
    events: &EventStore,
    auth_types_for_event: &T,
    auth_check: &C,
) -> (r: Result<StateMap<String>, Error>)
    requires
        auth_types_is_function(*auth_types_for_event),
        auth_check_is_function(*auth_check),
    ensures
        match r {
            Ok(state) => iterative_auth(
                *room_version,
                events@,
                *auth_types_for_event,
                *auth_check,
                unconflicted_state@,
                events_to_check.deep_view(),
            ) == Ok::<Map<(Seq<char>, Seq<char>), Seq<char>>, ErrorView>(state@),
            Err(e) => iterative_auth(
                *room_version,
                events@,
                *auth_types_for_event,
                *auth_check,
                unconflicted_state@,
                events_to_check.deep_view(),
            ) == Err::<Map<(Seq<char>, Seq<char>), Seq<char>>, ErrorView>(e@),
        },
        r matches Ok(state) ==> (accepts_every(
            *auth_check,
            events_to_check.deep_view().to_set(),
        ) ==> files_every(
            state@,
            unconflicted_state@,
            events@,
            events_to_check.deep_view(),
        )),
{
    let ghost ids = events_to_check.deep_view();
    let ghost wanted = iterative_auth(
        *room_version,
        events@,
        *auth_types_for_event,
        *auth_check,
        unconflicted_state@,
        ids,
    );
    let ghost start = unconflicted_state@;
    let mut resolved_state = unconflicted_state;
    let mut i: usize = 0;
    assert(ids.skip(0) =~= ids);
    assert(ids.take(0) =~= Seq::empty());
    while i < events_to_check.len()
        invariant
            i <= events_to_check@.len(),
            ids == events_to_check.deep_view(),
            auth_types_is_function(*auth_types_for_event),
            auth_check_is_function(*auth_check),
            wanted == iterative_auth(
                *room_version,
                events@,
                *auth_types_for_event,
                *auth_check,
                resolved_state@,
                ids.skip(i as int),
            ),
            accepts_every(*auth_check, ids.to_set()) ==> files_every(
                resolved_state@,
                start,
                events@,
                ids.take(i as int),
            ),
        decreases events_to_check@.len() - i,
    {
        let ghost before = resolved_state@;
        let ghost id = events_to_check@[i as int]@;
        proof {
            assert(ids.skip(i as int)[0] == events_to_check@[i as int]@);
            assert(ids.skip(i as int).drop_first() =~= ids.skip(i + 1));
            assert(ids[i as int] == id);
            assert(ids.to_set().contains(id));
            if accepts_every(*auth_check, ids.to_set()) {
                assert(accepts_every(*auth_check, Set::empty().insert(id)));
            }
        }
        match check_one(
            room_version,
            &events_to_check[i],
            resolved_state,
            events,
            auth_types_for_event,
            auth_check,
        ) {
            Err(e) => {
                return Err(e);
            },
            Ok(next) => {
                resolved_state = next;
            },
        }
        proof {
            if accepts_every(*auth_check, ids.to_set()) {
                let done = ids.take(i as int);
                let more = ids.take(i + 1);
                assert forall|t: int| 0 <= t < more.len() implies events@.contains_key(
                    #[trigger] more[t],
                ) && events@[more[t]].state_key_pair() is Some && resolved_state@.contains_key(
                    events@[more[t]].state_key_pair()->Some_0,
                ) by {
                    if t < i {
                        assert(done[t] == more[t]);
                        assert(before.contains_key(events@[done[t]].state_key_pair()->Some_0));
                    }
                }
            }
        }
        i += 1;
    }
    assert(ids.take(i as int) =~= ids);
    Ok(resolved_state)
}

/// Where the entries of the state come from after one check: an entry is either one of
/// the state before, or files the checked event under its own type and state key.
pub proof fn lemma_auth_step_entries<
    T: Fn(&TimelineEventType, &String, Option<&String>, &String) -> Result<Vec<StateKey>, Error>,
    C: Fn(&RoomVersion, &Event, Option<&Event>, &StateMap<&Event>) -> Result<bool, Error>,
>(
    room_version: RoomVersion,
    events: Map<Seq<char>, EventView>,
    auth_types: T,
    auth_check: C,
    resolved: Map<(Seq<char>, Seq<char>), Seq<char>>,
    id: Seq<char>,
)
    ensures
        auth_step(room_version, events, auth_types, auth_check, resolved, id) matches Ok(next)
            ==> forall|k: (Seq<char>, Seq<char>)| #[trigger]
            next.contains_key(k) ==> (resolved.contains_key(k) && next[k] == resolved[k]) || (
            events.contains_key(id) && events[id].state_key_pair() == Some(k) && next[k] == id),
{
}

/// Where the entries of the state come from after the checks: an entry is either one of
/// the state before, or files one of the checked events under its own type and state key.
pub proof fn lemma_iterative_auth_entries<
    T: Fn(&TimelineEventType, &String, Option<&String>, &String) -> Result<Vec<StateKey>, Error>,
    C: Fn(&RoomVersion, &Event, Option<&Event>, &StateMap<&Event>) -> Result<bool, Error>,
>(
    room_version: RoomVersion,
    events: Map<Seq<char>, EventView>,
    auth_types: T,
    auth_check: C,
    resolved: Map<(Seq<char>, Seq<char>), Seq<char>>,
    ids: Seq<Seq<char>>,
)
    ensures
        iterative_auth(room_version, events, auth_types, auth_check, resolved, ids) matches Ok(
            last,
        ) ==> forall|k: (Seq<char>, Seq<char>)| #[trigger]
            last.contains_key(k) ==> (resolved.contains_key(k) && last[k] == resolved[k])
                || exists|i: int|
                0 <= i < ids.len() && events.contains_key(#[trigger] ids[i])
                    && events[ids[i]].state_key_pair() == Some(k) && last[k] == ids[i],
    decreases ids.len(),
{
    if ids.len() > 0 {
        match auth_step(room_version, events, auth_types, auth_check, resolved, ids[0]) {
            Err(_) => {},
            Ok(next) => {
                lemma_auth_step_entries(room_version, events, auth_types, auth_check, resolved, ids[0]);
                lemma_iterative_auth_entries(
                    room_version,
                    events,
                    auth_types,
                    auth_check,
                    next,
                    ids.drop_first(),
                );
                match iterative_auth(
                    room_version,
                    events,
                    auth_types,
                    auth_check,
                    next,
                    ids.drop_first(),
                ) {
                    Err(_) => {},
                    Ok(last) => {
                        assert forall|k: (Seq<char>, Seq<char>)| #[trigger]
                            last.contains_key(k) implies (resolved.contains_key(k) && last[k]
                            == resolved[k]) || exists|i: int|
                            0 <= i < ids.len() && events.contains_key(#[trigger] ids[i])
                                && events[ids[i]].state_key_pair() == Some(k) && last[k]
                                == ids[i] by {
                            if next.contains_key(k) && last[k] == next[k] {
                                if !(resolved.contains_key(k) && next[k] == resolved[k]) {
                                    assert(events.contains_key(ids[0]));
                                }
                            } else {
                                let rest = ids.drop_first();
                                let i = choose|i: int|
                                    0 <= i < rest.len() && events.contains_key(#[trigger] rest[i])
                                        && events[rest[i]].state_key_pair() == Some(k) && last[k]
                                        == rest[i];
                                assert(ids[i + 1] == rest[i]);
                            }
                        }
                    },
                }
            },
        }
    }
}

} // verus!
