//! Which events are control events, and the power level of an event's sender.

use vstd::prelude::*;
use crate::content::{
    member_content_membership, parse_membership, parse_power_levels, power_levels_content,
    PowerLevelsContentFields,
};
use crate::auth::{option_event_view, option_ref_view};
use crate::error::{Error, ErrorView};
use crate::event::{
    is_type_and_key, room_create_name, room_join_rules_name, room_member_name,
    room_power_levels_name, Event, EventView, TimelineEventType,
};
use crate::store::EventStore;

verus! {

/// Whether an event is a control event, given the membership that its content states if
/// it is a member event: one that can change who may do what.
///
/// These are the power-levels, join-rules and create events with the empty state key,
/// and the member events by which one user makes another leave or bans them.
pub open spec fn is_power_event_given(ev: EventView, membership: Option<Seq<char>>) -> bool {
    if ev.kind == room_power_levels_name() || ev.kind == room_join_rules_name() || ev.kind
        == room_create_name() {
        ev.state_key == Some(""@)
    } else if ev.kind == room_member_name() {
        match membership {
            Some(membership) => (membership == "leave"@ || membership == "ban"@) && Some(ev.sender)
                != ev.state_key,
            None => false,
        }
    } else {
        false
    }
}

/// Whether an event is a control event.
pub open spec fn is_power_event_spec(ev: EventView) -> bool {
    is_power_event_given(ev, member_content_membership(ev.content))
}

/// Whether an event is a control event, given the membership that its content states.
pub fn is_power_event_with_membership(event: &Event, membership: Option<&String>) -> (b: bool)
    ensures
        b == is_power_event_given(event@, option_ref_view(membership)),
{
    if event.kind.same(&TimelineEventType::room_power_levels()) || event.kind.same(
        &TimelineEventType::room_join_rules(),
    ) || event.kind.same(&TimelineEventType::room_create()) {
        match &event.state_key {
            Some(k) => *k == "".to_owned(),
            None => false,
        }
    } else if event.kind.same(&TimelineEventType::room_member()) {
        match membership {
            Some(membership) => {
                if *membership == "leave".to_owned() || *membership == "ban".to_owned() {
                    match &event.state_key {
                        Some(k) => !(*k == event.sender),
                        None => true,
                    }
                } else {
                    false
                }
            },
            None => false,
        }
    } else {
        false
    }
}

/// Whether an event is a control event.
pub fn is_power_event(event: &Event) -> (b: bool)
    ensures
        b == is_power_event_spec(event@),
{
    if event.kind.same(&TimelineEventType::room_member()) {
        let membership = parse_membership(event.content.as_str());
        is_power_event_with_membership(event, membership.as_ref())
    } else {
        is_power_event_with_membership(event, None)
    }
}

/// Whether the event with the given id is known and is a control event.
pub fn is_power_event_id(event_id: &String, events: &EventStore) -> (b: bool)
    ensures
        b == (events@.contains_key(event_id@) && is_power_event_spec(events@[event_id@])),
{
    match events.fetch(event_id) {
        Some(event) => is_power_event(event),
        None => false,
    }
}

/// The first of the given auth events that is known and is a power-levels event with
/// the empty state key.
pub open spec fn power_parent(events: Map<Seq<char>, EventView>, auth_events: Seq<Seq<char>>)
    -> Option<EventView>
    decreases auth_events.len(),
{
    if auth_events.len() == 0 {
        None
    } else if events.contains_key(auth_events[0]) && events[auth_events[0]].is_type_and_key(
        room_power_levels_name(),
        ""@,
    ) {
        Some(events[auth_events[0]])
    } else {
        power_parent(events, auth_events.drop_first())
    }
}

/// The power level of the sender of an event at the event's position: what the
/// power-levels event among its auth events gives to the sender, that event's default
/// where it does not list the sender, and zero where there is no such event. `None`
/// where the content of the power-levels event does not parse.
pub open spec fn sender_power_level(events: Map<Seq<char>, EventView>, event_id: Seq<char>)
    -> Option<i64> {
    let auth_events = if events.contains_key(event_id) {
        events[event_id].auth_events
    } else {
        Seq::empty()
    };
    match power_parent(events, auth_events) {
        None => Some(0i64),
        Some(pl) => match power_levels_content(pl.content) {
            None => None,
            Some((users, users_default)) => Some(
                PowerLevelsContentFields::spec_level_of(
                    users,
                    users_default,
                    events[event_id].sender,
                ),
            ),
        },
    }
}

/// The power level that the fields of a power-levels event give to the sender of an
/// event: the default where the event is not known.
pub open spec fn sender_level_given(
    event: Option<EventView>,
    users: Map<Seq<char>, i64>,
    users_default: i64,
) -> i64 {
    match event {
        Some(ev) => PowerLevelsContentFields::spec_level_of(users, users_default, ev.sender),
        None => users_default,
    }
}

/// The power level that the fields of a power-levels event give to the sender of an
/// event.
pub fn sender_level_with(event: Option<&Event>, fields: &PowerLevelsContentFields) -> (level: i64)
    ensures
        level == sender_level_given(option_event_view(event), fields.users@, fields.users_default),
{
    match event {
        Some(ev) => fields.level_of(&ev.sender),
        None => fields.users_default,
    }
}

/// Finds the power-levels event among the given auth events.
pub fn find_power_parent<'a>(events: &'a EventStore, auth_events: &Vec<String>) -> (r: Option<
    &'a Event,
>)
    ensures
        match r {
            Some(ev) => power_parent(events@, auth_events.deep_view()) == Some(ev@),
            None => power_parent(events@, auth_events.deep_view()) is None,
        },
{
    let ghost auth = auth_events.deep_view();
    let power_levels = TimelineEventType::room_power_levels();
    let mut i: usize = 0;
    assert(auth.skip(0) =~= auth);
    while i < auth_events.len()
        invariant
            i <= auth_events@.len(),
            auth == auth_events.deep_view(),
            power_levels@ == room_power_levels_name(),
            power_parent(events@, auth) == power_parent(events@, auth.skip(i as int)),
        decreases auth_events@.len() - i,
    {
        proof {
            assert(auth.skip(i as int)[0] == auth_events@[i as int]@);
            assert(auth.skip(i as int).drop_first() =~= auth.skip(i + 1));
        }
        match events.fetch(&auth_events[i]) {
            Some(aev) => {
                if is_type_and_key(aev, &power_levels, "") {
                    return Some(aev);
                }
            },
            None => {},
        }
        i += 1;
    }
    None
}

/// Find the power level for the sender of `event_id` or return a default value of zero.
///
/// Do NOT use this anywhere but topological sort: it finds the power level for the event
/// at the event's generation, from the power-levels event among its own auth events.
pub fn get_power_level_for_sender(event_id: &String, events: &EventStore) -> (r: Result<i64, Error>)
    ensures
        match r {
            Ok(level) => sender_power_level(events@, event_id@) == Some(level),
            Err(e) => sender_power_level(events@, event_id@) is None && e@ == ErrorView::SerdeJson,
        },
{
    let event = events.fetch(event_id);
    let pl = match event {
        Some(ev) => find_power_parent(events, &ev.auth_events),
        None => {
            assert(power_parent(events@, Seq::empty()) is None);
            None
        },
    };
    match pl {
        None => Ok(0),
        Some(pl_event) => {
            match parse_power_levels(pl_event.content.as_str()) {
                Err(e) => Err(e),
                Ok(fields) => Ok(sender_level_with(event, &fields)),
            }
        },
    }
}

} // verus!
