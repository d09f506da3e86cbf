//! Events as state resolution sees them, and the keys under which state is filed.

use vstd::prelude::*;
use crate::assoc::{Key, VecMap};

verus! {

/// The type of an event on a room's timeline, by its name (`m.room.member`, ...).
#[derive(Clone, Debug, PartialEq, Eq, Hash)]
pub struct TimelineEventType {
    pub name: String,
}

/// The type of a state event, by its name.
#[derive(Clone, Debug, PartialEq, Eq, Hash)]
pub struct StateEventType {
    pub name: String,
}

/// An event type together with a state key: the place of a state event in a room's state.
pub type StateKey = (StateEventType, String);

/// A mapping of event type and state key to some value, usually an event id.
pub type StateMap<T> = VecMap<StateKey, T>;

/// The name of the event that creates a room.
pub open spec fn room_create_name() -> Seq<char> {
    "m.room.create"@
}

/// The name of the event that sets a room's join rules.
pub open spec fn room_join_rules_name() -> Seq<char> {
    "m.room.join_rules"@
}

/// The name of the event that states a user's membership.
pub open spec fn room_member_name() -> Seq<char> {
    "m.room.member"@
}

/// The name of the event that sets a room's power levels.
pub open spec fn room_power_levels_name() -> Seq<char> {
    "m.room.power_levels"@
}

/// The name of the event that records an invitation through a third party.
pub open spec fn room_third_party_invite_name() -> Seq<char> {
    "m.room.third_party_invite"@
}

impl View for TimelineEventType {
    type V = Seq<char>;

    open spec fn view(&self) -> Seq<char> {
        self.name@
    }
}

impl DeepView for TimelineEventType {
    type V = Seq<char>;

    open spec fn deep_view(&self) -> Seq<char> {
        self.name@
    }
}

impl View for StateEventType {
    type V = Seq<char>;

    open spec fn view(&self) -> Seq<char> {
        self.name@
    }
}

impl DeepView for StateEventType {
    type V = Seq<char>;

    open spec fn deep_view(&self) -> Seq<char> {
        self.name@
    }
}

impl TimelineEventType {
    pub fn new(name: &str) -> (r: Self)
        ensures
            r@ == name@,
    {
        TimelineEventType { name: name.to_owned() }
    }

    pub fn room_create() -> (r: Self)
        ensures
            r@ == room_create_name(),
    {
        TimelineEventType { name: "m.room.create".to_owned() }
    }

    pub fn room_join_rules() -> (r: Self)
        ensures
            r@ == room_join_rules_name(),
    {
        TimelineEventType { name: "m.room.join_rules".to_owned() }
    }

    pub fn room_member() -> (r: Self)
        ensures
            r@ == room_member_name(),
    {
        TimelineEventType { name: "m.room.member".to_owned() }
    }

    pub fn room_power_levels() -> (r: Self)
        ensures
            r@ == room_power_levels_name(),
    {
        TimelineEventType { name: "m.room.power_levels".to_owned() }
    }

    pub fn room_third_party_invite() -> (r: Self)
        ensures
            r@ == room_third_party_invite_name(),
    {
        TimelineEventType { name: "m.room.third_party_invite".to_owned() }
    }

    /// Whether two event types are the same.
    pub fn same(&self, other: &Self) -> (b: bool)
        ensures
            b == (self@ == other@),
    {
        self.name == other.name
    }
}

impl StateEventType {
    pub fn new(name: &str) -> (r: Self)
        ensures
            r@ == name@,
    {
        StateEventType { name: name.to_owned() }
    }

    pub fn room_create() -> (r: Self)
        ensures
            r@ == room_create_name(),
    {
        StateEventType { name: "m.room.create".to_owned() }
    }

    pub fn room_join_rules() -> (r: Self)
        ensures
            r@ == room_join_rules_name(),
    {
        StateEventType { name: "m.room.join_rules".to_owned() }
    }

    pub fn room_member() -> (r: Self)
        ensures
            r@ == room_member_name(),
    {
        StateEventType { name: "m.room.member".to_owned() }
    }

    pub fn room_power_levels() -> (r: Self)
        ensures
            r@ == room_power_levels_name(),
    {
        StateEventType { name: "m.room.power_levels".to_owned() }
    }

    pub fn room_third_party_invite() -> (r: Self)
        ensures
            r@ == room_third_party_invite_name(),
    {
        StateEventType { name: "m.room.third_party_invite".to_owned() }
    }
}

impl Key for StateKey {
    fn key_eq(&self, other: &Self) -> (b: bool) {
        self.0.name == other.0.name && self.1 == other.1
    }

    fn key_clone(&self) -> (r: Self) {
        (StateEventType { name: self.0.name.clone() }, self.1.clone())
    }
}

/// Convenience trait for adding event type plus state key to state maps.
pub trait EventTypeExt: Sized {
    /// The name of the state event type that this type stands for.
    spec fn state_type_name(&self) -> Seq<char>;

    fn with_state_key(self, state_key: &str) -> (r: StateKey)
        ensures
            r@ == (self.state_type_name(), state_key@),
    ;
}

impl EventTypeExt for StateEventType {
    open spec fn state_type_name(&self) -> Seq<char> {
        self@
    }

    fn with_state_key(self, state_key: &str) -> (r: StateKey) {
        (self, state_key.to_owned())
    }
}

impl EventTypeExt for TimelineEventType {
    open spec fn state_type_name(&self) -> Seq<char> {
        self@
    }

    fn with_state_key(self, state_key: &str) -> (r: StateKey) {
        (StateEventType { name: self.name }, state_key.to_owned())
    }
}

impl EventTypeExt for &StateEventType {
    open spec fn state_type_name(&self) -> Seq<char> {
        self@
    }

    fn with_state_key(self, state_key: &str) -> (r: StateKey) {
        (StateEventType { name: self.name.clone() }, state_key.to_owned())
    }
}

impl EventTypeExt for &TimelineEventType {
    open spec fn state_type_name(&self) -> Seq<char> {
        self@
    }

    fn with_state_key(self, state_key: &str) -> (r: StateKey) {
        (StateEventType { name: self.name.clone() }, state_key.to_owned())
    }
}

/// An event, with what state resolution reads of it.
#[derive(Clone, Debug)]
pub struct Event {
    /// The event's identifier.
    pub event_id: String,
    /// The event's type.
    pub kind: TimelineEventType,
    /// The state key, if this is a state event. The empty string is a state key.
    pub state_key: Option<String>,
    /// The user who sent the event.
    pub sender: String,
    /// The event's content, as JSON text.
    pub content: String,
    /// The ids of the events that this event cites to be authorized.
    pub auth_events: Vec<String>,
    /// The origin server's timestamp, in milliseconds.
    pub origin_server_ts: u64,
}

/// The mathematical value of an `Event`.
pub struct EventView {
    pub event_id: Seq<char>,
    pub kind: Seq<char>,
    pub state_key: Option<Seq<char>>,
    pub sender: Seq<char>,
    pub content: Seq<char>,
    pub auth_events: Seq<Seq<char>>,
    pub origin_server_ts: u64,
}

impl View for Event {
    type V = EventView;

    open spec fn view(&self) -> EventView {
        EventView {
            event_id: self.event_id@,
            kind: self.kind@,
            state_key: match self.state_key {
                Some(k) => Some(k@),
                None => None,
            },
            sender: self.sender@,
            content: self.content@,
            auth_events: self.auth_events.deep_view(),
            origin_server_ts: self.origin_server_ts,
        }
    }
}

impl DeepView for Event {
    type V = EventView;

    open spec fn deep_view(&self) -> EventView {
        self.view()
    }
}

impl EventView {
    /// Where this event is filed in a room's state, if it is a state event.
    pub open spec fn state_key_pair(self) -> Option<(Seq<char>, Seq<char>)> {
        match self.state_key {
            Some(k) => Some((self.kind, k)),
            None => None,
        }
    }

    /// Whether the event has the given type and state key.
    pub open spec fn is_type_and_key(self, kind: Seq<char>, state_key: Seq<char>) -> bool {
        self.kind == kind && self.state_key == Some(state_key)
    }
}

impl Event {
    pub fn new(
        event_id: &str,
        kind: TimelineEventType,
        state_key: Option<&str>,
        sender: &str,
        content: &str,
        auth_events: Vec<String>,
        origin_server_ts: u64,
    ) -> (r: Self)
        ensures
            r@ == (EventView {
                event_id: event_id@,
                kind: kind@,
                state_key: match state_key {
                    Some(k) => Some(k@),
                    None => None,
                },
                sender: sender@,
                content: content@,
                auth_events: auth_events.deep_view(),
                origin_server_ts,
            }),
    {
        Event {
            event_id: event_id.to_owned(),
            kind,
            state_key: match state_key {
                Some(k) => Some(k.to_owned()),
                None => None,
            },
            sender: sender.to_owned(),
            content: content.to_owned(),
            auth_events,
            origin_server_ts,
        }
    }
}

impl Event {
    /// The event's identifier.
    pub fn event_id(&self) -> (r: &String)
        ensures
            r@ == self@.event_id,
    {
        &self.event_id
    }

    /// The event's type.
    pub fn event_type(&self) -> (r: &TimelineEventType)
        ensures
            r@ == self@.kind,
    {
        &self.kind
    }

    /// The state key, if this is a state event.
    pub fn state_key(&self) -> (r: Option<&String>)
        ensures
            match r {
                Some(k) => self@.state_key == Some(k@),
                None => self@.state_key is None,
            },
    {
        match &self.state_key {
            Some(k) => Some(k),
            None => None,
        }
    }

    /// The user who sent the event.
    pub fn sender(&self) -> (r: &String)
        ensures
            r@ == self@.sender,
    {
        &self.sender
    }

    /// The event's content, as JSON text.
    pub fn content(&self) -> (r: &String)
        ensures
            r@ == self@.content,
    {
        &self.content
    }

    /// The ids of the events that this event cites to be authorized.
    pub fn auth_events(&self) -> (r: &Vec<String>)
        ensures
            r.deep_view() == self@.auth_events,
    {
        &self.auth_events
    }

    /// The origin server's timestamp, in milliseconds.
    pub fn origin_server_ts(&self) -> (r: u64)
        ensures
            r == self@.origin_server_ts,
    {
        self.origin_server_ts
    }
}

/// Whether the event has the given type and state key.
pub fn is_type_and_key(ev: &Event, ev_type: &TimelineEventType, state_key: &str) -> (b: bool)
    ensures
        b == ev@.is_type_and_key(ev_type@, state_key@),
{
    match &ev.state_key {
        Some(k) => ev.kind.same(ev_type) && *k == state_key.to_owned(),
        None => false,
    }
}

} // verus!
