//! The events that a resolution can look at.

use vstd::prelude::*;
use crate::assoc::VecMap;
use crate::event::{Event, EventView};

verus! {

/// The events that this server can fetch, by id, each with the answer to the question
/// whether it exists for this server.
///
/// A resolution fetches every event it reads from here. Only events that exist are
/// honored as candidates of a conflict; an event that can be fetched but does not
/// exist still serves where another event cites it.
pub struct EventStore {
    events: VecMap<String, (Event, bool)>,
}

/// Every event is filed under its own id.
pub open spec fn filed_by_id(events: Map<Seq<char>, EventView>) -> bool {
    forall|id: Seq<char>| #[trigger] events.contains_key(id) ==> events[id].event_id == id
}

impl View for EventStore {
    type V = Map<Seq<char>, EventView>;

    /// The events that can be fetched.
    closed spec fn view(&self) -> Map<Seq<char>, EventView> {
        Map::new(|id: Seq<char>| self.events@.contains_key(id), |id: Seq<char>| self.events@[id].0)
    }
}

impl EventStore {
    #[verifier::type_invariant]
    spec fn well_filed(self) -> bool {
        forall|id: Seq<char>| #[trigger]
            self.events@.contains_key(id) ==> self.events@[id].0.event_id == id
    }

    /// The ids of the events that exist. Each of them can be fetched.
    pub closed spec fn existing(&self) -> Set<Seq<char>> {
        Set::new(|id: Seq<char>| self.events@.contains_key(id) && self.events@[id].1)
    }

    /// Every event that exists can be fetched.
    pub proof fn lemma_existing_can_be_fetched(&self)
        ensures
            self.existing().subset_of(self@.dom()),
    {
    }

    pub fn new() -> (r: Self)
        ensures
            r@ == Map::<Seq<char>, EventView>::empty(),
            r.existing() == Set::<Seq<char>>::empty(),
    {
        let r = EventStore { events: VecMap::new() };
        assert(r@ =~= Map::<Seq<char>, EventView>::empty());
        assert(r.existing() =~= Set::<Seq<char>>::empty());
        r
    }

    /// The number of events. Also tells a caller that the store is finite and filed by id.
    pub fn len(&self) -> (n: usize)
        ensures
            n == self@.dom().len(),
            self@.dom().finite(),
            filed_by_id(self@),
    {
        proof {
            use_type_invariant(self);
            assert(self@.dom() =~= self.events@.dom());
        }
        self.events.len()
    }

    fn file(&mut self, event: Event, exists: bool)
        ensures
            final(self)@ == old(self)@.insert(event@.event_id, event@),
            final(self).existing() == (if exists {
                old(self).existing().insert(event@.event_id)
            } else {
                old(self).existing().remove(event@.event_id)
            }),
    {
        proof {
            use_type_invariant(&*self);
        }
        let ghost before = *self;
        let mut emptied = EventStore { events: VecMap::new() };
        core::mem::swap(self, &mut emptied);
        let mut events = emptied.events;
        let id = event.event_id.clone();
        events.insert(id, (event, exists));
        *self = EventStore { events };
        proof {
            assert(self@ =~= before@.insert(event@.event_id, event@));
            if exists {
                assert(self.existing() =~= before.existing().insert(event@.event_id));
            } else {
                assert(self.existing() =~= before.existing().remove(event@.event_id));
            }
        }
    }

    /// Files an event that exists under its id, in place of an earlier event with that id.
    pub fn insert(&mut self, event: Event)
        ensures
            final(self)@ == old(self)@.insert(event@.event_id, event@),
            final(self).existing() == old(self).existing().insert(event@.event_id),
    {
        self.file(event, true)
    }

    /// Files an event that can be fetched but does not exist for this server, in place of
    /// an earlier event with that id.
    pub fn insert_unverified(&mut self, event: Event)
        ensures
            final(self)@ == old(self)@.insert(event@.event_id, event@),
            final(self).existing() == old(self).existing().remove(event@.event_id),
    {
        self.file(event, false)
    }

    /// The event with the given id, if it can be fetched.
    pub fn fetch(&self, event_id: &String) -> (r: Option<&Event>)
        ensures
            r is Some == self@.contains_key(event_id@),
            r matches Some(e) ==> e@ == self@[event_id@] && e@.event_id == event_id@,
    {
        proof {
            use_type_invariant(self);
        }
        match self.events.get(event_id) {
            Some(filed) => Some(&filed.0),
            None => None,
        }
    }

    /// Whether an event with the given id exists.
    pub fn event_exists(&self, event_id: &String) -> (b: bool)
        ensures
            b == self.existing().contains(event_id@),
            b ==> self@.contains_key(event_id@),
    {
        match self.events.get(event_id) {
            Some(filed) => filed.1,
            None => false,
        }
    }
}

} // verus!
