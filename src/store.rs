//! The event store: a create-only collection of events with unique ids.

use vstd::prelude::*;
use vstd::set_lib::{lemma_int_range, lemma_len_subset, set_int_range};

use crate::event::{
    event_from_request, events_view, AnalyticsEvent, CreateEventRequest, EventView, Timestamp,
};
use crate::outside::{current_time, random_id};
use crate::stats::{count_by_type, count_sum, is_recent_events, is_type_table, most_recent};

verus! {

/// How many of the most recent events the statistics report.
pub const RECENT_LIMIT: usize = 10;

/// Why a store operation did not succeed.
#[derive(Clone, Copy, Debug, PartialEq, Eq, Structural)]
pub enum StoreError {
    /// The request's event type is empty.
    MissingEventType,
    /// The id drawn for a new event is already taken.
    DuplicateId,
    /// No event has the requested id.
    NotFound,
}

/// Aggregate statistics over the whole store.
#[derive(Debug)]
pub struct EventStats {
    pub total_events: usize,
    /// One `(event type, count)` entry per event type that occurs.
    pub events_by_type: Vec<(String, usize)>,
    /// The most recent events, most recent first.
    pub recent_events: Vec<AnalyticsEvent>,
}

/// No two events of `s` share an id.
pub open spec fn ids_unique(s: Seq<EventView>) -> bool {
    forall|i: int, j: int| 0 <= i < s.len() && 0 <= j < s.len() && i != j ==> s[i].id != s[j].id
}

/// Some event of `s` has id `id`.
pub open spec fn has_id(s: Seq<EventView>, id: u128) -> bool {
    exists|i: int| 0 <= i < s.len() && #[trigger] s[i].id == id
}

/// A lookup right after a create finds the created event: when an event with
/// a fresh id is appended to a store with unique ids, ids stay unique, the id
/// is found, and the only event with that id is the appended one.
pub proof fn lemma_get_after_create(s: Seq<EventView>, e: EventView)
    requires
        ids_unique(s),
        !has_id(s, e.id),
    ensures
        ids_unique(s.push(e)),
        has_id(s.push(e), e.id),
        forall|x: EventView| #[trigger] s.push(e).contains(x) && x.id == e.id ==> x == e,
{
    let t = s.push(e);
    assert(t[s.len() as int] == e);
    assert forall|x: EventView| #[trigger] t.contains(x) && x.id == e.id implies x == e by {
        let k = choose|k: int| 0 <= k < t.len() && t[k] == x;
        if k < s.len() {
            assert(s[k] == t[k]);
        }
    }
}

/// The events in the order in which they were created.
pub struct EventStore {
    events: Vec<AnalyticsEvent>,
}

impl View for EventStore {
    type V = Seq<EventView>;

    closed spec fn view(&self) -> Seq<EventView> {
        events_view(self.events@)
    }
}

impl EventStore {
    /// Event ids are unique.
    #[verifier::type_invariant]
    spec fn ids_are_unique(&self) -> bool {
        ids_unique(events_view(self.events@))
    }

    /// An empty store.
    pub fn new() -> (r: EventStore)
        ensures
            r@ == Seq::<EventView>::empty(),
    {
        let r = EventStore { events: Vec::new() };
        assert(r@ =~= Seq::<EventView>::empty());
        r
    }

    /// The number of events stored.
    pub fn len(&self) -> (r: usize)
        ensures
            r == self@.len(),
    {
        self.events.len()
    }

    /// A copy of every event, in creation order.
    pub fn list(&self) -> (r: Vec<AnalyticsEvent>)
        ensures
            events_view(r@) == self@,
            ids_unique(self@),
    {
        proof {
            use_type_invariant(self);
        }
        let mut r: Vec<AnalyticsEvent> = Vec::new();
        let mut i: usize = 0;
        while i < self.events.len()
            invariant
                i <= self.events@.len(),
                events_view(r@) == self@.subrange(0, i as int),
            decreases self.events@.len() - i,
        {
            let ghost prev = r@;
            r.push(self.events[i].snapshot());
            assert(events_view(r@) =~= self@.subrange(0, i + 1)) by {
                assert(events_view(prev).len() == prev.len());
                assert forall|a: int| 0 <= a < i implies #[trigger] r@[a] == prev[a] by {}
            }
            i = i + 1;
        }
        assert(self@.subrange(0, self.events@.len() as int) =~= self@);
        r
    }

    /// A copy of the event with id `id`, or `NotFound` when there is none.
    pub fn get(&self, id: u128) -> (r: Result<AnalyticsEvent, StoreError>)
        ensures
            match r {
                Ok(e) => e@.id == id && self@.contains(e@),
                Err(err) => err == StoreError::NotFound && !has_id(self@, id),
            },
            ids_unique(self@),
    {
        proof {
            use_type_invariant(self);
        }
        let mut i: usize = 0;
        while i < self.events.len()
            invariant
                ids_unique(self@),
                i <= self.events@.len(),
                forall|k: int| 0 <= k < i ==> #[trigger] self@[k].id != id,
            decreases self.events@.len() - i,
        {
            if self.events[i].id == id {
                let e = self.events[i].snapshot();
                assert(self@[i as int] == e@);
                return Ok(e);
            }
            i = i + 1;
        }
        Err(StoreError::NotFound)
    }

    /// Stores a new event made from `request` under the given id and
    /// timestamp, and returns a copy of it. Fails, leaving the store as it
    /// was, when the event type is empty, or else when `id` is taken.
    pub fn insert_event(&mut self, id: u128, timestamp: Timestamp, request: CreateEventRequest)
        -> (r: Result<AnalyticsEvent, StoreError>)
        ensures
            ids_unique(final(self)@),
            match r {
                Ok(e) => {
                    &&& e@ == event_from_request(request, id, timestamp)
                    &&& !has_id(old(self)@, id)
                    &&& final(self)@ == old(self)@.push(e@)
                },
                Err(err) => {
                    &&& final(self)@ == old(self)@
                    &&& err == StoreError::MissingEventType <==> request.event_type@.len() == 0
                    &&& err == StoreError::DuplicateId <==> request.event_type@.len() > 0
                        && has_id(old(self)@, id)
                    &&& err != StoreError::NotFound
                },
            },
    {
        proof {
            use_type_invariant(&*self);
        }
        if request.event_type.as_str().is_empty() {
            return Err(StoreError::MissingEventType);
        }
        let mut i: usize = 0;
        while i < self.events.len()
            invariant
                *self == *old(self),
                ids_unique(self@),
                request.event_type@.len() > 0,
                i <= self.events@.len(),
                forall|k: int| 0 <= k < i ==> #[trigger] self@[k].id != id,
            decreases self.events@.len() - i,
        {
            if self.events[i].id == id {
                assert(self@[i as int].id == id);
                return Err(StoreError::DuplicateId);
            }
            i = i + 1;
        }
        let event = AnalyticsEvent {
            id,
            event_type: request.event_type,
            user_id: request.user_id,
            properties: request.properties,
            timestamp,
        };
        let copy = event.snapshot();
        let mut events: Vec<AnalyticsEvent> = Vec::new();
        std::mem::swap(&mut events, &mut self.events);
        let ghost before = events@;
        assert(events_view(before) == old(self)@);
        events.push(event);
        assert(events_view(events@) =~= old(self)@.push(copy@)) by {
            assert(events@ == before.push(copy));
        }
        self.events = events;
        Ok(copy)
    }

    /// Whether some event has id `id`.
    pub fn contains_id(&self, id: u128) -> (r: bool)
        ensures
            r == has_id(self@, id),
    {
        let mut i: usize = 0;
        while i < self.events.len()
            invariant
                i <= self.events@.len(),
                forall|k: int| 0 <= k < i ==> #[trigger] self@[k].id != id,
            decreases self.events@.len() - i,
        {
            if self.events[i].id == id {
                assert(self@[i as int].id == id);
                return true;
            }
            i = i + 1;
        }
        false
    }

    /// The least id that no event has.
    pub fn least_unused_id(&self) -> (r: u128)
        ensures
            !has_id(self@, r),
            forall|c: u128| c < r ==> has_id(self@, c),
    {
        proof {
            use_type_invariant(self);
        }
        let n = self.events.len();
        let mut c: usize = 0;
        loop
            invariant
                c <= n,
                n == self@.len(),
                ids_unique(self@),
                forall|d: u128| d < c ==> has_id(self@, d),
            decreases n - c,
        {
            if !self.contains_id(c as u128) {
                return c as u128;
            }
            if c == n {
                // every id in 0..=n is taken: n + 1 distinct ids among n events
                proof {
                    let ids = self@.map_values(|e: EventView| e.id as int);
                    assert(set_int_range(0, n + 1).subset_of(ids.to_set())) by {
                        assert forall|d: int| set_int_range(0, n + 1).contains(d) implies ids.to_set().contains(d) by {
                            assert(has_id(self@, d as u128));
                            let k = choose|k: int| 0 <= k < self@.len() && #[trigger] self@[k].id == d as u128;
                            assert(ids[k] == d);
                        }
                    }
                    lemma_int_range(0, n + 1);
                    ids.lemma_cardinality_of_set();
                    lemma_len_subset(set_int_range(0, n + 1), ids.to_set());
                }
                assert(false);
            }
            c = c + 1;
        }
    }

    /// Creates an event from `request`, with a fresh id and the current time,
    /// and returns a copy of it. The id is drawn at random; where that one is
    /// taken, the least unused id stands in. Fails, leaving the store as it
    /// was, exactly when the event type is empty.
    pub fn create(&mut self, request: CreateEventRequest) -> (r: Result<AnalyticsEvent, StoreError>)
        ensures
            ids_unique(final(self)@),
            match r {
                Ok(e) => {
                    &&& request.event_type@.len() > 0
                    &&& e@ == event_from_request(request, e@.id, e@.timestamp)
                    &&& !has_id(old(self)@, e@.id)
                    &&& final(self)@ == old(self)@.push(e@)
                },
                Err(err) => {
                    &&& request.event_type@.len() == 0
                    &&& err == StoreError::MissingEventType
                    &&& final(self)@ == old(self)@
                },
            },
    {
        proof {
            use_type_invariant(&*self);
        }
        if request.event_type.as_str().is_empty() {
            return Err(StoreError::MissingEventType);
        }
        let drawn = random_id();
        let id = if self.contains_id(drawn) {
            self.least_unused_id()
        } else {
            drawn
        };
        let (secs, nanos) = current_time();
        self.insert_event(id, Timestamp { secs, nanos }, request)
    }

    /// The number of events, the number of events of each type, and copies of
    /// the most recent events, most recent first.
    pub fn stats(&self) -> (r: EventStats)
        ensures
            r.total_events == self@.len(),
            is_type_table(self@, r.events_by_type@),
            count_sum(r.events_by_type@) == r.total_events,
            is_recent_events(self@, events_view(r.recent_events@), RECENT_LIMIT as nat),
    {
        EventStats {
            total_events: self.events.len(),
            events_by_type: count_by_type(&self.events),
            recent_events: most_recent(&self.events, RECENT_LIMIT),
        }
    }
}

} // verus!
