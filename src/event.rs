//! The event record, its creation request, and their mathematical views.

use vstd::prelude::*;

verus! {

/// The free-form properties of an event: a JSON object.
pub type Properties = serde_json::Map<String, serde_json::Value>;

/// A point in time in UTC: whole seconds since the Unix epoch and the
/// nanoseconds within that second.
#[derive(Clone, Copy, Debug, PartialEq, Eq, Structural)]
pub struct Timestamp {
    pub secs: i64,
    pub nanos: u32,
}

impl Timestamp {
    /// `self` is strictly later than `other`.
    pub open spec fn later_than(self, other: Timestamp) -> bool {
        self.secs > other.secs || (self.secs == other.secs && self.nanos > other.nanos)
    }

    pub fn is_later_than(&self, other: &Timestamp) -> (r: bool)
        ensures
            r == self.later_than(*other),
    {
        self.secs > other.secs || (self.secs == other.secs && self.nanos > other.nanos)
    }
}

/// What a client supplies to create an event.
#[derive(Debug)]
pub struct CreateEventRequest {
    pub event_type: String,
    pub user_id: Option<String>,
    pub properties: Properties,
}

/// A stored analytics event. The store assigns `id` and `timestamp`.
#[derive(Debug)]
pub struct AnalyticsEvent {
    pub id: u128,
    pub event_type: String,
    pub user_id: Option<String>,
    pub properties: Properties,
    pub timestamp: Timestamp,
}

/// The mathematical value of an event.
pub struct EventView {
    pub id: u128,
    pub event_type: Seq<char>,
    pub user_id: Option<Seq<char>>,
    pub properties: Properties,
    pub timestamp: Timestamp,
}

pub open spec fn opt_str_view(o: Option<String>) -> Option<Seq<char>> {
    match o {
        Some(s) => Some(s@),
        None => None,
    }
}

impl View for AnalyticsEvent {
    type V = EventView;

    open spec fn view(&self) -> EventView {
        EventView {
            id: self.id,
            event_type: self.event_type@,
            user_id: opt_str_view(self.user_id),
            properties: self.properties,
            timestamp: self.timestamp,
        }
    }
}

/// The event that a request becomes under the given id and timestamp.
pub open spec fn event_from_request(
    request: CreateEventRequest,
    id: u128,
    timestamp: Timestamp,
) -> EventView {
    EventView {
        id,
        event_type: request.event_type@,
        user_id: opt_str_view(request.user_id),
        properties: request.properties,
        timestamp,
    }
}

/// The views of a sequence of events.
pub open spec fn events_view(events: Seq<AnalyticsEvent>) -> Seq<EventView> {
    events.map_values(|e: AnalyticsEvent| e@)
}

fn copy_optional_string(o: &Option<String>) -> (r: Option<String>)
    ensures
        r == *o,
{
    match o {
        Some(s) => Some(s.clone()),
        None => None,
    }
}

impl AnalyticsEvent {
    /// A copy of this event, equal to it in every field.
    pub fn snapshot(&self) -> (r: AnalyticsEvent)
        ensures
            r == *self,
    {
        AnalyticsEvent {
            id: self.id,
            event_type: self.event_type.clone(),
            user_id: copy_optional_string(&self.user_id),
            properties: self.properties.clone(),
            timestamp: self.timestamp,
        }
    }
}

} // verus!
