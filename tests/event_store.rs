use analytics_store::event::{AnalyticsEvent, CreateEventRequest, Properties, Timestamp};
use analytics_store::stats::{count_by_type, most_recent};
use analytics_store::store::{EventStore, StoreError, RECENT_LIMIT};
use serde_json::Value;

fn request(event_type: &str, user_id: Option<&str>) -> CreateEventRequest {
    CreateEventRequest {
        event_type: event_type.to_string(),
        user_id: user_id.map(|u| u.to_string()),
        properties: Properties::new(),
    }
}

fn at(secs: i64, nanos: u32) -> Timestamp {
    Timestamp { secs, nanos }
}

fn count_of(table: &[(String, usize)], event_type: &str) -> Option<usize> {
    table.iter().find(|(t, _)| t == event_type).map(|(_, c)| *c)
}

#[test]
fn create_click_event_then_get_returns_it() {
    let mut store = EventStore::new();
    let mut properties = Properties::new();
    properties.insert("x".to_string(), Value::from(1));
    let req = CreateEventRequest {
        event_type: "click".to_string(),
        user_id: Some("u1".to_string()),
        properties: properties.clone(),
    };
    let before = std::time::SystemTime::now()
        .duration_since(std::time::UNIX_EPOCH)
        .unwrap()
        .as_secs() as i64;
    let created = store.create(req).unwrap();
    let after = std::time::SystemTime::now()
        .duration_since(std::time::UNIX_EPOCH)
        .unwrap()
        .as_secs() as i64;
    assert_eq!(created.event_type, "click");
    assert_eq!(created.user_id.as_deref(), Some("u1"));
    assert_eq!(created.properties, properties);
    assert_eq!(created.properties.get("x"), Some(&Value::from(1)));
    assert!(created.timestamp.secs >= before && created.timestamp.secs <= after);
    assert!(created.timestamp.nanos < 1_000_000_000);
    // a version-4 UUID carries its version in these bits
    assert_eq!((created.id >> 76) & 0xF, 4);

    let found = store.get(created.id).unwrap();
    assert_eq!(found.id, created.id);
    assert_eq!(found.event_type, created.event_type);
    assert_eq!(found.user_id, created.user_id);
    assert_eq!(found.properties, created.properties);
    assert_eq!(found.timestamp, created.timestamp);
}

#[test]
fn get_unknown_id_is_not_found() {
    let mut store = EventStore::new();
    assert_eq!(store.get(7).unwrap_err(), StoreError::NotFound);
    let e = store.insert_event(1, at(10, 0), request("view", None)).unwrap();
    assert_eq!(e.id, 1);
    assert_eq!(store.get(2).unwrap_err(), StoreError::NotFound);
    assert_eq!(store.get(1).unwrap().event_type, "view");
}

#[test]
fn created_ids_are_distinct() {
    let mut store = EventStore::new();
    let mut ids: Vec<u128> = Vec::new();
    for _ in 0..50 {
        ids.push(store.create(request("click", None)).unwrap().id);
    }
    let mut sorted = ids.clone();
    sorted.sort();
    sorted.dedup();
    assert_eq!(sorted.len(), 50);
}

#[test]
fn list_length_counts_successful_creates() {
    let mut store = EventStore::new();
    assert_eq!(store.list().len(), 0);
    store.create(request("a", None)).unwrap();
    store.create(request("b", Some("u2"))).unwrap();
    assert!(store.create(request("", None)).is_err());
    store.create(request("c", None)).unwrap();
    let listed = store.list();
    assert_eq!(listed.len(), 3);
    assert_eq!(store.len(), 3);
    let types: Vec<&str> = listed.iter().map(|e| e.event_type.as_str()).collect();
    assert_eq!(types, vec!["a", "b", "c"]);
    assert_eq!(listed[1].user_id.as_deref(), Some("u2"));
}

#[test]
fn stats_total_matches_list() {
    let mut store = EventStore::new();
    assert_eq!(store.stats().total_events, 0);
    for i in 0..4 {
        store.insert_event(i, at(i as i64, 0), request("t", None)).unwrap();
    }
    assert_eq!(store.stats().total_events, store.list().len());
    assert_eq!(store.stats().total_events, 4);
}

#[test]
fn stats_counts_click_click_view() {
    let mut store = EventStore::new();
    store.create(request("click", None)).unwrap();
    store.create(request("click", None)).unwrap();
    store.create(request("view", None)).unwrap();
    let stats = store.stats();
    assert_eq!(stats.events_by_type.len(), 2);
    assert_eq!(count_of(&stats.events_by_type, "click"), Some(2));
    assert_eq!(count_of(&stats.events_by_type, "view"), Some(1));
    let sum: usize = stats.events_by_type.iter().map(|(_, c)| *c).sum();
    assert_eq!(sum, stats.total_events);
}

#[test]
fn count_by_type_one_entry_per_type() {
    let mut store = EventStore::new();
    let types = ["b", "a", "b", "c", "a", "b"];
    for (i, t) in types.iter().enumerate() {
        store.insert_event(i as u128, at(0, 0), request(t, None)).unwrap();
    }
    let mut table = count_by_type(&store.list());
    table.sort();
    assert_eq!(
        table,
        vec![
            ("a".to_string(), 2),
            ("b".to_string(), 3),
            ("c".to_string(), 1)
        ]
    );
    assert!(count_by_type(&Vec::new()).is_empty());
}

#[test]
fn recent_events_are_ten_latest_descending() {
    let mut store = EventStore::new();
    for i in 0..15u128 {
        // timestamps out of creation order
        let secs = ((i * 7) % 15) as i64;
        store.insert_event(i, at(secs, 0), request("t", None)).unwrap();
    }
    let stats = store.stats();
    assert_eq!(RECENT_LIMIT, 10);
    assert_eq!(stats.recent_events.len(), 10);
    let secs: Vec<i64> = stats.recent_events.iter().map(|e| e.timestamp.secs).collect();
    assert_eq!(secs, vec![14, 13, 12, 11, 10, 9, 8, 7, 6, 5]);
}

#[test]
fn recent_events_fewer_than_limit() {
    let mut store = EventStore::new();
    store.insert_event(1, at(5, 0), request("t", None)).unwrap();
    store.insert_event(2, at(5, 9), request("t", None)).unwrap();
    store.insert_event(3, at(4, 999), request("t", None)).unwrap();
    let ids: Vec<u128> = store.stats().recent_events.iter().map(|e| e.id).collect();
    assert_eq!(ids, vec![2, 1, 3]);
    assert!(EventStore::new().stats().recent_events.is_empty());
}

#[test]
fn recent_events_ties_keep_store_order() {
    let mut events: Vec<AnalyticsEvent> = Vec::new();
    let mut store = EventStore::new();
    for i in 0..4u128 {
        events.push(store.insert_event(10 + i, at(3, 3), request("t", None)).unwrap());
    }
    let ids: Vec<u128> = most_recent(&events, 3).iter().map(|e| e.id).collect();
    assert_eq!(ids, vec![10, 11, 12]);
    assert!(most_recent(&events, 0).is_empty());
}

#[test]
fn empty_event_type_rejected_store_unchanged() {
    let mut store = EventStore::new();
    store.create(request("click", None)).unwrap();
    assert_eq!(
        store.create(request("", Some("u1"))).unwrap_err(),
        StoreError::MissingEventType
    );
    assert_eq!(
        store.insert_event(99, at(0, 0), request("", None)).unwrap_err(),
        StoreError::MissingEventType
    );
    assert_eq!(store.len(), 1);
}

#[test]
fn duplicate_id_rejected_store_unchanged() {
    let mut store = EventStore::new();
    store.insert_event(5, at(1, 0), request("a", None)).unwrap();
    assert_eq!(
        store.insert_event(5, at(2, 0), request("b", None)).unwrap_err(),
        StoreError::DuplicateId
    );
    assert_eq!(store.len(), 1);
    assert_eq!(store.get(5).unwrap().event_type, "a");
}

#[test]
fn timestamp_later_than() {
    assert!(at(2, 0).is_later_than(&at(1, 999_999_999)));
    assert!(at(1, 5).is_later_than(&at(1, 4)));
    assert!(!at(1, 4).is_later_than(&at(1, 4)));
    assert!(!at(-1, 0).is_later_than(&at(0, 0)));
}

#[test]
fn snapshot_copies_every_field() {
    let mut store = EventStore::new();
    let mut properties = Properties::new();
    properties.insert("k".to_string(), Value::from("v"));
    let req = CreateEventRequest {
        event_type: "e".to_string(),
        user_id: Some("u".to_string()),
        properties,
    };
    let e = store.insert_event(3, at(8, 1), req).unwrap();
    let c = e.snapshot();
    assert_eq!(c.id, 3);
    assert_eq!(c.event_type, "e");
    assert_eq!(c.user_id.as_deref(), Some("u"));
    assert_eq!(c.properties.get("k"), Some(&Value::from("v")));
    assert_eq!(c.timestamp, at(8, 1));
}

#[test]
fn least_unused_id_fills_first_gap() {
    let mut store = EventStore::new();
    assert_eq!(store.least_unused_id(), 0);
    for id in [0u128, 1, 3] {
        store.insert_event(id, at(0, 0), request("t", None)).unwrap();
    }
    assert_eq!(store.least_unused_id(), 2);
    store.insert_event(2, at(0, 0), request("t", None)).unwrap();
    assert_eq!(store.least_unused_id(), 4);
}

#[test]
fn contains_id_reports_stored_ids() {
    let mut store = EventStore::new();
    assert!(!store.contains_id(9));
    store.insert_event(9, at(0, 0), request("t", None)).unwrap();
    assert!(store.contains_id(9));
    assert!(!store.contains_id(10));
}

#[test]
fn create_view_without_user_or_properties() {
    let mut store = EventStore::new();
    let e = store.create(request("view", None)).unwrap();
    assert_eq!(e.event_type, "view");
    assert!(e.user_id.is_none());
    assert!(e.properties.is_empty());
    assert_eq!(store.len(), 1);
    assert_eq!(store.list()[0].id, e.id);
}
