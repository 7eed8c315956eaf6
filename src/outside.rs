//! What the library takes from other crates, with the contracts it relies on.

use vstd::prelude::*;

verus! {

/// A JSON value, carried through the store unread.
#[verifier::external_type_specification]
#[verifier::external_body]
pub struct ExValue(serde_json::Value);

/// A JSON object, carried through the store unread.
#[verifier::external_type_specification]
#[verifier::external_body]
#[verifier::reject_recursive_types(K)]
#[verifier::reject_recursive_types(V)]
pub struct ExMap<K, V>(serde_json::Map<K, V>);

/// Relies on serde_json's `Clone` for `Map<String, Value>`, which clones the
/// underlying map entry by entry: the copy equals the original.
pub assume_specification[ <serde_json::Map<String, serde_json::Value> as Clone>::clone ](
    m: &serde_json::Map<String, serde_json::Value>,
) -> (r: serde_json::Map<String, serde_json::Value>)
    ensures
        r == *m,
;

/// Relies on uuid::Uuid::new_v4 and Uuid::as_u128: a random version-4 UUID,
/// as its 128-bit big-endian value. Nothing is promised of which value comes.
#[verifier::external_body]
pub(crate) fn random_id() -> (r: u128) {
    uuid::Uuid::new_v4().as_u128()
}

/// Relies on chrono::Utc::now, DateTime::timestamp and
/// DateTime::timestamp_subsec_nanos: the current UTC time, as whole seconds
/// since the Unix epoch and the nanoseconds within that second. Nothing is
/// promised of which time comes.
#[verifier::external_body]
pub(crate) fn current_time() -> (r: (i64, u32)) {
    let now = chrono::Utc::now();
    (now.timestamp(), now.timestamp_subsec_nanos())
}

} // verus!
