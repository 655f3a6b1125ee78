use vstd::prelude::*;

use crate::types::{Millis, OrderId};

verus! {

/// Calls `chrono::Utc::now` and reads the result as milliseconds since the
/// Unix epoch (`DateTime::timestamp_millis`). The wall clock is not a
/// function of anything here, so nothing is claimed of the value.
#[verifier::external_body]
pub(crate) fn now_millis() -> (r: Millis) {
    chrono::Utc::now().timestamp_millis()
}

/// Calls `uuid::Uuid::new_v4` and returns its 128 bits (`Uuid::as_u128`).
/// The identifier is random, so nothing is claimed of the value.
#[verifier::external_body]
pub(crate) fn new_order_id() -> (r: OrderId) {
    uuid::Uuid::new_v4().as_u128()
}

} // verus!
