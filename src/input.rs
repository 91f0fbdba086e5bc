//! A line of local input, stamped with the time it was read.
use vstd::prelude::*;

verus! {

/// Relies on `chrono::Utc::now` and `DateTime::timestamp`: the current time in
/// seconds since the Unix epoch. Nothing is known of its value.
#[verifier::external_body]
fn unix_now() -> (r: i64) {
    chrono::Utc::now().timestamp()
}

/// A line typed by the user and the second at which it was read.
pub struct InputMessage {
    pub message: String,
    pub timestamp: i64,
}

impl InputMessage {
    /// The line, stamped with the current time.
    pub fn new(message: String) -> (r: InputMessage)
        ensures
            r.message@ == message@,
    {
        let timestamp = unix_now();
        InputMessage::with_timestamp(message, timestamp)
    }

    /// The line with the given stamp.
    pub fn with_timestamp(message: String, timestamp: i64) -> (r: InputMessage)
        ensures
            r.message@ == message@,
            r.timestamp == timestamp,
    {
        InputMessage { message, timestamp }
    }
}

} // verus!
