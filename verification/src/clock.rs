//! The machine's clock.
use crate::message::Timestamp;
use vstd::prelude::*;

verus! {

/// `prost_types::Timestamp::from` on `SystemTime::now()`: the current time. Which time that is
/// depends on the machine; whatever it is, the nanoseconds are those of one second.
#[verifier::external_body]
pub(crate) fn timestamp_now() -> (now: Timestamp)
    ensures
        0 <= now.nanos < 1_000_000_000,
{
    let now = prost_types::Timestamp::from(std::time::SystemTime::now());
    Timestamp { seconds: now.seconds, nanos: now.nanos }
}

} // verus!
