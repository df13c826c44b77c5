use vstd::prelude::*;

verus! {

/// The clock of the machine.
pub struct SystemTimes;

impl SystemTimes {
    /// `std::time::SystemTime::now`, as milliseconds since the Unix epoch, and 0 for a
    /// clock that stands before it. Nothing is promised of the number: the clock gives
    /// what it gives.
    #[verifier::external_body]
    pub fn timestamp() -> u64 {
        match std::time::SystemTime::now().duration_since(std::time::UNIX_EPOCH) {
            Ok(since_the_epoch) => since_the_epoch.as_millis() as u64,
            Err(_) => 0,
        }
    }
}

} // verus!
