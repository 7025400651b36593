use vstd::prelude::*;
use crate::feed::MonitoredVehicleJourney;
use crate::time::Timestamp;
use crate::transform::Client;

verus! {

/// Why an agency's snapshot could not be read.
#[derive(Debug, PartialEq, Eq)]
pub enum CacheError {
    /// No snapshot has been written for the agency.
    NotFound,
    /// The snapshot could not be read from storage.
    Io(String),
    /// The stored snapshot does not decode.
    Corrupt(String),
}

/// The snapshot of one agency: the journeys of its last successful fetch and when
/// that fetch was made.
pub struct Cached {
    pub journeys: Vec<MonitoredVehicleJourney>,
    pub live_time: Timestamp,
}


impl Client {
    /// The file that holds an agency's snapshot.
    pub fn cache_path(agency: &str) -> (r: String)
        ensures
            r@ == ".cache-"@ + agency@ + ".json"@,
    {
        let mut path = String::from_str(".cache-");
        path.append(agency);
        path.append(".json");
        path
    }
}

} // verus!
