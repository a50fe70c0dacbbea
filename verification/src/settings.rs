//! Process configuration: the credential for the remote source, the
//! refresh period, and the tracked stops with their accept-sets.
//! Loading the configuration from disk happens outside the library;
//! the values arrive here as plain data.

use vstd::prelude::*;

verus! {

/// One tracked stop as configured: its identifier and the accept-set
/// of line labels, the label "ALL" meaning every line.
#[derive(Debug, Clone, PartialEq, Eq)]
pub struct StopConfig {
    pub stop_id: String,
    pub lines: Vec<String>,
}

/// The configuration the core runs under, immutable for the process
/// lifetime.
#[derive(Debug, Clone, PartialEq, Eq)]
pub struct Settings {
    pub api_key: String,
    pub update_interval: u64,
    pub stops: Vec<StopConfig>,
}

impl Settings {
    /// Stop identifiers are unique within the configuration.
    pub open spec fn wf(&self) -> bool {
        forall|i: int, j: int|
            0 <= i < j < self.stops@.len() ==> (#[trigger] self.stops@[i]).stop_id@ != (
            #[trigger] self.stops@[j]).stop_id@
    }

    /// The set of configured stop identifiers.
    pub open spec fn spec_id_set(&self) -> Set<Seq<char>> {
        Set::new(
            |k: Seq<char>|
                exists|i: int|
                    0 <= i < self.stops@.len() && (#[trigger] self.stops@[i]).stop_id@ == k,
        )
    }

    /// The configured stop identifiers, in configuration order.
    pub fn stop_ids(&self) -> (r: Vec<String>)
        ensures
            r@.len() == self.stops@.len(),
            forall|i: int| 0 <= i < r@.len() ==> (#[trigger] r@[i])@ == self.stops@[i].stop_id@,
    {
        let mut r: Vec<String> = Vec::new();
        let mut i: usize = 0;
        while i < self.stops.len()
            invariant
                0 <= i <= self.stops@.len(),
                r@.len() == i,
                forall|j: int| 0 <= j < i ==> (#[trigger] r@[j])@ == self.stops@[j].stop_id@,
            decreases self.stops@.len() - i,
        {
            r.push(self.stops[i].stop_id.clone());
            i += 1;
        }
        r
    }
}

} // verus!
