//! Small helpers over feed stops.

use vstd::prelude::*;

use std::sync::Arc;

use crate::feed::FeedStop;

verus! {

/// True exactly when some entry of `stops` carries a stop with the same
/// identifier as `stop`.
pub fn is_stop_in_stops(stop: &FeedStop, stops: &Vec<(String, Arc<FeedStop>)>) -> (r: bool)
    ensures
        r == exists|n: int|
            0 <= n < stops@.len() && (#[trigger] stops@[n]).1.id@ == stop.id@,
{
    let mut n: usize = 0;
    while n < stops.len()
        invariant
            n <= stops@.len(),
            forall|m: int| 0 <= m < n ==> (#[trigger] stops@[m]).1.id@ != stop.id@,
        decreases stops@.len() - n,
    {
        if stops[n].1.id == stop.id {
            return true;
        }
        n += 1;
    }
    false
}

} // verus!
