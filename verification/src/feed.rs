//! The parsed transit feed, modelled as plain values.
//!
//! A feed holds routes, trips with their ordered stop-time sequences, and
//! service calendars.  Parsing the raw feed into this shape is left to the
//! caller; the crate only reads it.

use vstd::prelude::*;

use crate::calendar::Date;

verus! {

/// A stop of the feed: a stable identifier and a display name.
#[derive(Clone, Debug)]
pub struct FeedStop {
    pub id: String,
    pub name: String,
}

/// One visit of a trip to a stop: the stop's identifier and display name,
/// and the arrival time in seconds since midnight, when the feed has one.
#[derive(Clone, Debug)]
pub struct StopTimeEntry {
    pub stop_id: String,
    pub stop_name: String,
    pub arrival_time: Option<u32>,
}

/// One scheduled run of a route, with its service identifier and its
/// ordered stop-time sequence.
#[derive(Clone, Debug)]
pub struct FeedTrip {
    pub route_id: String,
    pub service_id: String,
    pub stop_times: Vec<StopTimeEntry>,
}

/// A named transit line.
#[derive(Clone, Debug)]
pub struct FeedRoute {
    pub id: String,
    pub short_name: String,
}

/// A service calendar entry of the feed: which weekdays the service runs
/// on, and the inclusive date range of validity.
#[derive(Clone, Debug)]
pub struct FeedCalendar {
    pub id: String,
    pub monday: bool,
    pub tuesday: bool,
    pub wednesday: bool,
    pub thursday: bool,
    pub friday: bool,
    pub saturday: bool,
    pub sunday: bool,
    pub start_date: Date,
    pub end_date: Date,
}

/// The full static feed.
#[derive(Clone, Debug)]
pub struct Feed {
    pub routes: Vec<FeedRoute>,
    pub trips: Vec<FeedTrip>,
    pub calendars: Vec<FeedCalendar>,
}

/// The first calendar of `cals` whose identifier reads `service_id`,
/// if there is one.
pub open spec fn calendar_of(cals: Seq<FeedCalendar>, service_id: Seq<char>) -> Option<
    FeedCalendar,
>
    decreases cals.len(),
{
    if cals.len() == 0 {
        None
    } else if cals[0].id@ == service_id {
        Some(cals[0])
    } else {
        calendar_of(cals.drop_first(), service_id)
    }
}

/// Route identifiers are unique across the feed.
pub open spec fn unique_route_ids(routes: Seq<FeedRoute>) -> bool {
    forall|a: int, b: int|
        0 <= a < b < routes.len() ==> (#[trigger] routes[a]).id@ != (#[trigger] routes[b]).id@
}

/// Every trip names a route that the feed holds.
pub open spec fn trips_have_routes(routes: Seq<FeedRoute>, trips: Seq<FeedTrip>) -> bool {
    forall|j: int|
        0 <= j < trips.len() ==> exists|i: int|
            0 <= i < routes.len() && (#[trigger] routes[i]).id@ == (#[trigger] trips[j]).route_id@
}

/// The feed names the chosen stop consistently: every stop-time entry
/// that references the identifier `sid` carries the display name `name`.
pub open spec fn stop_names_consistent(trips: Seq<FeedTrip>, sid: Seq<char>, name: Seq<char>) -> bool {
    forall|j: int, k: int|
        0 <= j < trips.len() && 0 <= k < trips[j].stop_times@.len() && (#[trigger] trips[j].stop_times@[k]).stop_id@
            == sid ==> trips[j].stop_times@[k].stop_name@ == name
}

impl Feed {
    /// Looks up the calendar entry for a service identifier.
    pub fn get_calendar(&self, service_id: &String) -> (r: Option<&FeedCalendar>)
        ensures
            match r {
                Some(cal) => calendar_of(self.calendars@, service_id@) == Some(*cal),
                None => calendar_of(self.calendars@, service_id@) is None,
            },
    {
        let mut i: usize = 0;
        proof {
            assert(self.calendars@.skip(0) =~= self.calendars@);
        }
        while i < self.calendars.len()
            invariant
                i <= self.calendars@.len(),
                calendar_of(self.calendars@, service_id@) == calendar_of(
                    self.calendars@.skip(i as int),
                    service_id@,
                ),
            decreases self.calendars@.len() - i,
        {
            if self.calendars[i].id == *service_id {
                assert(self.calendars@.skip(i as int)[0] == self.calendars@[i as int]);
                return Some(&self.calendars[i]);
            }
            proof {
                assert(self.calendars@.skip(i as int).drop_first() =~= self.calendars@.skip(
                    i as int + 1,
                ));
            }
            i += 1;
        }
        None
    }
}

} // verus!
