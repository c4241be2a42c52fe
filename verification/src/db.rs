//! The per-stop schedule database, built by correlating the feed.

use vstd::prelude::*;

use crate::calendar::{Date, Weekday};
use crate::feed::{
    calendar_of, stop_names_consistent, trips_have_routes, unique_route_ids, Feed, FeedCalendar,
    FeedRoute, FeedStop, FeedTrip, StopTimeEntry,
};

verus! {

/// Which weekdays a service runs on, and the inclusive date range of
/// validity, copied once from the feed's calendar entry.
#[derive(Clone, Copy, Debug, PartialEq, Eq, Structural)]
pub struct CustomCalendar {
    pub monday: bool,
    pub tuesday: bool,
    pub wednesday: bool,
    pub thursday: bool,
    pub friday: bool,
    pub saturday: bool,
    pub sunday: bool,
    pub start_date: Date,
    pub end_date: Date,
}

/// The weekday flags and dates of a feed calendar entry, as a record
/// calendar.
pub open spec fn custom_of(cal: FeedCalendar) -> CustomCalendar {
    CustomCalendar {
        monday: cal.monday,
        tuesday: cal.tuesday,
        wednesday: cal.wednesday,
        thursday: cal.thursday,
        friday: cal.friday,
        saturday: cal.saturday,
        sunday: cal.sunday,
        start_date: cal.start_date,
        end_date: cal.end_date,
    }
}

/// The flag of `cal` for the given weekday.
pub open spec fn runs_on(cal: CustomCalendar, day: Weekday) -> bool {
    match day {
        Weekday::Monday => cal.monday,
        Weekday::Tuesday => cal.tuesday,
        Weekday::Wednesday => cal.wednesday,
        Weekday::Thursday => cal.thursday,
        Weekday::Friday => cal.friday,
        Weekday::Saturday => cal.saturday,
        Weekday::Sunday => cal.sunday,
    }
}

impl CustomCalendar {
    /// Copies the weekday flags and the date range out of a feed calendar
    /// entry.
    pub fn from(cal: &FeedCalendar) -> (r: CustomCalendar)
        ensures
            r == custom_of(*cal),
    {
        CustomCalendar {
            monday: cal.monday,
            tuesday: cal.tuesday,
            wednesday: cal.wednesday,
            thursday: cal.thursday,
            friday: cal.friday,
            saturday: cal.saturday,
            sunday: cal.sunday,
            start_date: cal.start_date,
            end_date: cal.end_date,
        }
    }

    /// True when the calendar's flag for `day` is set.
    pub fn runs_on(&self, day: Weekday) -> (r: bool)
        ensures
            r == runs_on(*self, day),
    {
        match day {
            Weekday::Monday => self.monday,
            Weekday::Tuesday => self.tuesday,
            Weekday::Wednesday => self.wednesday,
            Weekday::Thursday => self.thursday,
            Weekday::Friday => self.friday,
            Weekday::Saturday => self.saturday,
            Weekday::Sunday => self.sunday,
        }
    }
}

/// One (route, trip, stop, calendar) intersection at the chosen stop.
#[derive(Clone, Debug)]
pub struct Record {
    /// The route's short display name.
    pub route: String,
    /// The trip's service identifier.
    pub trip: String,
    /// The service calendar looked up by that identifier.
    pub calendar: CustomCalendar,
    /// Arrival at the stop, in seconds since midnight, when known.
    pub stop_time: Option<u32>,
    /// The stop's display name.
    pub stop: String,
}

/// The schedule database of exactly one stop.
#[derive(Clone, Debug)]
pub struct Database {
    pub records: Vec<Record>,
}

/// Construction failures: the feed is internally inconsistent.
#[derive(Clone, Debug)]
pub enum ScheduleError {
    /// A trip that visits the chosen stop names a service identifier with
    /// no calendar entry in the feed.
    MissingCalendar(String),
}

/// The record emitted for one matching stop-time entry.
pub open spec fn record_for(
    route: FeedRoute,
    trip: FeedTrip,
    st: StopTimeEntry,
    cal: CustomCalendar,
) -> Record {
    Record {
        route: route.short_name,
        trip: trip.service_id,
        calendar: cal,
        stop_time: st.arrival_time,
        stop: st.stop_name,
    }
}

/// The records one trip contributes: one per stop-time entry of `sts`
/// whose stop identifier reads `sid`, in sequence order.
pub open spec fn trip_records(
    route: FeedRoute,
    trip: FeedTrip,
    sts: Seq<StopTimeEntry>,
    cal: CustomCalendar,
    sid: Seq<char>,
) -> Seq<Record>
    decreases sts.len(),
{
    if sts.len() == 0 {
        Seq::empty()
    } else {
        trip_records(route, trip, sts.drop_last(), cal, sid) + if sts.last().stop_id@ == sid {
            seq![record_for(route, trip, sts.last(), cal)]
        } else {
            Seq::empty()
        }
    }
}

/// The calendar a trip's records carry: the feed entry for its service
/// identifier, copied by value.
pub open spec fn trip_calendar(trip: FeedTrip, cals: Seq<FeedCalendar>) -> CustomCalendar {
    custom_of(calendar_of(cals, trip.service_id@).unwrap())
}

/// The records one route contributes: those of its trips, in trip order.
pub open spec fn route_records(
    route: FeedRoute,
    trips: Seq<FeedTrip>,
    cals: Seq<FeedCalendar>,
    sid: Seq<char>,
) -> Seq<Record>
    decreases trips.len(),
{
    if trips.len() == 0 {
        Seq::empty()
    } else {
        route_records(route, trips.drop_last(), cals, sid) + if trips.last().route_id@
            == route.id@ {
            trip_records(
                route,
                trips.last(),
                trips.last().stop_times@,
                trip_calendar(trips.last(), cals),
                sid,
            )
        } else {
            Seq::empty()
        }
    }
}

/// All records of the stop with identifier `sid`: those of every route,
/// in route order.
pub open spec fn feed_records(
    routes: Seq<FeedRoute>,
    trips: Seq<FeedTrip>,
    cals: Seq<FeedCalendar>,
    sid: Seq<char>,
) -> Seq<Record>
    decreases routes.len(),
{
    if routes.len() == 0 {
        Seq::empty()
    } else {
        feed_records(routes.drop_last(), trips, cals, sid) + route_records(
            routes.last(),
            trips,
            cals,
            sid,
        )
    }
}

/// Whether some stop-time entry of `sts` references the stop `sid`.
pub open spec fn touches_stop(sts: Seq<StopTimeEntry>, sid: Seq<char>) -> bool {
    exists|k: int| 0 <= k < sts.len() && (#[trigger] sts[k]).stop_id@ == sid
}

/// A trip passes construction when either it never visits the stop, or
/// its service identifier has a calendar entry.
pub open spec fn trip_ok(trip: FeedTrip, cals: Seq<FeedCalendar>, sid: Seq<char>) -> bool {
    touches_stop(trip.stop_times@, sid) ==> calendar_of(cals, trip.service_id@) is Some
}

/// Every trip of the route passes construction.
pub open spec fn route_trips_ok(
    route: FeedRoute,
    trips: Seq<FeedTrip>,
    cals: Seq<FeedCalendar>,
    sid: Seq<char>,
) -> bool {
    forall|j: int|
        0 <= j < trips.len() && (#[trigger] trips[j]).route_id@ == route.id@ ==> trip_ok(
            trips[j],
            cals,
            sid,
        )
}

/// Construction of the stop's database succeeds exactly when this holds.
pub open spec fn feed_ok(
    routes: Seq<FeedRoute>,
    trips: Seq<FeedTrip>,
    cals: Seq<FeedCalendar>,
    sid: Seq<char>,
) -> bool {
    forall|i: int| 0 <= i < routes.len() ==> route_trips_ok(#[trigger] routes[i], trips, cals, sid)
}

/// The service identifier `service` witnesses a failure: some trip of
/// some route visits the stop under it, and no calendar entry carries it.
pub open spec fn service_unresolved(
    routes: Seq<FeedRoute>,
    trips: Seq<FeedTrip>,
    cals: Seq<FeedCalendar>,
    sid: Seq<char>,
    service: Seq<char>,
) -> bool {
    &&& calendar_of(cals, service) is None
    &&& exists|i: int, j: int|
        0 <= i < routes.len() && 0 <= j < trips.len() && (#[trigger] trips[j]).route_id@ == (
        #[trigger] routes[i]).id@ && trips[j].service_id@ == service && touches_stop(
            trips[j].stop_times@,
            sid,
        )
}

impl Database {
    /// Builds the database of `stop` from the feed.
    ///
    /// Succeeds exactly when every trip that visits the stop has a
    /// calendar entry for its service identifier, and then holds one
    /// record per matching stop-time entry, in feed traversal order.
    pub fn from(feed: &Feed, stop: &FeedStop) -> (r: Result<Database, ScheduleError>)
        ensures
            r is Ok <==> feed_ok(feed.routes@, feed.trips@, feed.calendars@, stop.id@),
            r matches Ok(db) ==> db.records@ == feed_records(
                feed.routes@,
                feed.trips@,
                feed.calendars@,
                stop.id@,
            ),
            r matches Err(ScheduleError::MissingCalendar(s)) ==> service_unresolved(
                feed.routes@,
                feed.trips@,
                feed.calendars@,
                stop.id@,
                s@,
            ),
    {
        match Self::fetch(feed, stop) {
            Ok(records) => Ok(Database { records }),
            Err(e) => Err(e),
        }
    }

    /// Walks every route, every trip of that route, and every stop-time
    /// entry of the trip, and collects a record for each entry that
    /// references `stop`.
    #[verifier::loop_isolation(false)]
    fn fetch(feed: &Feed, stop: &FeedStop) -> (r: Result<Vec<Record>, ScheduleError>)
        ensures
            r is Ok <==> feed_ok(feed.routes@, feed.trips@, feed.calendars@, stop.id@),
            r matches Ok(records) ==> records@ == feed_records(
                feed.routes@,
                feed.trips@,
                feed.calendars@,
                stop.id@,
            ),
            r matches Err(ScheduleError::MissingCalendar(s)) ==> service_unresolved(
                feed.routes@,
                feed.trips@,
                feed.calendars@,
                stop.id@,
                s@,
            ),
    {
        let ghost sid = stop.id@;
        let ghost cals = feed.calendars@;
        let mut records: Vec<Record> = Vec::new();

        let mut i: usize = 0;
        while i < feed.routes.len()
            invariant
                i <= feed.routes@.len(),
                records@ == feed_records(feed.routes@.take(i as int), feed.trips@, cals, sid),
                forall|i2: int|
                    0 <= i2 < i ==> route_trips_ok(#[trigger] feed.routes@[i2], feed.trips@, cals, sid),
            decreases feed.routes@.len() - i,
        {
            let route = &feed.routes[i];
            let mut j: usize = 0;
            while j < feed.trips.len()
                invariant
                    j <= feed.trips@.len(),
                    records@ == feed_records(feed.routes@.take(i as int), feed.trips@, cals, sid)
                        + route_records(*route, feed.trips@.take(j as int), cals, sid),
                    forall|j2: int|
                        0 <= j2 < j && (#[trigger] feed.trips@[j2]).route_id@ == route.id@
                            ==> trip_ok(feed.trips@[j2], cals, sid),
                decreases feed.trips@.len() - j,
            {
                let trip = &feed.trips[j];
                if trip.route_id == route.id {
                    let ghost tcal = trip_calendar(feed.trips@[j as int], cals);
                    let mut k: usize = 0;
                    while k < trip.stop_times.len()
                        invariant
                            k <= trip.stop_times@.len(),
                            records@ == feed_records(
                                feed.routes@.take(i as int),
                                feed.trips@,
                                cals,
                                sid,
                            ) + route_records(*route, feed.trips@.take(j as int), cals, sid)
                                + trip_records(
                                *route,
                                *trip,
                                trip.stop_times@.take(k as int),
                                tcal,
                                sid,
                            ),
                            touches_stop(trip.stop_times@.take(k as int), sid) ==> calendar_of(
                                cals,
                                trip.service_id@,
                            ) is Some,
                        decreases trip.stop_times@.len() - k,
                    {
                        let st = &trip.stop_times[k];
                        if st.stop_id == stop.id {
                            match feed.get_calendar(&trip.service_id) {
                                None => {
                                    proof {
                                        assert(trip.stop_times@[k as int].stop_id@ == sid);
                                        assert(touches_stop(trip.stop_times@, sid));
                                        assert(!trip_ok(feed.trips@[j as int], cals, sid));
                                        assert(!route_trips_ok(
                                            feed.routes@[i as int],
                                            feed.trips@,
                                            cals,
                                            sid,
                                        ));
                                        assert(!feed_ok(feed.routes@, feed.trips@, cals, sid));
                                        assert(service_unresolved(
                                            feed.routes@,
                                            feed.trips@,
                                            cals,
                                            sid,
                                            trip.service_id@,
                                        ));
                                    }
                                    return Err(ScheduleError::MissingCalendar(
                                        trip.service_id.clone(),
                                    ));
                                },
                                Some(cal) => {
                                    let rec = Record {
                                        route: route.short_name.clone(),
                                        trip: trip.service_id.clone(),
                                        calendar: CustomCalendar::from(cal),
                                        stop_time: st.arrival_time,
                                        stop: st.stop_name.clone(),
                                    };
                                    proof {
                                        assert(calendar_of(cals, trip.service_id@) == Some(*cal));
                                        assert(custom_of(*cal) == tcal);
                                        assert(rec == record_for(
                                            *route,
                                            *trip,
                                            trip.stop_times@[k as int],
                                            tcal,
                                        ));
                                    }
                                    records.push(rec);
                                },
                            }
                        }
                        proof {
                            let sts = trip.stop_times@;
                            assert(sts.take(k as int + 1).drop_last() =~= sts.take(k as int));
                            assert(sts.take(k as int + 1).last() == sts[k as int]);
                            if sts[k as int].stop_id@ != sid {
                                assert(trip_records(*route, *trip, sts.take(k as int + 1), tcal, sid)
                                    =~= trip_records(*route, *trip, sts.take(k as int), tcal, sid));
                            }
                            assert(touches_stop(sts.take(k as int + 1), sid) && sts[k as int].stop_id@
                                != sid ==> touches_stop(sts.take(k as int), sid)) by {
                                if touches_stop(sts.take(k as int + 1), sid) && sts[k as int].stop_id@
                                    != sid {
                                    let k2 = choose|k2: int|
                                        0 <= k2 < sts.take(k as int + 1).len() && (#[trigger] sts.take(
                                            k as int + 1,
                                        )[k2]).stop_id@ == sid;
                                    assert(sts.take(k as int)[k2] == sts.take(k as int + 1)[k2]);
                                }
                            }
                        }
                        k += 1;
                    }
                    proof {
                        assert(trip.stop_times@.take(trip.stop_times@.len() as int)
                            =~= trip.stop_times@);
                        assert(trip_ok(feed.trips@[j as int], cals, sid));
                    }
                }
                proof {
                    let trips = feed.trips@;
                    assert(trips.take(j as int + 1).drop_last() =~= trips.take(j as int));
                    assert(trips.take(j as int + 1).last() == trips[j as int]);
                    if trips[j as int].route_id@ != route.id@ {
                        assert(route_records(*route, trips.take(j as int + 1), cals, sid)
                            =~= route_records(*route, trips.take(j as int), cals, sid));
                    }
                }
                j += 1;
            }
            proof {
                assert(feed.trips@.take(feed.trips@.len() as int) =~= feed.trips@);
                assert(route_trips_ok(feed.routes@[i as int], feed.trips@, cals, sid));
                assert(feed.routes@.take(i as int + 1).drop_last() =~= feed.routes@.take(i as int));
                assert(feed.routes@.take(i as int + 1).last() == feed.routes@[i as int]);
            }
            i += 1;
        }
        proof {
            assert(feed.routes@.take(feed.routes@.len() as int) =~= feed.routes@);
        }
        Ok(records)
    }
}

/// How many stop-time entries of `sts` reference the stop `sid`.
pub open spec fn matching_count(sts: Seq<StopTimeEntry>, sid: Seq<char>) -> nat
    decreases sts.len(),
{
    if sts.len() == 0 {
        0
    } else {
        matching_count(sts.drop_last(), sid) + if sts.last().stop_id@ == sid {
            1nat
        } else {
            0nat
        }
    }
}

/// How many stop-time entries of the whole feed reference the stop
/// `sid`, over all trips.
pub open spec fn total_matching(trips: Seq<FeedTrip>, sid: Seq<char>) -> nat
    decreases trips.len(),
{
    if trips.len() == 0 {
        0
    } else {
        total_matching(trips.drop_last(), sid) + matching_count(trips.last().stop_times@, sid)
    }
}

/// The matching entries of the trips that belong to `route`.
spec fn route_matching(route: FeedRoute, trips: Seq<FeedTrip>, sid: Seq<char>) -> nat
    decreases trips.len(),
{
    if trips.len() == 0 {
        0
    } else {
        route_matching(route, trips.drop_last(), sid) + if trips.last().route_id@ == route.id@ {
            matching_count(trips.last().stop_times@, sid)
        } else {
            0nat
        }
    }
}

/// The matching entries summed over all routes.
spec fn sum_matching(routes: Seq<FeedRoute>, trips: Seq<FeedTrip>, sid: Seq<char>) -> nat
    decreases routes.len(),
{
    if routes.len() == 0 {
        0
    } else {
        sum_matching(routes.drop_last(), trips, sid) + route_matching(routes.last(), trips, sid)
    }
}

/// How many routes carry the identifier `id`.
spec fn route_id_count(routes: Seq<FeedRoute>, id: Seq<char>) -> nat
    decreases routes.len(),
{
    if routes.len() == 0 {
        0
    } else {
        route_id_count(routes.drop_last(), id) + if routes.last().id@ == id {
            1nat
        } else {
            0nat
        }
    }
}

proof fn lemma_trip_records_len(
    route: FeedRoute,
    trip: FeedTrip,
    sts: Seq<StopTimeEntry>,
    cal: CustomCalendar,
    sid: Seq<char>,
)
    ensures
        trip_records(route, trip, sts, cal, sid).len() == matching_count(sts, sid),
    decreases sts.len(),
{
    if sts.len() == 0 {
    } else {
        lemma_trip_records_len(route, trip, sts.drop_last(), cal, sid);
    }
}

proof fn lemma_route_records_len(
    route: FeedRoute,
    trips: Seq<FeedTrip>,
    cals: Seq<FeedCalendar>,
    sid: Seq<char>,
)
    ensures
        route_records(route, trips, cals, sid).len() == route_matching(route, trips, sid),
    decreases trips.len(),
{
    if trips.len() == 0 {
    } else {
        lemma_route_records_len(route, trips.drop_last(), cals, sid);
        if trips.last().route_id@ == route.id@ {
            lemma_trip_records_len(
                route,
                trips.last(),
                trips.last().stop_times@,
                trip_calendar(trips.last(), cals),
                sid,
            );
        }
    }
}

proof fn lemma_feed_records_len(
    routes: Seq<FeedRoute>,
    trips: Seq<FeedTrip>,
    cals: Seq<FeedCalendar>,
    sid: Seq<char>,
)
    ensures
        feed_records(routes, trips, cals, sid).len() == sum_matching(routes, trips, sid),
    decreases routes.len(),
{
    if routes.len() == 0 {
    } else {
        lemma_feed_records_len(routes.drop_last(), trips, cals, sid);
        lemma_route_records_len(routes.last(), trips, cals, sid);
    }
}

proof fn lemma_sum_matching_empty(routes: Seq<FeedRoute>, sid: Seq<char>)
    ensures
        sum_matching(routes, Seq::<FeedTrip>::empty(), sid) == 0,
    decreases routes.len(),
{
    if routes.len() == 0 {
    } else {
        lemma_sum_matching_empty(routes.drop_last(), sid);
    }
}

proof fn lemma_sum_matching_split(routes: Seq<FeedRoute>, trips: Seq<FeedTrip>, sid: Seq<char>)
    requires
        trips.len() > 0,
    ensures
        sum_matching(routes, trips, sid) == sum_matching(routes, trips.drop_last(), sid)
            + route_id_count(routes, trips.last().route_id@) * matching_count(
            trips.last().stop_times@,
            sid,
        ),
    decreases routes.len(),
{
    let mc = matching_count(trips.last().stop_times@, sid);
    let id = trips.last().route_id@;
    if routes.len() == 0 {
        let c = route_id_count(routes, id);
        assert(c == 0);
        assert(c * mc == 0) by (nonlinear_arith)
            requires c == 0;
        assert(sum_matching(routes, trips, sid) == 0);
        assert(sum_matching(routes, trips.drop_last(), sid) == 0);
    } else {
        let rest = routes.drop_last();
        let rl = routes.last();
        lemma_sum_matching_split(rest, trips, sid);
        let cnt = route_id_count(rest, id);
        assert(sum_matching(routes, trips, sid) == sum_matching(rest, trips, sid)
            + route_matching(rl, trips, sid));
        assert(sum_matching(routes, trips.drop_last(), sid) == sum_matching(
            rest,
            trips.drop_last(),
            sid,
        ) + route_matching(rl, trips.drop_last(), sid));
        assert(route_id_count(routes, id) == cnt + if rl.id@ == id {
            1nat
        } else {
            0nat
        });
        let total = route_id_count(routes, id);
        assert(cnt * mc >= 0) by (nonlinear_arith);
        if rl.id@ == id {
            assert(route_matching(rl, trips, sid) == route_matching(rl, trips.drop_last(), sid)
                + mc);
            assert(total == cnt + 1);
            assert(total * mc == cnt * mc + mc) by (nonlinear_arith)
                requires total == cnt + 1;
        } else {
            assert(route_matching(rl, trips, sid) == route_matching(rl, trips.drop_last(), sid));
            assert(total == cnt);
            assert(total * mc == cnt * mc) by (nonlinear_arith)
                requires total == cnt;
        }
    }
}

proof fn lemma_route_id_count_zero(routes: Seq<FeedRoute>, id: Seq<char>)
    requires
        forall|a: int| 0 <= a < routes.len() ==> (#[trigger] routes[a]).id@ != id,
    ensures
        route_id_count(routes, id) == 0,
    decreases routes.len(),
{
    if routes.len() == 0 {
    } else {
        lemma_route_id_count_zero(routes.drop_last(), id);
    }
}

proof fn lemma_route_id_count_unique(routes: Seq<FeedRoute>, id: Seq<char>, w: int)
    requires
        unique_route_ids(routes),
        0 <= w < routes.len(),
        routes[w].id@ == id,
    ensures
        route_id_count(routes, id) == 1,
    decreases routes.len(),
{
    if routes.last().id@ == id {
        assert forall|a: int| 0 <= a < routes.drop_last().len() implies (#[trigger] routes.drop_last()[a]).id@
            != id by {
            assert(routes[a].id@ != routes[routes.len() - 1].id@);
        }
        lemma_route_id_count_zero(routes.drop_last(), id);
    } else {
        assert(w < routes.len() - 1);
        assert(routes.drop_last()[w].id@ == id);
        lemma_route_id_count_unique(routes.drop_last(), id, w);
    }
}

proof fn lemma_sum_eq_total(routes: Seq<FeedRoute>, trips: Seq<FeedTrip>, sid: Seq<char>)
    requires
        unique_route_ids(routes),
        trips_have_routes(routes, trips),
    ensures
        sum_matching(routes, trips, sid) == total_matching(trips, sid),
    decreases trips.len(),
{
    if trips.len() == 0 {
        assert(trips =~= Seq::<FeedTrip>::empty());
        lemma_sum_matching_empty(routes, sid);
    } else {
        lemma_sum_matching_split(routes, trips, sid);
        assert(0 <= trips.len() - 1 < trips.len());
        let i = choose|i: int|
            0 <= i < routes.len() && (#[trigger] routes[i]).id@ == trips[trips.len() - 1].route_id@;
        lemma_route_id_count_unique(routes, trips.last().route_id@, i);
        assert forall|j: int| 0 <= j < trips.drop_last().len() implies exists|i2: int|
            0 <= i2 < routes.len() && (#[trigger] routes[i2]).id@ == (#[trigger] trips.drop_last()[j]).route_id@ by {
            assert(trips.drop_last()[j] == trips[j]);
            let i3 = choose|i3: int|
                0 <= i3 < routes.len() && (#[trigger] routes[i3]).id@ == trips[j].route_id@;
            assert(routes[i3].id@ == trips.drop_last()[j].route_id@);
        }
        lemma_sum_eq_total(routes, trips.drop_last(), sid);
    }
}

/// Completeness: under a well-formed feed, whose route identifiers are
/// unique and whose trips all name existing routes, construction emits
/// exactly one record per stop-time entry that references the chosen
/// stop.
pub proof fn lemma_completeness(
    routes: Seq<FeedRoute>,
    trips: Seq<FeedTrip>,
    cals: Seq<FeedCalendar>,
    sid: Seq<char>,
)
    requires
        unique_route_ids(routes),
        trips_have_routes(routes, trips),
    ensures
        feed_records(routes, trips, cals, sid).len() == total_matching(trips, sid),
{
    lemma_feed_records_len(routes, trips, cals, sid);
    lemma_sum_eq_total(routes, trips, sid);
}

proof fn lemma_trip_records_stop(
    route: FeedRoute,
    trip: FeedTrip,
    sts: Seq<StopTimeEntry>,
    cal: CustomCalendar,
    sid: Seq<char>,
    name: Seq<char>,
)
    requires
        forall|k: int|
            0 <= k < sts.len() && (#[trigger] sts[k]).stop_id@ == sid ==> sts[k].stop_name@
                == name,
    ensures
        forall|n: int|
            0 <= n < trip_records(route, trip, sts, cal, sid).len() ==> (#[trigger] trip_records(
                route,
                trip,
                sts,
                cal,
                sid,
            )[n]).stop@ == name,
    decreases sts.len(),
{
    if sts.len() == 0 {
    } else {
        assert forall|k: int|
            0 <= k < sts.drop_last().len() && (#[trigger] sts.drop_last()[k]).stop_id@
                == sid implies sts.drop_last()[k].stop_name@ == name by {
            assert(sts.drop_last()[k] == sts[k]);
        }
        lemma_trip_records_stop(route, trip, sts.drop_last(), cal, sid, name);
    }
}

proof fn lemma_route_records_stop(
    route: FeedRoute,
    trips: Seq<FeedTrip>,
    cals: Seq<FeedCalendar>,
    sid: Seq<char>,
    name: Seq<char>,
)
    requires
        stop_names_consistent(trips, sid, name),
    ensures
        forall|n: int|
            0 <= n < route_records(route, trips, cals, sid).len() ==> (#[trigger] route_records(
                route,
                trips,
                cals,
                sid,
            )[n]).stop@ == name,
    decreases trips.len(),
{
    if trips.len() == 0 {
    } else {
        assert forall|j: int, k: int|
            0 <= j < trips.drop_last().len() && 0 <= k < trips.drop_last()[j].stop_times@.len() && (
            #[trigger] trips.drop_last()[j].stop_times@[k]).stop_id@ == sid implies trips.drop_last()[j].stop_times@[k].stop_name@
            == name by {
            assert(trips.drop_last()[j] == trips[j]);
        }
        lemma_route_records_stop(route, trips.drop_last(), cals, sid, name);
        if trips.last().route_id@ == route.id@ {
            let jl = trips.len() - 1;
            assert forall|k: int|
                0 <= k < trips[jl].stop_times@.len() && (#[trigger] trips[jl].stop_times@[k]).stop_id@
                    == sid implies trips[jl].stop_times@[k].stop_name@ == name by {}
            lemma_trip_records_stop(
                route,
                trips.last(),
                trips.last().stop_times@,
                trip_calendar(trips.last(), cals),
                sid,
                name,
            );
        }
    }
}

/// Stop-scoping: when the feed names the chosen stop consistently,
/// every record of the constructed database carries that stop's display
/// name, and no record of another stop appears.
pub proof fn lemma_stop_scoping(
    routes: Seq<FeedRoute>,
    trips: Seq<FeedTrip>,
    cals: Seq<FeedCalendar>,
    sid: Seq<char>,
    name: Seq<char>,
)
    requires
        stop_names_consistent(trips, sid, name),
    ensures
        forall|n: int|
            0 <= n < feed_records(routes, trips, cals, sid).len() ==> (#[trigger] feed_records(
                routes,
                trips,
                cals,
                sid,
            )[n]).stop@ == name,
    decreases routes.len(),
{
    if routes.len() == 0 {
    } else {
        lemma_stop_scoping(routes.drop_last(), trips, cals, sid, name);
        lemma_route_records_stop(routes.last(), trips, cals, sid, name);
    }
}

} // verus!
