//! Departure queries: date- and weekday-filtered, time-ordered views over
//! the per-stop schedule databases.

use vstd::prelude::*;

use std::rc::Rc;

use crate::calendar::{date_le, Date, Weekday};
use crate::config::{Config, Stop};
use crate::db::{runs_on, CustomCalendar, Record};

verus! {

/// One stop's query result: the stop and the matching records, ordered
/// by time of day.
pub struct Departure<'a> {
    pub stop: &'a Stop,
    pub departures: Vec<&'a Record>,
}

/// The query engine over a configuration of stops.
pub struct Timetables {
    pub config: Rc<Config>,
}

/// The filter predicate of a departure query: the date lies in the
/// calendar's inclusive validity range, and the calendar's flag for the
/// date's weekday is set.
pub open spec fn active_on(cal: CustomCalendar, date: Date, day: Weekday) -> bool {
    date_le(cal.start_date, date) && date_le(date, cal.end_date) && runs_on(cal, day)
}

/// The order a query sorts by: ascending time of day, with an absent
/// time ordered before any present one.
pub open spec fn time_le(a: Option<u32>, b: Option<u32>) -> bool {
    match (a, b) {
        (None, _) => true,
        (Some(_), None) => false,
        (Some(x), Some(y)) => x <= y,
    }
}

/// Non-decreasing by `stop_time` under `time_le`.
pub open spec fn sorted_by_time(s: Seq<Record>) -> bool {
    forall|a: int, b: int|
        0 <= a < b < s.len() ==> time_le(s[a].stop_time, s[b].stop_time)
}

/// The records of `recs` whose calendar is active on the query date and
/// weekday, in input order.
pub open spec fn matching_records(recs: Seq<Record>, date: Date, day: Weekday) -> Seq<Record>
    decreases recs.len(),
{
    if recs.len() == 0 {
        Seq::empty()
    } else {
        matching_records(recs.drop_last(), date, day) + if active_on(
            recs.last().calendar,
            date,
            day,
        ) {
            seq![recs.last()]
        } else {
            Seq::empty()
        }
    }
}

/// Inserts `x` into the sorted `s`, before the first record with a
/// strictly later time; a record inserted later therefore lands after
/// every record with the same time.
pub open spec fn insert_by_time(s: Seq<Record>, x: Record) -> Seq<Record>
    decreases s.len(),
{
    if s.len() == 0 {
        seq![x]
    } else if !time_le(s.first().stop_time, x.stop_time) {
        seq![x] + s
    } else {
        seq![s.first()] + insert_by_time(s.drop_first(), x)
    }
}

/// Stable sort by time of day: records are inserted in input order, so
/// records with equal times keep their relative order.
pub open spec fn sort_by_time(s: Seq<Record>) -> Seq<Record>
    decreases s.len(),
{
    if s.len() == 0 {
        Seq::empty()
    } else {
        insert_by_time(sort_by_time(s.drop_last()), s.last())
    }
}

/// What a departure query returns: the active records of the database,
/// sorted ascending by time of day.
pub open spec fn departures_of(recs: Seq<Record>, date: Date, day: Weekday) -> Seq<Record> {
    sort_by_time(matching_records(recs, date, day))
}

/// The records a sequence of references points at.
pub open spec fn deref_all(s: Seq<&Record>) -> Seq<Record> {
    s.map_values(|rec: &Record| *rec)
}

proof fn lemma_insert_by_time_multiset(s: Seq<Record>, x: Record)
    ensures
        insert_by_time(s, x).to_multiset() =~= s.to_multiset().insert(x),
    decreases s.len(),
{
    broadcast use vstd::seq_lib::group_to_multiset_ensures;
    broadcast use vstd::multiset::group_multiset_axioms;
    broadcast use vstd::seq_lib::lemma_multiset_commutative;

    if s.len() == 0 {
        assert(insert_by_time(s, x) =~= Seq::<Record>::empty().push(x));
        assert(s =~= Seq::<Record>::empty());
    } else if !time_le(s.first().stop_time, x.stop_time) {
        assert(seq![x] =~= Seq::<Record>::empty().push(x));
    } else {
        lemma_insert_by_time_multiset(s.drop_first(), x);
        assert(seq![s.first()] =~= Seq::<Record>::empty().push(s.first()));
        assert(s =~= seq![s.first()] + s.drop_first());
    }
}

proof fn lemma_insert_by_time_sorted(s: Seq<Record>, x: Record)
    requires
        sorted_by_time(s),
    ensures
        sorted_by_time(insert_by_time(s, x)),
    decreases s.len(),
{
    broadcast use vstd::seq_lib::group_to_multiset_ensures;
    broadcast use vstd::multiset::group_multiset_axioms;

    if s.len() == 0 {
    } else if !time_le(s.first().stop_time, x.stop_time) {
        let t = seq![x] + s;
        assert forall|a: int, b: int| 0 <= a < b < t.len() implies time_le(
            t[a].stop_time,
            t[b].stop_time,
        ) by {
            if a == 0 {
                assert(time_le(x.stop_time, s.first().stop_time));
                if b > 1 {
                    assert(time_le(s[0].stop_time, s[b - 1].stop_time));
                }
            } else {
                assert(time_le(s[a - 1].stop_time, s[b - 1].stop_time));
            }
        }
    } else {
        lemma_insert_by_time_sorted(s.drop_first(), x);
        lemma_insert_by_time_multiset(s.drop_first(), x);
        let rest = insert_by_time(s.drop_first(), x);
        let t = seq![s.first()] + rest;
        assert forall|a: int, b: int| 0 <= a < b < t.len() implies time_le(
            t[a].stop_time,
            t[b].stop_time,
        ) by {
            if a == 0 {
                let e = t[b];
                assert(rest.contains(e));
                assert(rest.to_multiset().count(e) > 0);
                if e == x {
                    assert(time_le(s.first().stop_time, x.stop_time));
                } else {
                    assert(s.drop_first().to_multiset().count(e) > 0);
                    assert(s.drop_first().contains(e));
                    let n = choose|n: int|
                        0 <= n < s.drop_first().len() && s.drop_first()[n] == e;
                    assert(time_le(s[0].stop_time, s[n + 1].stop_time));
                }
            } else {
                assert(time_le(rest[a - 1].stop_time, rest[b - 1].stop_time));
            }
        }
    }
}

/// What sorting guarantees: the output is sorted by time, and holds
/// exactly the input records, with multiplicity.
pub proof fn lemma_sort_by_time_ensures(s: Seq<Record>)
    ensures
        sorted_by_time(sort_by_time(s)),
        sort_by_time(s).to_multiset() =~= s.to_multiset(),
        sort_by_time(s).len() == s.len(),
        forall|r: Record| sort_by_time(s).contains(r) <==> s.contains(r),
    decreases s.len(),
{
    broadcast use vstd::seq_lib::group_to_multiset_ensures;
    broadcast use vstd::multiset::group_multiset_axioms;

    if s.len() == 0 {
        assert(sort_by_time(s) =~= s);
    } else {
        lemma_sort_by_time_ensures(s.drop_last());
        lemma_insert_by_time_sorted(sort_by_time(s.drop_last()), s.last());
        lemma_insert_by_time_multiset(sort_by_time(s.drop_last()), s.last());
        assert(s =~= s.drop_last().push(s.last()));
        assert(s.to_multiset() =~= s.drop_last().to_multiset().insert(s.last()));
        assert(sort_by_time(s).len() == sort_by_time(s).to_multiset().len());
        assert(s.len() == s.to_multiset().len());
        assert forall|r: Record| sort_by_time(s).contains(r) <==> s.contains(r) by {
            assert(sort_by_time(s).contains(r) <==> sort_by_time(s).to_multiset().count(r) > 0);
            assert(s.contains(r) <==> s.to_multiset().count(r) > 0);
        }
    }
}

/// Every record a query keeps is active on the query date and weekday.
proof fn lemma_matching_records_active(recs: Seq<Record>, date: Date, day: Weekday)
    ensures
        forall|n: int|
            0 <= n < matching_records(recs, date, day).len() ==> active_on(
                (#[trigger] matching_records(recs, date, day)[n]).calendar,
                date,
                day,
            ),
    decreases recs.len(),
{
    if recs.len() == 0 {
    } else {
        lemma_matching_records_active(recs.drop_last(), date, day);
    }
}

/// Date filter correctness: a record appears in a query result only if
/// the query date lies inside its calendar's inclusive validity range.
pub proof fn lemma_date_filter_correct(recs: Seq<Record>, date: Date, day: Weekday, r: Record)
    requires
        departures_of(recs, date, day).contains(r),
    ensures
        date_le(r.calendar.start_date, date),
        date_le(date, r.calendar.end_date),
{
    lemma_record_active(recs, date, day, r);
}

/// Weekday filter correctness: a record appears in a query result only
/// if its calendar's flag for the query weekday is set.
pub proof fn lemma_weekday_filter_correct(recs: Seq<Record>, date: Date, day: Weekday, r: Record)
    requires
        departures_of(recs, date, day).contains(r),
    ensures
        runs_on(r.calendar, day),
{
    lemma_record_active(recs, date, day, r);
}

proof fn lemma_record_active(recs: Seq<Record>, date: Date, day: Weekday, r: Record)
    requires
        departures_of(recs, date, day).contains(r),
    ensures
        active_on(r.calendar, date, day),
{
    let matching = matching_records(recs, date, day);
    lemma_sort_by_time_ensures(matching);
    lemma_matching_records_active(recs, date, day);
    assert(matching.contains(r));
    let n = choose|n: int| 0 <= n < matching.len() && matching[n] == r;
    assert(active_on(matching[n].calendar, date, day));
}

/// Ordering: a query's output is non-decreasing by time of day, with
/// absent times ordered before all present times.
pub proof fn lemma_departures_sorted(recs: Seq<Record>, date: Date, day: Weekday)
    ensures
        sorted_by_time(departures_of(recs, date, day)),
{
    lemma_sort_by_time_ensures(matching_records(recs, date, day));
}

/// Idempotence: the query is a pure function of the database and the
/// query context, so two runs against an unmodified database yield
/// identical output, same elements in the same order.
pub proof fn lemma_query_idempotent(
    recs: Seq<Record>,
    date: Date,
    day: Weekday,
    r1: Seq<Record>,
    r2: Seq<Record>,
)
    requires
        r1 == departures_of(recs, date, day),
        r2 == departures_of(recs, date, day),
    ensures
        r1 == r2,
{
}

/// The order on optional times, as executable code.
fn opt_time_le(a: Option<u32>, b: Option<u32>) -> (r: bool)
    ensures
        r == time_le(a, b),
{
    match (a, b) {
        (None, _) => true,
        (Some(_), None) => false,
        (Some(x), Some(y)) => x <= y,
    }
}

impl Timetables {
    /// Wraps a configuration for querying.
    pub fn from(config: Rc<Config>) -> (r: Timetables)
        ensures
            r.config == config,
    {
        Timetables { config }
    }

    /// Runs the departure query for every configured stop, preserving
    /// the configured stop order.
    pub fn get_departures<'a>(&'a self, date: Date, day: Weekday) -> (r: Vec<Departure<'a>>)
        ensures
            r@.len() == self.config.stops@.len(),
            forall|n: int|
                0 <= n < r@.len() ==> *(#[trigger] r@[n]).stop == self.config.stops@[n]
                    && deref_all(r@[n].departures@) == departures_of(
                    self.config.stops@[n].database.records@,
                    date,
                    day,
                ),
    {
        let mut departures: Vec<Departure<'a>> = Vec::new();
        let mut n: usize = 0;
        while n < self.config.stops.len()
            invariant
                n <= self.config.stops@.len(),
                departures@.len() == n,
                forall|m: int|
                    0 <= m < n ==> *(#[trigger] departures@[m]).stop == self.config.stops@[m]
                        && deref_all(departures@[m].departures@) == departures_of(
                        self.config.stops@[m].database.records@,
                        date,
                        day,
                    ),
            decreases self.config.stops@.len() - n,
        {
            let stop = &self.config.stops[n];
            let next = self.get_next_departures(stop, date, day);
            departures.push(Departure { stop, departures: next });
            n += 1;
        }
        departures
    }

    /// Answers one stop's departure query: the records of the stop's
    /// database whose calendar is active on `date` and `day`, sorted
    /// ascending by time of day (absent times first).
    #[verifier::loop_isolation(false)]
    pub fn get_next_departures<'a>(&self, stop: &'a Stop, date: Date, day: Weekday) -> (r: Vec<
        &'a Record,
    >)
        ensures
            deref_all(r@) == departures_of(stop.database.records@, date, day),
            sorted_by_time(deref_all(r@)),
    {
        let recs = &stop.database.records;
        let ghost all = stop.database.records@;

        let mut matching: Vec<&'a Record> = Vec::new();
        let mut idx: usize = 0;
        proof {
            assert(deref_all(matching@) =~= matching_records(all.take(0), date, day));
        }
        while idx < recs.len()
            invariant
                idx <= all.len(),
                deref_all(matching@) == matching_records(all.take(idx as int), date, day),
            decreases all.len() - idx,
        {
            let rec = &recs[idx];
            if rec.calendar.start_date.le(&date) && date.le(&rec.calendar.end_date)
                && rec.calendar.runs_on(day) {
                matching.push(rec);
            }
            proof {
                assert(all.take(idx as int + 1).drop_last() =~= all.take(idx as int));
                assert(all.take(idx as int + 1).last() == all[idx as int]);
                if active_on(all[idx as int].calendar, date, day) {
                    assert(deref_all(matching@) =~= matching_records(all.take(idx as int), date, day)
                        + seq![all[idx as int]]);
                } else {
                    assert(matching_records(all.take(idx as int + 1), date, day)
                        =~= matching_records(all.take(idx as int), date, day));
                }
            }
            idx += 1;
        }
        proof {
            assert(all.take(all.len() as int) =~= all);
        }
        let ghost matched = matching_records(all, date, day);

        let mut sorted: Vec<&'a Record> = Vec::new();
        let mut m: usize = 0;
        proof {
            assert(deref_all(sorted@) =~= sort_by_time(deref_all(matching@).take(0)));
        }
        while m < matching.len()
            invariant
                m <= matching@.len(),
                deref_all(sorted@) == sort_by_time(deref_all(matching@).take(m as int)),
                sorted_by_time(deref_all(sorted@)),
            decreases matching@.len() - m,
        {
            let x: &'a Record = matching[m];
            let ghost cur = deref_all(sorted@);
            let mut p: usize = sorted.len();
            while p > 0 && !opt_time_le(sorted[p - 1].stop_time, x.stop_time)
                invariant
                    p <= cur.len(),
                    forall|q: int|
                        p <= q < cur.len() ==> !time_le(
                            (#[trigger] cur[q]).stop_time,
                            x.stop_time,
                        ),
                decreases p,
            {
                p -= 1;
            }
            proof {
                lemma_insert_at(cur, *x, p as int);
                lemma_insert_by_time_sorted(cur, *x);
            }
            sorted.insert(p, x);
            proof {
                assert(deref_all(sorted@) =~= cur.subrange(0, p as int) + seq![*x] + cur.subrange(
                    p as int,
                    cur.len() as int,
                ));
                assert(deref_all(matching@).take(m as int + 1).drop_last() =~= deref_all(
                    matching@,
                ).take(m as int));
                assert(deref_all(matching@).take(m as int + 1).last() == *x);
            }
            m += 1;
        }
        proof {
            assert(deref_all(matching@).take(matching@.len() as int) =~= deref_all(matching@));
        }
        sorted
    }
}

/// Where `insert_by_time` puts a record: before the first record of the
/// sorted input with a strictly later time.
proof fn lemma_insert_at(s: Seq<Record>, x: Record, p: int)
    requires
        sorted_by_time(s),
        0 <= p <= s.len(),
        forall|q: int| p <= q < s.len() ==> !time_le((#[trigger] s[q]).stop_time, x.stop_time),
        p > 0 ==> time_le(s[p - 1].stop_time, x.stop_time),
    ensures
        insert_by_time(s, x) == s.subrange(0, p) + seq![x] + s.subrange(p, s.len() as int),
    decreases s.len(),
{
    if p == 0 {
        if s.len() == 0 {
            assert(insert_by_time(s, x) =~= s.subrange(0, 0) + seq![x] + s.subrange(0, 0));
        } else {
            assert(!time_le(s[0].stop_time, x.stop_time));
            assert(insert_by_time(s, x) == seq![x] + s);
            assert(seq![x] + s =~= s.subrange(0, 0) + seq![x] + s.subrange(0, s.len() as int));
        }
    } else {
        assert(time_le(s[0].stop_time, x.stop_time)) by {
            if p > 1 {
                assert(time_le(s[0].stop_time, s[p - 1].stop_time));
            }
        }
        assert forall|q: int| p - 1 <= q < s.drop_first().len() implies !time_le(
            (#[trigger] s.drop_first()[q]).stop_time,
            x.stop_time,
        ) by {
            assert(s.drop_first()[q] == s[q + 1]);
        }
        lemma_insert_at(s.drop_first(), x, p - 1);
        assert(seq![s.first()] + (s.drop_first().subrange(0, p - 1) + seq![x]
            + s.drop_first().subrange(p - 1, s.drop_first().len() as int)) =~= s.subrange(0, p)
            + seq![x] + s.subrange(p, s.len() as int));
    }
}

} // verus!

