use transpors::calendar::Date;
use transpors::db::{CustomCalendar, Database, ScheduleError};
use transpors::feed::{Feed, FeedCalendar, FeedRoute, FeedStop, FeedTrip, StopTimeEntry};

fn date(year: u32, month: u32, day: u32) -> Date {
    Date { year, month, day }
}

fn weekday_calendar(id: &str) -> FeedCalendar {
    FeedCalendar {
        id: id.to_string(),
        monday: true,
        tuesday: true,
        wednesday: true,
        thursday: true,
        friday: true,
        saturday: false,
        sunday: false,
        start_date: date(2020, 1, 1),
        end_date: date(2020, 12, 31),
    }
}

fn entry(stop_id: &str, stop_name: &str, arrival_time: Option<u32>) -> StopTimeEntry {
    StopTimeEntry {
        stop_id: stop_id.to_string(),
        stop_name: stop_name.to_string(),
        arrival_time,
    }
}

fn basic_feed() -> Feed {
    Feed {
        routes: vec![
            FeedRoute {
                id: "r1".to_string(),
                short_name: "A".to_string(),
            },
            FeedRoute {
                id: "r2".to_string(),
                short_name: "B".to_string(),
            },
        ],
        trips: vec![
            FeedTrip {
                route_id: "r1".to_string(),
                service_id: "wk".to_string(),
                stop_times: vec![
                    entry("s1", "Main Square", Some(28800)),
                    entry("s2", "Harbour", Some(29000)),
                ],
            },
            FeedTrip {
                route_id: "r2".to_string(),
                service_id: "wk".to_string(),
                stop_times: vec![
                    entry("s2", "Harbour", Some(30000)),
                    entry("s1", "Main Square", Some(30600)),
                ],
            },
        ],
        calendars: vec![weekday_calendar("wk")],
    }
}

fn stop(id: &str, name: &str) -> FeedStop {
    FeedStop {
        id: id.to_string(),
        name: name.to_string(),
    }
}

#[test]
fn builds_one_record_per_matching_entry() {
    let feed = basic_feed();
    let db = Database::from(&feed, &stop("s1", "Main Square")).unwrap();
    assert_eq!(db.records.len(), 2);
    assert_eq!(db.records[0].route, "A");
    assert_eq!(db.records[0].trip, "wk");
    assert_eq!(db.records[0].stop_time, Some(28800));
    assert_eq!(db.records[0].stop, "Main Square");
    assert_eq!(db.records[1].route, "B");
    assert_eq!(db.records[1].stop_time, Some(30600));
}

#[test]
fn copies_the_calendar_by_value() {
    let feed = basic_feed();
    let db = Database::from(&feed, &stop("s1", "Main Square")).unwrap();
    let cal = &db.records[0].calendar;
    assert!(cal.monday && cal.tuesday && cal.wednesday && cal.thursday && cal.friday);
    assert!(!cal.saturday && !cal.sunday);
    assert_eq!(cal.start_date, date(2020, 1, 1));
    assert_eq!(cal.end_date, date(2020, 12, 31));
}

#[test]
fn trip_visiting_the_stop_twice_yields_two_records() {
    let mut feed = basic_feed();
    feed.trips[0]
        .stop_times
        .push(entry("s1", "Main Square", Some(40000)));
    let db = Database::from(&feed, &stop("s1", "Main Square")).unwrap();
    assert_eq!(db.records.len(), 3);
}

#[test]
fn records_keep_feed_traversal_order() {
    let feed = basic_feed();
    let db = Database::from(&feed, &stop("s2", "Harbour")).unwrap();
    assert_eq!(db.records[0].route, "A");
    assert_eq!(db.records[1].route, "B");
}

#[test]
fn unknown_stop_yields_empty_database() {
    let feed = basic_feed();
    let db = Database::from(&feed, &stop("nowhere", "Nowhere")).unwrap();
    assert_eq!(db.records.len(), 0);
}

#[test]
fn missing_calendar_fails_construction() {
    let mut feed = basic_feed();
    feed.trips[1].service_id = "ghost".to_string();
    let err = Database::from(&feed, &stop("s1", "Main Square")).unwrap_err();
    let ScheduleError::MissingCalendar(service) = err;
    assert_eq!(service, "ghost");
}

#[test]
fn missing_calendar_is_ignored_when_the_trip_avoids_the_stop() {
    let mut feed = basic_feed();
    feed.trips[1].service_id = "ghost".to_string();
    feed.trips[1].stop_times = vec![entry("s3", "Elsewhere", None)];
    let db = Database::from(&feed, &stop("s1", "Main Square")).unwrap();
    assert_eq!(db.records.len(), 1);
}

#[test]
fn trip_of_an_unknown_route_contributes_nothing() {
    let mut feed = basic_feed();
    feed.trips[0].route_id = "r9".to_string();
    let db = Database::from(&feed, &stop("s1", "Main Square")).unwrap();
    assert_eq!(db.records.len(), 1);
    assert_eq!(db.records[0].route, "B");
}

#[test]
fn get_calendar_finds_entries_by_identifier() {
    let feed = basic_feed();
    assert_eq!(feed.get_calendar(&"wk".to_string()).unwrap().id, "wk");
    assert!(feed.get_calendar(&"ghost".to_string()).is_none());
}

#[test]
fn custom_calendar_from_copies_every_field() {
    let fc = FeedCalendar {
        saturday: true,
        ..weekday_calendar("wk")
    };
    let cal = CustomCalendar::from(&fc);
    assert!(cal.monday && cal.saturday && !cal.sunday);
    assert_eq!(cal.start_date, fc.start_date);
    assert_eq!(cal.end_date, fc.end_date);
}

#[test]
fn record_arrival_time_may_be_absent() {
    let mut feed = basic_feed();
    feed.trips[0].stop_times[0].arrival_time = None;
    let db = Database::from(&feed, &stop("s1", "Main Square")).unwrap();
    assert_eq!(db.records[0].stop_time, None);
}
