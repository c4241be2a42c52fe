use std::rc::Rc;
use std::sync::Arc;

use transpors::calendar::{Date, Weekday};
use transpors::config::{Config, Stop};
use transpors::db::{CustomCalendar, Database, Record};
use transpors::feed::FeedStop;
use transpors::timetables::Timetables;
use transpors::utils::is_stop_in_stops;

fn date(year: u32, month: u32, day: u32) -> Date {
    Date { year, month, day }
}

fn weekday_cal() -> CustomCalendar {
    CustomCalendar {
        monday: true,
        tuesday: true,
        wednesday: true,
        thursday: true,
        friday: true,
        saturday: false,
        sunday: false,
        start_date: date(2020, 1, 1),
        end_date: date(2020, 12, 31),
    }
}

fn weekend_cal() -> CustomCalendar {
    CustomCalendar {
        monday: false,
        tuesday: false,
        wednesday: false,
        thursday: false,
        friday: false,
        saturday: true,
        sunday: true,
        start_date: date(2020, 1, 1),
        end_date: date(2020, 12, 31),
    }
}

fn record(route: &str, stop_time: Option<u32>, calendar: CustomCalendar) -> Record {
    Record {
        route: route.to_string(),
        trip: "svc".to_string(),
        calendar,
        stop_time,
        stop: "Main Square".to_string(),
    }
}

fn single_stop_config(records: Vec<Record>) -> Config {
    Config {
        data_file_url: String::new(),
        data_file_path: String::new(),
        stops: vec![Stop {
            id: "s1".to_string(),
            name: "Main Square".to_string(),
            database: Database { records },
        }],
    }
}

#[test]
fn sunday_query_returns_absent_first_then_weekend_route() {
    // Route B's calendar also covers Sunday, so that only route A is
    // excluded by the weekday filter.
    let mut b_cal = weekday_cal();
    b_cal.sunday = true;
    let records = vec![
        record("A", Some(28800), weekday_cal()),
        record("B", None, b_cal),
        record("C", Some(25200), weekend_cal()),
    ];
    let config = Rc::new(single_stop_config(records));
    let timetables = Timetables::from(config.clone());
    let next = timetables.get_next_departures(&config.stops[0], date(2020, 12, 6), Weekday::Sunday);
    assert_eq!(next.len(), 2);
    assert_eq!(next[0].route, "B");
    assert_eq!(next[0].stop_time, None);
    assert_eq!(next[1].route, "C");
    assert_eq!(next[1].stop_time, Some(25200));
}

#[test]
fn weekday_mismatch_excludes_records() {
    let records = vec![record("A", Some(28800), weekday_cal())];
    let config = Rc::new(single_stop_config(records));
    let timetables = Timetables::from(config.clone());
    let next = timetables.get_next_departures(&config.stops[0], date(2020, 12, 6), Weekday::Sunday);
    assert!(next.is_empty());
}

#[test]
fn date_outside_every_range_yields_empty_result() {
    let records = vec![
        record("A", Some(28800), weekday_cal()),
        record("C", Some(25200), weekend_cal()),
    ];
    let config = Rc::new(single_stop_config(records));
    let timetables = Timetables::from(config.clone());
    let before =
        timetables.get_next_departures(&config.stops[0], date(2019, 12, 31), Weekday::Tuesday);
    assert!(before.is_empty());
    let after =
        timetables.get_next_departures(&config.stops[0], date(2021, 1, 1), Weekday::Friday);
    assert!(after.is_empty());
}

#[test]
fn range_bounds_are_inclusive() {
    let records = vec![record("A", Some(100), weekday_cal())];
    let config = Rc::new(single_stop_config(records));
    let timetables = Timetables::from(config.clone());
    let first =
        timetables.get_next_departures(&config.stops[0], date(2020, 1, 1), Weekday::Wednesday);
    assert_eq!(first.len(), 1);
    let last =
        timetables.get_next_departures(&config.stops[0], date(2020, 12, 31), Weekday::Thursday);
    assert_eq!(last.len(), 1);
}

#[test]
fn output_is_sorted_ascending_by_time() {
    let records = vec![
        record("A", Some(50000), weekday_cal()),
        record("B", Some(100), weekday_cal()),
        record("C", None, weekday_cal()),
        record("D", Some(28800), weekday_cal()),
    ];
    let config = Rc::new(single_stop_config(records));
    let timetables = Timetables::from(config.clone());
    let next = timetables.get_next_departures(&config.stops[0], date(2020, 6, 1), Weekday::Monday);
    let times: Vec<Option<u32>> = next.iter().map(|r| r.stop_time).collect();
    assert_eq!(times, vec![None, Some(100), Some(28800), Some(50000)]);
}

#[test]
fn records_with_equal_times_keep_input_order() {
    let records = vec![
        record("X", Some(500), weekday_cal()),
        record("Y", Some(500), weekday_cal()),
        record("Z", None, weekday_cal()),
        record("W", None, weekday_cal()),
    ];
    let config = Rc::new(single_stop_config(records));
    let timetables = Timetables::from(config.clone());
    let next = timetables.get_next_departures(&config.stops[0], date(2020, 6, 1), Weekday::Monday);
    let routes: Vec<&str> = next.iter().map(|r| r.route.as_str()).collect();
    assert_eq!(routes, vec!["Z", "W", "X", "Y"]);
}

#[test]
fn running_the_same_query_twice_yields_identical_output() {
    let records = vec![
        record("A", Some(50000), weekday_cal()),
        record("B", None, weekday_cal()),
        record("C", Some(100), weekday_cal()),
    ];
    let config = Rc::new(single_stop_config(records));
    let timetables = Timetables::from(config.clone());
    let first =
        timetables.get_next_departures(&config.stops[0], date(2020, 6, 1), Weekday::Monday);
    let second =
        timetables.get_next_departures(&config.stops[0], date(2020, 6, 1), Weekday::Monday);
    let a: Vec<(&str, Option<u32>)> = first.iter().map(|r| (r.route.as_str(), r.stop_time)).collect();
    let b: Vec<(&str, Option<u32>)> = second.iter().map(|r| (r.route.as_str(), r.stop_time)).collect();
    assert_eq!(a, b);
}

#[test]
fn empty_database_query_is_empty_not_an_error() {
    let config = Rc::new(single_stop_config(vec![]));
    let timetables = Timetables::from(config.clone());
    let next = timetables.get_next_departures(&config.stops[0], date(2020, 12, 6), Weekday::Sunday);
    assert!(next.is_empty());
}

#[test]
fn aggregator_preserves_the_configured_stop_order() {
    let mut config = single_stop_config(vec![record("A", Some(100), weekday_cal())]);
    config.stops.push(Stop {
        id: "s2".to_string(),
        name: "Harbour".to_string(),
        database: Database {
            records: vec![Record {
                stop: "Harbour".to_string(),
                ..record("B", Some(200), weekday_cal())
            }],
        },
    });
    let config = Rc::new(config);
    let timetables = Timetables::from(config.clone());
    let departures = timetables.get_departures(date(2020, 6, 1), Weekday::Monday);
    assert_eq!(departures.len(), 2);
    assert_eq!(departures[0].stop.name, "Main Square");
    assert_eq!(departures[0].departures.len(), 1);
    assert_eq!(departures[0].departures[0].route, "A");
    assert_eq!(departures[1].stop.name, "Harbour");
    assert_eq!(departures[1].departures[0].route, "B");
}

#[test]
fn each_weekday_flag_gates_its_own_day() {
    let days = [
        Weekday::Monday,
        Weekday::Tuesday,
        Weekday::Wednesday,
        Weekday::Thursday,
        Weekday::Friday,
        Weekday::Saturday,
        Weekday::Sunday,
    ];
    for (n, day) in days.iter().enumerate() {
        let mut cal = weekend_cal();
        cal.saturday = false;
        cal.sunday = false;
        match n {
            0 => cal.monday = true,
            1 => cal.tuesday = true,
            2 => cal.wednesday = true,
            3 => cal.thursday = true,
            4 => cal.friday = true,
            5 => cal.saturday = true,
            _ => cal.sunday = true,
        }
        let config = Rc::new(single_stop_config(vec![record("A", Some(100), cal)]));
        let timetables = Timetables::from(config.clone());
        for (m, query_day) in days.iter().enumerate() {
            let next =
                timetables.get_next_departures(&config.stops[0], date(2020, 6, 1), *query_day);
            assert_eq!(next.len(), if m == n { 1 } else { 0 });
        }
    }
}

#[test]
fn date_comparison_orders_by_year_month_day() {
    let a = date(2019, 12, 31);
    let b = date(2020, 1, 1);
    let c = date(2020, 1, 2);
    assert!(a.le(&b) && b.le(&c) && a.le(&a));
    assert!(!b.le(&a) && !c.le(&b));
}

#[test]
fn finds_a_stop_by_identifier_among_chosen_stops() {
    let chosen = vec![
        (
            "s1".to_string(),
            Arc::new(FeedStop {
                id: "s1".to_string(),
                name: "Main Square".to_string(),
            }),
        ),
        (
            "s2".to_string(),
            Arc::new(FeedStop {
                id: "s2".to_string(),
                name: "Harbour".to_string(),
            }),
        ),
    ];
    let here = FeedStop {
        id: "s2".to_string(),
        name: "Harbour".to_string(),
    };
    let elsewhere = FeedStop {
        id: "s9".to_string(),
        name: "Nowhere".to_string(),
    };
    assert!(is_stop_in_stops(&here, &chosen));
    assert!(!is_stop_in_stops(&elsewhere, &chosen));
}
