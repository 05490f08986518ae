use gtfs_timetable::calendar::{expand_calendar, FeedError};
use gtfs_timetable::feed::{CalendarException, Date, Direction, ExceptionType, StopTime, Trip};
use gtfs_timetable::pipeline::build_feed_index;
use gtfs_timetable::service_index::index_trips_by_service;
use gtfs_timetable::stop_order::{order_direction, resolve_route, resolve_route_orders, text_lt};
use gtfs_timetable::time::{format_date, format_time};
use gtfs_timetable::timetable::{trip_timetable, Warning};

fn date(year: u32, month: u32, day: u32) -> Date {
    Date { year, month, day }
}

fn exception(sid: &str, d: Date, added: bool) -> CalendarException {
    CalendarException {
        service_id: sid.to_string(),
        date: d,
        exception_type: if added { ExceptionType::Added } else { ExceptionType::Removed },
    }
}

fn trip(id: &str, route: &str, sid: &str, dir: Direction, stops: &[(&str, Option<u32>)]) -> Trip {
    Trip {
        id: id.to_string(),
        route_id: route.to_string(),
        service_id: sid.to_string(),
        direction: dir,
        stop_times: stops
            .iter()
            .map(|(s, a)| StopTime { stop_id: s.to_string(), arrival: *a })
            .collect(),
    }
}

fn stops(route: &[&str], offsets: &[u32]) -> Vec<(String, Option<u32>)> {
    route.iter().zip(offsets.iter()).map(|(s, a)| (s.to_string(), Some(*a))).collect()
}

fn trip_owned(id: &str, route: &str, sid: &str, dir: Direction, st: Vec<(String, Option<u32>)>) -> Trip {
    let borrowed: Vec<(&str, Option<u32>)> = st.iter().map(|(s, a)| (s.as_str(), *a)).collect();
    trip(id, route, sid, dir, &borrowed)
}

fn names(v: &[String]) -> Vec<&str> {
    v.iter().map(|s| s.as_str()).collect()
}

fn parse_back(text: &str) -> u32 {
    let (h, m) = text.split_once(':').unwrap();
    h.parse::<u32>().unwrap() * 3600 + m.parse::<u32>().unwrap() * 60
}

#[test]
fn time_formatter_pads_minutes_only() {
    assert_eq!(format_time(0), "0:00");
    assert_eq!(format_time(300), "0:05");
    assert_eq!(format_time(600), "0:10");
    assert_eq!(format_time(3600), "1:00");
    assert_eq!(format_time(4260), "1:11");
    assert_eq!(format_time(59), "0:00");
    assert_eq!(format_time(86399), "23:59");
}

#[test]
fn time_formatter_runs_past_midnight() {
    assert_eq!(format_time(90000), "25:00");
    assert_eq!(format_time(36000), "10:00");
    assert_eq!(format_time(u32::MAX), "1193046:28");
}

#[test]
fn time_text_round_trips_to_the_minute() {
    for t in [0u32, 59, 60, 61, 599, 3600, 3661, 4200, 86399, 90061, 123456] {
        assert_eq!(parse_back(&format_time(t)), t - t % 60);
    }
}

#[test]
fn date_text_is_iso() {
    assert_eq!(format_date(2021, 1, 18), "2021-01-18");
    assert_eq!(date(2021, 12, 5).to_iso_string(), "2021-12-05");
    assert_eq!(date(987, 3, 4).to_iso_string(), "0987-03-04");
}

#[test]
fn date_validity_follows_the_calendar() {
    assert!(date(2020, 2, 29).check_valid());
    assert!(!date(2021, 2, 29).check_valid());
    assert!(!date(1900, 2, 29).check_valid());
    assert!(date(2000, 2, 29).check_valid());
    assert!(!date(2021, 4, 31).check_valid());
    assert!(!date(2021, 13, 1).check_valid());
    assert!(!date(2021, 1, 0).check_valid());
}

#[test]
fn calendar_keeps_exactly_the_added_dates() {
    let exc = vec![
        exception("WD", date(2021, 1, 18), true),
        exception("WD", date(2021, 1, 19), true),
        exception("WD", date(2021, 1, 18), true),
        exception("WD", date(2021, 1, 20), false),
        exception("WE", date(2021, 1, 23), true),
    ];
    let idx = expand_calendar(&Vec::new(), &exc).unwrap();
    assert_eq!(idx.service_dates.len(), 2);
    let wd = idx.service_dates.iter().find(|e| e.0 == "WD").unwrap();
    assert_eq!(wd.1, vec![date(2021, 1, 18), date(2021, 1, 19)]);
    for d in &wd.1 {
        let entry = idx.date_services.iter().find(|e| e.0 == *d).unwrap();
        assert!(entry.1.iter().any(|s| s == "WD"));
    }
    assert_eq!(idx.date_services.len(), 3);
    assert!(idx.date_services.iter().all(|e| e.0 != date(2021, 1, 20)));
}

#[test]
fn calendar_lists_service_without_added_dates() {
    let exc = vec![exception("HOL", date(2021, 12, 25), false)];
    let idx = expand_calendar(&Vec::new(), &exc).unwrap();
    assert_eq!(idx.service_dates.len(), 1);
    assert_eq!(idx.service_dates[0].0, "HOL");
    assert!(idx.service_dates[0].1.is_empty());
    assert!(idx.date_services.is_empty());
}

#[test]
fn calendar_shares_a_date_between_services() {
    let exc = vec![
        exception("A", date(2021, 5, 1), true),
        exception("B", date(2021, 5, 1), true),
    ];
    let idx = expand_calendar(&Vec::new(), &exc).unwrap();
    assert_eq!(idx.date_services.len(), 1);
    assert_eq!(names(&idx.date_services[0].1), vec!["A", "B"]);
}

#[test]
fn calendar_rejects_a_date_that_does_not_exist() {
    let exc = vec![
        exception("A", date(2021, 5, 1), true),
        exception("A", date(2021, 2, 30), true),
        exception("A", date(2021, 13, 1), true),
    ];
    assert_eq!(expand_calendar(&Vec::new(), &exc).unwrap_err(), FeedError::InvalidDate { index: 1 });
}

#[test]
fn calendar_of_no_exceptions_is_empty() {
    let idx = expand_calendar(&Vec::new(), &Vec::new()).unwrap();
    assert!(idx.service_dates.is_empty());
    assert!(idx.date_services.is_empty());
}

#[test]
fn trips_are_grouped_under_their_service() {
    let trips = vec![
        trip("t1", "R1", "WD", Direction::Outbound, &[]),
        trip("t2", "R1", "WE", Direction::Outbound, &[]),
        trip("t3", "R2", "WD", Direction::Inbound, &[]),
    ];
    let idx = index_trips_by_service(&trips);
    assert_eq!(idx.len(), 2);
    assert_eq!(idx[0].0, "WD");
    assert_eq!(names(&idx[0].1), vec!["t1", "t3"]);
    assert_eq!(idx[1].0, "WE");
    assert_eq!(names(&idx[1].1), vec!["t2"]);
}

#[test]
fn text_order_is_by_code_point() {
    let s = |x: &str| x.to_string();
    assert!(text_lt(&s("A"), &s("B")));
    assert!(text_lt(&s("A"), &s("AB")));
    assert!(!text_lt(&s("AB"), &s("A")));
    assert!(!text_lt(&s("A"), &s("A")));
    assert!(text_lt(&s("Z"), &s("a")));
    assert!(text_lt(&s(""), &s("0")));
}

#[test]
fn linear_trips_give_their_order_in_any_presentation() {
    let a = trip("a", "R", "S", Direction::Outbound, &[("S3", None), ("S1", None), ("S2", None), ("S4", None)]);
    let b = trip("b", "R", "S", Direction::Outbound, &[("S3", None), ("S1", None), ("S2", None), ("S4", None)]);
    let c = trip("c", "R", "S", Direction::Outbound, &[("S3", None), ("S1", None), ("S2", None), ("S4", None)]);
    let r = "R".to_string();
    for trips in [vec![a.clone(), b.clone(), c.clone()], vec![c.clone(), a.clone(), b.clone()], vec![b, c, a]] {
        let o = order_direction(&trips, &r, Direction::Outbound);
        assert_eq!(names(&o.stops), vec!["S3", "S1", "S2", "S4"]);
        assert!(o.total);
    }
}

#[test]
fn first_adjacent_pair_counts() {
    let trips = vec![trip("a", "R", "S", Direction::Outbound, &[("Z", None), ("A", None)])];
    let o = order_direction(&trips, &"R".to_string(), Direction::Outbound);
    assert_eq!(names(&o.stops), vec!["Z", "A"]);
}

#[test]
fn partial_trips_merge_into_one_order() {
    let trips = vec![
        trip("a", "R", "S", Direction::Outbound, &[("S1", None), ("S2", None)]),
        trip("b", "R", "S", Direction::Outbound, &[("S2", None), ("S3", None)]),
        trip("c", "R", "S", Direction::Outbound, &[("S3", None), ("S4", None)]),
    ];
    let o = order_direction(&trips, &"R".to_string(), Direction::Outbound);
    assert_eq!(names(&o.stops), vec!["S1", "S2", "S3", "S4"]);
    assert!(o.total);
}

#[test]
fn ready_stops_are_taken_least_first() {
    let trips = vec![
        trip("a", "R", "S", Direction::Outbound, &[("C", None), ("X", None)]),
        trip("b", "R", "S", Direction::Outbound, &[("B", None), ("X", None)]),
        trip("c", "R", "S", Direction::Outbound, &[("A", None)]),
    ];
    let o = order_direction(&trips, &"R".to_string(), Direction::Outbound);
    assert_eq!(names(&o.stops), vec!["A", "B", "C", "X"]);
}

#[test]
fn cycle_leaves_a_partial_order() {
    let trips = vec![
        trip("a", "R", "S", Direction::Outbound, &[("P", None), ("A", None), ("B", None)]),
        trip("b", "R", "S", Direction::Outbound, &[("B", None), ("A", None)]),
    ];
    let o = order_direction(&trips, &"R".to_string(), Direction::Outbound);
    assert_eq!(names(&o.stops), vec!["P"]);
    assert!(!o.total);
    let ro = resolve_route(&trips, &"R".to_string()).unwrap();
    assert!(!ro.outbound_total);
    assert!(!ro.inbound_total);
}

#[test]
fn inbound_only_route_orders_its_inbound_trips() {
    let trips = vec![trip("a", "R", "S", Direction::Inbound, &[("S9", None), ("S8", None), ("S7", None)])];
    let ro = resolve_route(&trips, &"R".to_string()).unwrap();
    assert_eq!(names(&ro.inbound), vec!["S9", "S8", "S7"]);
    assert_eq!(names(&ro.outbound), vec!["S7", "S8", "S9"]);
    assert!(ro.inbound_total && ro.outbound_total);
}

#[test]
fn outbound_only_route_reverses_for_inbound() {
    let trips = vec![trip("a", "R", "S", Direction::Outbound, &[("S1", None), ("S2", None)])];
    let ro = resolve_route(&trips, &"R".to_string()).unwrap();
    assert_eq!(names(&ro.outbound), vec!["S1", "S2"]);
    assert_eq!(names(&ro.inbound), vec!["S2", "S1"]);
}

#[test]
fn both_directions_are_sorted_on_their_own() {
    let trips = vec![
        trip("a", "R", "S", Direction::Outbound, &[("S1", None), ("S2", None), ("S3", None)]),
        trip("b", "R", "S", Direction::Inbound, &[("S3", None), ("S1", None)]),
    ];
    let ro = resolve_route(&trips, &"R".to_string()).unwrap();
    assert_eq!(names(&ro.outbound), vec!["S1", "S2", "S3"]);
    assert_eq!(names(&ro.inbound), vec!["S3", "S1"]);
}

#[test]
fn unknown_direction_takes_no_part_in_orders() {
    let trips = vec![
        trip("a", "R", "S", Direction::Unknown, &[("S1", None), ("S2", None)]),
        trip("b", "Q", "S", Direction::Unknown, &[("S1", None)]),
        trip("c", "Q", "S", Direction::Outbound, &[("S5", None), ("S6", None)]),
    ];
    assert!(resolve_route(&trips, &"R".to_string()).is_none());
    let routes = vec!["R".to_string(), "Q".to_string(), "X".to_string()];
    let table = resolve_route_orders(&routes, &trips);
    assert_eq!(table.len(), 1);
    assert_eq!(table[0].0, "Q");
    assert_eq!(names(&table[0].1.outbound), vec!["S5", "S6"]);
}

#[test]
fn trip_timetable_formats_and_finds_earliest() {
    let t = trip("a", "R", "S", Direction::Outbound, &[("S1", Some(3900)), ("S2", None), ("S3", Some(3600))]);
    let tt = trip_timetable(&t);
    let got: Vec<(&str, &str)> = tt.times.iter().map(|(a, b)| (a.as_str(), b.as_str())).collect();
    assert_eq!(got, vec![("S1", "1:05"), ("S3", "1:00")]);
    assert_eq!(tt.first_time, Some(3600));
    assert_eq!(tt.missing_arrivals, vec![1]);
    let empty = trip_timetable(&trip("b", "R", "S", Direction::Outbound, &[("S1", None)]));
    assert!(empty.times.is_empty());
    assert_eq!(empty.first_time, None);
    assert_eq!(empty.missing_arrivals, vec![0]);
}

#[test]
fn end_to_end_two_dates_one_route() {
    let exc = vec![
        exception("WD", date(2021, 1, 18), true),
        exception("WD", date(2021, 1, 19), true),
    ];
    let trips = vec![
        trip_owned("t1", "R1", "WD", Direction::Outbound, stops(&["S1", "S2", "S3"], &[0, 300, 600])),
        trip_owned("t2", "R1", "WD", Direction::Outbound, stops(&["S1", "S2", "S3"], &[3600, 3900, 4200])),
    ];
    let routes = vec!["R1".to_string()];
    let ix = build_feed_index(&routes, &Vec::new(), &trips, &exc).unwrap();
    let mut units = Vec::new();
    for (d, _) in ix.calendar.date_services.iter() {
        let (recs, warnings) = ix.timetables_for(*d, &trips);
        assert!(warnings.is_empty());
        for rec in recs {
            units.push((d.to_iso_string(), rec));
        }
    }
    assert_eq!(units.len(), 2);
    assert_eq!(units[0].0, "2021-01-18");
    assert_eq!(units[1].0, "2021-01-19");
    for (_, rec) in &units {
        assert_eq!(rec.route_id, "R1");
        assert_eq!(rec.outbound.len(), 2);
        assert!(rec.inbound.is_empty());
        let first: Vec<(&str, &str)> = rec.outbound[0].times.iter().map(|(a, b)| (a.as_str(), b.as_str())).collect();
        let second: Vec<(&str, &str)> = rec.outbound[1].times.iter().map(|(a, b)| (a.as_str(), b.as_str())).collect();
        assert_eq!(first, vec![("S1", "0:00"), ("S2", "0:05"), ("S3", "0:10")]);
        assert_eq!(second, vec![("S1", "1:00"), ("S2", "1:05"), ("S3", "1:10")]);
        assert_eq!(names(rec.outbound_order.as_ref().unwrap()), vec!["S1", "S2", "S3"]);
        assert!(rec.outbound_order_total);
    }
}

#[test]
fn trip_of_service_without_dates_never_runs() {
    let exc = vec![
        exception("WD", date(2021, 1, 18), true),
        exception("NONE", date(2021, 1, 18), false),
    ];
    let trips = vec![
        trip("t1", "R1", "WD", Direction::Outbound, &[("S1", Some(0))]),
        trip("t2", "R2", "NONE", Direction::Outbound, &[("S1", Some(60))]),
    ];
    let routes = vec!["R1".to_string(), "R2".to_string()];
    let ix = build_feed_index(&routes, &Vec::new(), &trips, &exc).unwrap();
    let mut seen = 0;
    for (d, _) in ix.calendar.date_services.iter() {
        let (recs, _) = ix.timetables_for(*d, &trips);
        for rec in recs {
            assert_ne!(rec.route_id, "R2");
            seen += rec.outbound.len();
        }
    }
    assert_eq!(seen, 1);
}

#[test]
fn missing_trip_is_reported_and_the_day_goes_on() {
    let exc = vec![exception("WD", date(2021, 1, 18), true)];
    let trips = vec![
        trip("t1", "R1", "WD", Direction::Outbound, &[("S1", Some(0))]),
        trip("t2", "R1", "WD", Direction::Unknown, &[("S2", Some(120))]),
    ];
    let routes = vec!["R1".to_string()];
    let mut ix = build_feed_index(&routes, &Vec::new(), &trips, &exc).unwrap();
    ix.service_trips[0].1.push("ghost".to_string());
    let (recs, warnings) = ix.timetables_for(date(2021, 1, 18), &trips);
    assert_eq!(recs.len(), 1);
    assert_eq!(recs[0].outbound.len(), 1);
    assert_eq!(recs[0].unknown.len(), 1);
    assert_eq!(warnings.len(), 1);
    match &warnings[0] {
        Warning::MissingTrip { service_id, trip_id } => {
            assert_eq!(service_id, "WD");
            assert_eq!(trip_id, "ghost");
        }
    }
}

#[test]
fn date_without_service_has_no_timetables() {
    let exc = vec![exception("WD", date(2021, 1, 18), true)];
    let trips = vec![trip("t1", "R1", "WD", Direction::Outbound, &[("S1", Some(0))])];
    let ix = build_feed_index(&vec!["R1".to_string()], &Vec::new(), &trips, &exc).unwrap();
    let (recs, warnings) = ix.timetables_for(date(2021, 1, 20), &trips);
    assert!(recs.is_empty());
    assert!(warnings.is_empty());
}

#[test]
fn feed_index_fails_on_bad_calendar_date() {
    let exc = vec![exception("WD", date(2021, 2, 29), true)];
    let r = build_feed_index(&Vec::new(), &Vec::new(), &Vec::new(), &exc);
    assert!(matches!(r, Err(FeedError::InvalidDate { index: 0 })));
}

#[test]
fn calendar_dates_come_in_calendar_order() {
    let exc = vec![
        exception("WD", date(2021, 3, 1), true),
        exception("WD", date(2020, 12, 31), true),
        exception("WD", date(2021, 1, 19), true),
        exception("WD", date(2021, 1, 18), true),
        exception("WD", date(2021, 1, 19), true),
    ];
    let idx = expand_calendar(&Vec::new(), &exc).unwrap();
    assert_eq!(
        idx.service_dates[0].1,
        vec![date(2020, 12, 31), date(2021, 1, 18), date(2021, 1, 19), date(2021, 3, 1)]
    );
}

#[test]
fn calendar_lists_base_calendar_services() {
    let services = vec!["WEEKLY".to_string(), "WD".to_string()];
    let exc = vec![exception("WD", date(2021, 1, 18), true)];
    let idx = expand_calendar(&services, &exc).unwrap();
    assert_eq!(idx.service_dates.len(), 2);
    assert_eq!(idx.service_dates[0].0, "WEEKLY");
    assert!(idx.service_dates[0].1.is_empty());
    assert_eq!(idx.service_dates[1].0, "WD");
    assert_eq!(idx.service_dates[1].1, vec![date(2021, 1, 18)]);
}

#[test]
fn direction_without_links_takes_the_reverse() {
    let trips = vec![
        trip("a", "R", "S", Direction::Outbound, &[("S1", None), ("S2", None)]),
        trip("b", "R", "S", Direction::Inbound, &[("S2", None)]),
    ];
    let ro = resolve_route(&trips, &"R".to_string()).unwrap();
    assert_eq!(names(&ro.outbound), vec!["S1", "S2"]);
    assert_eq!(names(&ro.inbound), vec!["S2", "S1"]);
    let mirrored = vec![
        trip("a", "R", "S", Direction::Outbound, &[("S2", None)]),
        trip("b", "R", "S", Direction::Inbound, &[("S2", None), ("S1", None)]),
    ];
    let ro = resolve_route(&mirrored, &"R".to_string()).unwrap();
    assert_eq!(names(&ro.inbound), vec!["S2", "S1"]);
    assert_eq!(names(&ro.outbound), vec!["S1", "S2"]);
}

#[test]
fn trip_listed_twice_is_selected_once() {
    let exc = vec![exception("WD", date(2021, 1, 18), true)];
    let trips = vec![trip("t1", "R1", "WD", Direction::Outbound, &[("S1", Some(0))])];
    let mut ix = build_feed_index(&vec!["R1".to_string()], &Vec::new(), &trips, &exc).unwrap();
    ix.service_trips[0].1.push("t1".to_string());
    let (recs, warnings) = ix.timetables_for(date(2021, 1, 18), &trips);
    assert_eq!(recs.len(), 1);
    assert_eq!(recs[0].outbound.len(), 1);
    assert!(warnings.is_empty());
}

#[test]
fn each_missing_trip_gets_its_warning() {
    let exc = vec![exception("WD", date(2021, 1, 18), true)];
    let trips = vec![trip("t1", "R1", "WD", Direction::Outbound, &[("S1", Some(0))])];
    let mut ix = build_feed_index(&vec!["R1".to_string()], &Vec::new(), &trips, &exc).unwrap();
    ix.service_trips[0].1.push("x1".to_string());
    ix.service_trips[0].1.push("x2".to_string());
    let (_, warnings) = ix.timetables_for(date(2021, 1, 18), &trips);
    let ids: Vec<&str> = warnings
        .iter()
        .map(|w| match w {
            Warning::MissingTrip { trip_id, .. } => trip_id.as_str(),
        })
        .collect();
    assert_eq!(ids, vec!["x1", "x2"]);
}

#[test]
fn longer_cycle_leaves_a_partial_order() {
    let trips = vec![
        trip("a", "R", "S", Direction::Outbound, &[("A", None), ("B", None), ("C", None)]),
        trip("b", "R", "S", Direction::Outbound, &[("C", None), ("A", None)]),
        trip("c", "R", "S", Direction::Outbound, &[("Q", None), ("A", None)]),
    ];
    let o = order_direction(&trips, &"R".to_string(), Direction::Outbound);
    assert_eq!(names(&o.stops), vec!["Q"]);
    assert!(!o.total);
}

#[test]
fn repeated_trips_do_not_change_the_order() {
    let a = trip("a", "R", "S", Direction::Outbound, &[("S1", None), ("S3", None)]);
    let b = trip("b", "R", "S", Direction::Outbound, &[("S2", None), ("S3", None)]);
    let r = "R".to_string();
    let o1 = order_direction(&vec![a.clone(), b.clone()], &r, Direction::Outbound);
    let o2 = order_direction(&vec![b.clone(), a.clone(), b], &r, Direction::Outbound);
    assert_eq!(o1.stops, o2.stops);
    assert_eq!(names(&o1.stops), vec!["S1", "S2", "S3"]);
}
