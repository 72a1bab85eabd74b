use chrono::Datelike;
use timetable_graph::calendar::{day_bits_from_flags, OperatingPeriod};
use timetable_graph::feed::{
    Connection, Journey, MultiConnection, Passing, StopPlaceType, SubMultiConnection,
};
use timetable_graph::xml_path::path_vec_eq;

fn day(y: i32, m: u32, d: u32) -> u32 {
    chrono::NaiveDate::from_ymd_opt(y, m, d)
        .unwrap()
        .num_days_from_ce() as u32
}

fn period(from: u32, to: u32, flags: Vec<bool>) -> OperatingPeriod {
    OperatingPeriod {
        from_date: from,
        to_date: to,
        day_bits: day_bits_from_flags(&flags),
    }
}

#[test]
fn period_bit_set_indexing() {
    // Bits {0, 2} set over the range 2024-01-01 ..= 2024-01-03.
    let p = period(
        day(2024, 1, 1),
        day(2024, 1, 3),
        vec![true, false, true],
    );
    assert!(p.is_valid(day(2024, 1, 1)));
    assert!(!p.is_valid(day(2024, 1, 2)));
    assert!(p.is_valid(day(2024, 1, 3)));
    assert!(!p.is_valid(day(2024, 1, 4)));
    assert!(!p.is_valid(day(2023, 12, 31)));
}

#[test]
fn period_range_bounds_alone_do_not_validate() {
    // In range but bit clear.
    let p = period(day(2024, 5, 1), day(2024, 5, 10), vec![true, false]);
    assert!(p.is_valid(day(2024, 5, 1)));
    assert!(!p.is_valid(day(2024, 5, 2)));
    // Offset past the flags vector: bit unset.
    assert!(!p.is_valid(day(2024, 5, 9)));
}

fn parent_with_two_day_types(date: u32) -> SubMultiConnection {
    SubMultiConnection {
        operating_periods: vec![
            // Period 0 never covers `date`.
            period(date + 10, date + 20, vec![true]),
            // Period 1 covers `date`.
            period(date, date + 5, vec![true, true, true]),
        ],
        day_types: vec![Some(0), Some(1), None],
        journeys: Vec::new(),
    }
}

#[test]
fn journey_validity_is_or_over_day_types() {
    let date = day(2024, 11, 4);
    let parent = parent_with_two_day_types(date);
    let base = Journey {
        passings: Vec::new(),
        valid_from: date - 10,
        valid_to: date + 10,
        days: vec![0],
    };
    // Only an invalid day type referenced: does not run.
    assert!(!base.is_valid(&parent, date));
    // One valid reference among several: runs (OR semantics).
    let both = Journey { days: vec![0, 1], ..journey_like(&base) };
    assert!(both.is_valid(&parent, date));
    // A day type without an operating period never validates.
    let unassigned = Journey { days: vec![2], ..journey_like(&base) };
    assert!(!unassigned.is_valid(&parent, date));
    // No day types at all: never runs.
    let none = Journey { days: vec![], ..journey_like(&base) };
    assert!(!none.is_valid(&parent, date));
}

fn journey_like(j: &Journey) -> Journey {
    Journey {
        passings: j.passings.clone(),
        valid_from: j.valid_from,
        valid_to: j.valid_to,
        days: j.days.clone(),
    }
}

#[test]
fn journey_window_fails_fast() {
    let date = day(2024, 11, 4);
    let parent = parent_with_two_day_types(date);
    let j = Journey {
        passings: Vec::new(),
        valid_from: date + 1,
        valid_to: date + 10,
        days: vec![1],
    };
    // Day type 1 would validate, but the window excludes the date.
    assert!(!j.is_valid(&parent, date));
    let j2 = Journey { valid_from: date - 10, valid_to: date - 1, ..journey_like(&j) };
    assert!(!j2.is_valid(&parent, date));
}

#[test]
fn merge_collapses_duplicate_stops_first_seen_order() {
    let date = day(2024, 11, 4);
    let c1 = Connection {
        operating_periods: vec![period(date, date + 1, vec![true])],
        day_types: vec![Some(0)],
        stops: vec!["Alpha".to_string(), "Beta".to_string()],
        journeys: vec![Journey {
            passings: vec![
                Passing { stop_point: 0, arrival: None, departure: Some(100) },
                Passing { stop_point: 1, arrival: Some(200), departure: None },
            ],
            valid_from: date,
            valid_to: date,
            days: vec![0],
        }],
    };
    let c2 = Connection {
        operating_periods: vec![period(date, date + 1, vec![true])],
        day_types: vec![Some(0)],
        stops: vec!["Beta".to_string(), "Gamma".to_string()],
        journeys: vec![Journey {
            passings: vec![
                Passing { stop_point: 0, arrival: None, departure: Some(300) },
                Passing { stop_point: 1, arrival: Some(400), departure: None },
            ],
            valid_from: date,
            valid_to: date,
            days: vec![0],
        }],
    };
    let merged = MultiConnection::from_connections(vec![c1, c2]);
    assert_eq!(merged.stops, vec!["Alpha", "Beta", "Gamma"]);
    assert_eq!(merged.connections.len(), 2);
    // Second feed's journey now points at the shared indices.
    let j = &merged.connections[1].journeys[0];
    assert_eq!(j.passings[0].stop_point, 1);
    assert_eq!(j.passings[1].stop_point, 2);
    assert_eq!(j.passings[0].departure, Some(300));
    assert_eq!(j.passings[1].arrival, Some(400));
    // Calendar tables carried over unchanged.
    assert_eq!(merged.connections[0].day_types, vec![Some(0)]);
}

#[test]
fn valid_journeys_lists_exactly_the_valid_pairs() {
    let date = day(2024, 11, 4);
    let parent_periods = vec![period(date, date + 5, vec![true, true])];
    let running = Journey {
        passings: Vec::new(),
        valid_from: date - 1,
        valid_to: date + 1,
        days: vec![0],
    };
    let dormant = Journey {
        passings: Vec::new(),
        valid_from: date - 1,
        valid_to: date + 1,
        days: vec![],
    };
    let mc = MultiConnection {
        stops: vec!["Alpha".to_string()],
        connections: vec![SubMultiConnection {
            operating_periods: parent_periods,
            day_types: vec![Some(0)],
            journeys: vec![dormant, running],
        }],
    };
    let pairs = mc.valid_journeys(date);
    assert_eq!(pairs, vec![(0, 1)]);
}

#[test]
fn stop_place_type_from_str() {
    assert_eq!(StopPlaceType::from_str("railStation"), StopPlaceType::RailStation);
    assert_eq!(StopPlaceType::from_str("other"), StopPlaceType::Other);
    assert_eq!(StopPlaceType::from_str("harbourPort"), StopPlaceType::Unknown);
    assert_eq!(StopPlaceType::from_str(""), StopPlaceType::Unknown);
    assert_eq!(StopPlaceType::RailStation.label(), "RailStation");
    assert_eq!(StopPlaceType::Unknown.label(), "Unknown");
}

#[test]
fn path_vec_eq_matches_exact_paths_only() {
    let open = vec!["a".to_string(), "b".to_string(), "c".to_string()];
    assert!(path_vec_eq(&open, vec!["a", "b", "c"]));
    assert!(!path_vec_eq(&open, vec!["a", "b"]));
    assert!(!path_vec_eq(&open, vec!["a", "b", "d"]));
    assert!(!path_vec_eq(&open, vec!["a", "b", "c", "d"]));
    assert!(path_vec_eq(&Vec::new(), Vec::new()));
}

#[test]
fn day_bits_from_flags_sets_exactly_the_flagged_offsets() {
    let date = day(2024, 3, 1);
    let p = period(date, date + 4, vec![false, true, false, true, false]);
    assert!(!p.is_valid(date));
    assert!(p.is_valid(date + 1));
    assert!(!p.is_valid(date + 2));
    assert!(p.is_valid(date + 3));
    assert!(!p.is_valid(date + 4));
}
