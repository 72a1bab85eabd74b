use chrono::Datelike;
use timetable_graph::calendar::{day_bits_from_flags, OperatingPeriod};
use timetable_graph::connection_graph::{ConnectionGraph, StopKind};
use timetable_graph::feed::{Journey, MultiConnection, Passing, SubMultiConnection};

fn day(y: i32, m: u32, d: u32) -> u32 {
    chrono::NaiveDate::from_ymd_opt(y, m, d)
        .unwrap()
        .num_days_from_ce() as u32
}

fn build_date() -> u32 {
    day(2024, 11, 4)
}

/// A feed over the given stops whose journeys all run on `build_date()`.
fn feed(stops: Vec<&str>, journeys: Vec<Vec<(usize, Option<u32>, Option<u32>)>>) -> MultiConnection {
    let date = build_date();
    let journeys = journeys
        .into_iter()
        .map(|passings| Journey {
            passings: passings
                .into_iter()
                .map(|(stop_point, arrival, departure)| Passing { stop_point, arrival, departure })
                .collect(),
            valid_from: date - 5,
            valid_to: date + 5,
            days: vec![0],
        })
        .collect();
    MultiConnection {
        stops: stops.into_iter().map(str::to_string).collect(),
        connections: vec![SubMultiConnection {
            operating_periods: vec![OperatingPeriod {
                from_date: date - 1,
                to_date: date + 1,
                day_bits: day_bits_from_flags(&vec![true, true, true]),
            }],
            day_types: vec![Some(0)],
            journeys,
        }],
    }
}

#[test]
fn earliest_arrival_with_transfer() {
    // Three stations, two trips, one connecting transfer at the middle
    // station. The first trip leaves at midnight, so the cost from the
    // origin's Init to the target's Final equals the arrival time of day.
    let mc = feed(
        vec!["A", "B", "C"],
        vec![
            vec![(0, None, Some(0)), (1, Some(1800), None)],
            vec![(1, None, Some(2400)), (2, Some(3600), None)],
        ],
    );
    let cg = ConnectionGraph::new(&mc, build_date());
    let (a_init, _) = cg.resolve_station("A").unwrap();
    let (_, c_fin) = cg.resolve_station("C").unwrap();
    let dists = cg.shortest_paths(a_init);
    let to_c = dists.iter().find(|(v, _)| *v == c_fin).unwrap().1;
    assert_eq!(to_c, 3600);
    let (cost, path) = cg.shortest_path_to(a_init, c_fin).unwrap();
    assert_eq!(cost, 3600);
    assert_eq!(path.first(), Some(&a_init));
    assert_eq!(path.last(), Some(&c_fin));
}

#[test]
fn equal_times_create_no_travel_edge() {
    // Arrival equal to the previous departure: the hop is skipped.
    let mc = feed(
        vec!["A", "B"],
        vec![vec![(0, None, Some(1000)), (1, Some(1000), None)]],
    );
    let cg = ConnectionGraph::new(&mc, build_date());
    // Layout: A owns 0 (Init), 1 (Final), 2 (time 1000); B owns 3, 4, 5.
    assert_eq!(cg.edge_weight(2, 5), None);
    // The times were still collected: both stations own one time vertex.
    assert_eq!(cg.vertex_count(), 6);
}

#[test]
fn backward_times_create_no_travel_edge() {
    let mc = feed(
        vec!["A", "B"],
        vec![vec![(0, None, Some(2000)), (1, Some(1500), None)]],
    );
    let cg = ConnectionGraph::new(&mc, build_date());
    assert_eq!(cg.edge_weight(2, 5), None);
}

#[test]
fn forward_times_create_the_travel_edge() {
    let mc = feed(
        vec!["A", "B"],
        vec![vec![(0, None, Some(1000)), (1, Some(1600), None)]],
    );
    let cg = ConnectionGraph::new(&mc, build_date());
    assert_eq!(cg.edge_weight(2, 5), Some(600));
}

#[test]
fn station_fan_out_and_fan_in() {
    // One journey passing the same line thrice gives station B three
    // distinct times; A gets three departure times.
    let mc = feed(
        vec!["A", "B"],
        vec![
            vec![(0, None, Some(100)), (1, Some(400), None)],
            vec![(0, None, Some(200)), (1, Some(600), None)],
            vec![(0, None, Some(300)), (1, Some(900), None)],
        ],
    );
    let cg = ConnectionGraph::new(&mc, build_date());
    // A: init 0, fin 1, times 100, 200, 300 at ids 2, 3, 4.
    // B: init 5, fin 6, times 400, 600, 900 at ids 7, 8, 9.
    let a_fan: Vec<(usize, i64)> = cg.edges_from(0);
    assert_eq!(a_fan.len(), 3);
    for (target, w) in &a_fan {
        assert!(*target >= 2 && *target <= 4);
        assert_eq!(*w, 0);
    }
    // Exactly one fan-in edge into B's Final per time vertex, weight 0.
    let b_fin = 6usize;
    let mut into_fin = Vec::new();
    for u in 0..cg.vertex_count() {
        if let Some(w) = cg.edge_weight(u, b_fin) {
            into_fin.push((u, w));
        }
    }
    assert_eq!(into_fin, vec![(7, 0), (8, 0), (9, 0)]);
    // The waiting chain on B: 600 - 400 and 900 - 600, strictly positive.
    assert_eq!(cg.edge_weight(7, 8), Some(200));
    assert_eq!(cg.edge_weight(8, 9), Some(300));
    assert_eq!(cg.edge_weight(7, 9), None);
    // The chain on A as well.
    assert_eq!(cg.edge_weight(2, 3), Some(100));
    assert_eq!(cg.edge_weight(3, 4), Some(100));
}

#[test]
fn vertex_id_contiguity() {
    let mc = feed(
        vec!["A", "B", "C"],
        vec![
            vec![(0, None, Some(100)), (1, Some(200), None)],
            vec![(1, None, Some(300)), (2, Some(400), None)],
        ],
    );
    let cg = ConnectionGraph::new(&mc, build_date());
    // A: 2 times? A has one time (100); B has 200 and 300; C has 400.
    let mut expected_init = 0usize;
    let expected_times = vec![1usize, 2, 1];
    for (s, n_times) in expected_times.iter().enumerate() {
        let (init, fin) = cg.resolve_station(["A", "B", "C"][s]).unwrap();
        assert_eq!(init, expected_init);
        assert_eq!(fin, init + 1);
        expected_init = fin + 1 + n_times;
    }
    assert_eq!(cg.vertex_count(), expected_init);
}

#[test]
fn round_trip_lookup_over_all_ids() {
    let mc = feed(
        vec!["A", "B"],
        vec![
            vec![(0, None, Some(100)), (1, Some(400), None)],
            vec![(0, None, Some(200)), (1, Some(600), None)],
        ],
    );
    let cg = ConnectionGraph::new(&mc, build_date());
    // A: init 0, fin 1, times 100 @ 2, 200 @ 3; B: init 4, fin 5, 400 @ 6, 600 @ 7.
    let expected = vec![
        ("A", StopKind::Initial),
        ("A", StopKind::Terminal),
        ("A", StopKind::At(100)),
        ("A", StopKind::At(200)),
        ("B", StopKind::Initial),
        ("B", StopKind::Terminal),
        ("B", StopKind::At(400)),
        ("B", StopKind::At(600)),
    ];
    assert_eq!(cg.vertex_count(), expected.len());
    for (id, (name, kind)) in expected.iter().enumerate() {
        let stop = cg.stop_by_id(&id).unwrap();
        assert_eq!(stop.name, *name);
        assert_eq!(stop.detail, *kind);
        let terminal = cg.terminal_by_id(&id);
        if *kind == StopKind::Terminal {
            assert_eq!(terminal, Some(name.to_string()));
        } else {
            assert_eq!(terminal, None);
        }
    }
    assert_eq!(cg.stop_by_id(&expected.len()).map(|s| s.name), None);
    assert_eq!(cg.terminal_by_id(&expected.len()), None);
}

#[test]
fn ceiling_lookup_resolves_only_block_starts() {
    let mc = feed(
        vec!["A", "B"],
        vec![vec![(0, None, Some(100)), (1, Some(400), None)]],
    );
    let cg = ConnectionGraph::new(&mc, build_date());
    // A: init 0, fin 1, time @ 2; B: init 3, fin 4, time @ 5.
    let a = cg.stop_by_id_ceiling(&0).unwrap();
    assert_eq!(a.name, "A");
    assert_eq!(a.detail, StopKind::Initial);
    let b = cg.stop_by_id_ceiling(&3).unwrap();
    assert_eq!(b.name, "B");
    // Any id that is not a block start resolves to nothing under the
    // ceiling rule, even though it belongs to a station.
    for id in [1usize, 2, 4, 5, 6] {
        assert!(cg.stop_by_id_ceiling(&id).is_none());
    }
}

#[test]
fn unknown_names_and_unreachable_targets() {
    let mc = feed(
        vec!["A", "B"],
        vec![vec![(0, None, Some(100)), (1, Some(400), None)]],
    );
    let cg = ConnectionGraph::new(&mc, build_date());
    assert!(cg.resolve_station("Nowhere").is_none());
    let (b_init, _) = cg.resolve_station("B").unwrap();
    let (_, a_fin) = cg.resolve_station("A").unwrap();
    // No journey runs from B back to A.
    assert!(cg.shortest_path_to(b_init, a_fin).is_none());
}

#[test]
fn station_without_times_is_isolated() {
    let mc = feed(
        vec!["A", "B", "Quiet"],
        vec![vec![(0, None, Some(100)), (1, Some(400), None)]],
    );
    let cg = ConnectionGraph::new(&mc, build_date());
    let (q_init, q_fin) = cg.resolve_station("Quiet").unwrap();
    assert_eq!(q_fin, q_init + 1);
    assert!(cg.edges_from(q_init).is_empty());
    // From an isolated Init only the vertex itself is reached.
    let dists = cg.shortest_paths(q_init);
    assert_eq!(dists, vec![(q_init, 0)]);
}

#[test]
fn journeys_not_valid_on_the_date_leave_no_trace() {
    let date = build_date();
    let mut mc = feed(
        vec!["A", "B"],
        vec![vec![(0, None, Some(100)), (1, Some(400), None)]],
    );
    // Shift the journey's window past the build date.
    mc.connections[0].journeys[0].valid_from = date + 1;
    mc.connections[0].journeys[0].valid_to = date + 2;
    let cg = ConnectionGraph::new(&mc, date);
    // Only Init and Final vertices remain.
    assert_eq!(cg.vertex_count(), 4);
    assert!(cg.edges_from(0).is_empty());
}

#[test]
fn dijkstra_picks_the_faster_route() {
    // Two routes from A to C: direct but slow, or via B and faster.
    let mc = feed(
        vec!["A", "B", "C"],
        vec![
            vec![(0, None, Some(1000)), (2, Some(5000), None)],
            vec![(0, None, Some(1000)), (1, Some(1500), None)],
            vec![(1, None, Some(2000)), (2, Some(2500), None)],
        ],
    );
    let cg = ConnectionGraph::new(&mc, build_date());
    let (a_init, _) = cg.resolve_station("A").unwrap();
    let (_, c_fin) = cg.resolve_station("C").unwrap();
    let (cost, _) = cg.shortest_path_to(a_init, c_fin).unwrap();
    // Via B: 500 + 500 + 500 = 1500 seconds; direct would cost 4000.
    assert_eq!(cost, 1500);
}

#[test]
fn single_passing_trip_creates_no_travel_edges() {
    let mc = feed(vec!["A"], vec![vec![(0, Some(700), Some(800))]]);
    let cg = ConnectionGraph::new(&mc, build_date());
    // A: init 0, fin 1, times 700 @ 2, 800 @ 3.
    assert_eq!(cg.vertex_count(), 4);
    // Only the in-station edges exist: fan edges plus one waiting edge.
    assert_eq!(cg.edge_weight(0, 2), Some(0));
    assert_eq!(cg.edge_weight(0, 3), Some(0));
    assert_eq!(cg.edge_weight(2, 1), Some(0));
    assert_eq!(cg.edge_weight(3, 1), Some(0));
    assert_eq!(cg.edge_weight(2, 3), Some(100));
    assert_eq!(cg.edge_weight(3, 2), None);
}

#[test]
fn empty_feed_builds_an_empty_graph() {
    let mc = feed(vec![], vec![]);
    let cg = ConnectionGraph::new(&mc, build_date());
    assert_eq!(cg.vertex_count(), 0);
    assert!(cg.stop_by_id(&0).is_none());
    assert!(cg.terminal_by_id(&0).is_none());
    assert!(cg.resolve_station("A").is_none());
}

#[test]
fn merge_of_nothing_is_empty() {
    let merged = timetable_graph::feed::MultiConnection::from_connections(Vec::new());
    assert!(merged.stops.is_empty());
    assert!(merged.connections.is_empty());
}
