use race_route::graph::Graph;
use race_route::race::{CarConfig, Edge, RaceData};
use race_route::search::find_optimal_path;

fn make_race(n: usize, edge_list: &[(usize, usize, u32)], pits: &[usize]) -> (RaceData, Graph) {
    let mut edges = Vec::new();
    for &(u, v, distance) in edge_list {
        edges.push(Edge { u, v, distance });
    }
    let graph = Graph::new(n, &edges);
    let race = RaceData {
        n,
        np: pits.len(),
        c: 0,
        m: edge_list.len(),
        edges,
        pit_nodes: pits.to_vec(),
        cars: Vec::new(),
    };
    (race, graph)
}

#[test]
fn direct_path_scenario() {
    // With fuel for both edges, the direct path wins: 50 + 50, no tyre
    // penalty at the threshold, no pit stop.
    let (race, graph) = make_race(3, &[(0, 1, 50), (1, 2, 50)], &[1]);
    let car = CarConfig { fuel_capacity: 100, tyre_cost: 1 };
    let result = find_optimal_path(&race, &graph, 0, 2, 1, &car, 60, 100).unwrap();
    assert_eq!(result.total_time, 100);
    assert_eq!(result.node_sequence, vec![0, 1, 2]);
    assert!(result.pit_stops.is_empty());
}

#[test]
fn tank_of_sixty_must_pit_between_two_fifties() {
    // A 60-unit tank cannot cover 100 units of edges without the pit stop
    // at node 1, so the optimum pits: 50 + 60 + 50.
    let (race, graph) = make_race(3, &[(0, 1, 50), (1, 2, 50)], &[1]);
    let car = CarConfig { fuel_capacity: 60, tyre_cost: 1 };
    let result = find_optimal_path(&race, &graph, 0, 2, 1, &car, 60, 100).unwrap();
    assert_eq!(result.total_time, 160);
    assert_eq!(result.pit_stops, vec![(0, 1)]);
}

#[test]
fn infeasible_scenario() {
    let (race, graph) = make_race(3, &[(0, 1, 50), (1, 2, 50)], &[1]);
    let car = CarConfig { fuel_capacity: 40, tyre_cost: 1 };
    let result = find_optimal_path(&race, &graph, 0, 2, 1, &car, 60, 100);
    assert!(result.is_none());
}

#[test]
fn pit_stop_taken_when_fuel_is_short() {
    let (race, graph) = make_race(3, &[(0, 1, 50), (1, 2, 50)], &[1]);
    let car = CarConfig { fuel_capacity: 50, tyre_cost: 1 };
    let result = find_optimal_path(&race, &graph, 0, 2, 1, &car, 60, 100).unwrap();
    // 50 to reach the pit node, 60 for the stop, 50 for the final edge.
    assert_eq!(result.total_time, 160);
    assert_eq!(result.node_sequence, vec![0, 1, 2]);
    assert_eq!(result.pit_stops, vec![(0, 1)]);
}

#[test]
fn removing_pit_nodes_makes_pit_route_infeasible() {
    let (race, graph) = make_race(3, &[(0, 1, 50), (1, 2, 50)], &[]);
    let car = CarConfig { fuel_capacity: 50, tyre_cost: 1 };
    let result = find_optimal_path(&race, &graph, 0, 2, 1, &car, 60, 100);
    assert!(result.is_none());
}

#[test]
fn tyre_penalty_beyond_threshold() {
    let (race, graph) = make_race(2, &[(0, 1, 150)], &[]);
    let car = CarConfig { fuel_capacity: 200, tyre_cost: 2 };
    let result = find_optimal_path(&race, &graph, 0, 1, 1, &car, 60, 100).unwrap();
    // 150 travel plus (150 - 100) * 2 wear penalty.
    assert_eq!(result.total_time, 250);
}

#[test]
fn tyre_penalty_zero_at_threshold() {
    let (race, graph) = make_race(2, &[(0, 1, 100)], &[]);
    let car = CarConfig { fuel_capacity: 200, tyre_cost: 5 };
    let result = find_optimal_path(&race, &graph, 0, 1, 1, &car, 60, 100).unwrap();
    assert_eq!(result.total_time, 100);
}

#[test]
fn tyre_penalty_accumulates_across_segments() {
    let (race, graph) = make_race(3, &[(0, 1, 80), (1, 2, 30)], &[]);
    let car = CarConfig { fuel_capacity: 200, tyre_cost: 3 };
    let result = find_optimal_path(&race, &graph, 0, 2, 1, &car, 60, 100).unwrap();
    // First segment stays within the threshold; the second ends at 110,
    // so it pays (110 - 100) * 3.
    assert_eq!(result.total_time, 140);
}

#[test]
fn pitting_can_avoid_tyre_penalty() {
    // Fuel is plentiful; the only reason to pit is fresh tyres.
    let (race, graph) = make_race(3, &[(0, 1, 90), (1, 2, 90)], &[1]);
    let car = CarConfig { fuel_capacity: 1000, tyre_cost: 10 };
    // Direct: 180 + (180 - 100) * 10 = 980. Pitting at 1: 90 + 20 + 90 = 200.
    let result = find_optimal_path(&race, &graph, 0, 2, 1, &car, 20, 100).unwrap();
    assert_eq!(result.total_time, 200);
    assert_eq!(result.pit_stops, vec![(0, 1)]);
}

#[test]
fn start_equals_end_single_lap_is_zero_time() {
    let (race, graph) = make_race(3, &[(0, 1, 50), (1, 2, 50)], &[1]);
    let car = CarConfig { fuel_capacity: 60, tyre_cost: 1 };
    let result = find_optimal_path(&race, &graph, 0, 0, 1, &car, 60, 100).unwrap();
    assert_eq!(result.total_time, 0);
    assert_eq!(result.node_sequence, vec![0]);
    assert!(result.pit_stops.is_empty());
}

#[test]
fn two_laps_require_returning_to_start() {
    let (race, graph) = make_race(2, &[(0, 1, 30), (1, 0, 40)], &[]);
    let car = CarConfig { fuel_capacity: 100, tyre_cost: 1 };
    let result = find_optimal_path(&race, &graph, 0, 0, 2, &car, 60, 100).unwrap();
    assert_eq!(result.total_time, 70);
    assert_eq!(result.node_sequence, vec![0, 1, 0]);
}

#[test]
fn multi_lap_pits_record_their_lap() {
    // Three laps over a two-node circuit with a 150-unit tank: the car
    // must pit at node 1 on lap 0 and again on lap 1.
    let (race, graph) = make_race(2, &[(0, 1, 60), (1, 0, 60)], &[1]);
    let car = CarConfig { fuel_capacity: 150, tyre_cost: 1 };
    let result = find_optimal_path(&race, &graph, 0, 0, 3, &car, 10, 300).unwrap();
    assert_eq!(result.total_time, 260);
    assert_eq!(result.node_sequence, vec![0, 1, 0, 1, 0]);
    assert_eq!(result.pit_stops, vec![(0, 1), (1, 1)]);
}

#[test]
fn zero_laps_is_infeasible() {
    let (race, graph) = make_race(2, &[(0, 1, 30)], &[]);
    let car = CarConfig { fuel_capacity: 100, tyre_cost: 1 };
    let result = find_optimal_path(&race, &graph, 0, 1, 0, &car, 60, 100);
    assert!(result.is_none());
}

#[test]
fn shorter_of_two_routes_wins() {
    let (race, graph) = make_race(4, &[(0, 1, 20), (1, 3, 20), (0, 2, 15), (2, 3, 15)], &[]);
    let car = CarConfig { fuel_capacity: 100, tyre_cost: 1 };
    let result = find_optimal_path(&race, &graph, 0, 3, 1, &car, 60, 100).unwrap();
    assert_eq!(result.total_time, 30);
    assert_eq!(result.node_sequence, vec![0, 2, 3]);
}
