use race_route::graph::Graph;
use race_route::race::{CarConfig, Edge, RaceData};
use race_route::search::find_optimal_path;

// A brute-force reference: enumerate every route of at most `steps` moves,
// applying the same relaxation rules (direct travel, and pit-and-travel at
// pit nodes), and keep the least total time that completes the race.
struct Inst {
    adj: Vec<Vec<(usize, u32)>>,
    pits: Vec<usize>,
    cap: u32,
    cost: u32,
    start: usize,
    end: usize,
    laps: u32,
    pit_pen: u32,
    threshold: u32,
}

fn penalty(new_tyre: u32, threshold: u32, cost: u32) -> u32 {
    if new_tyre > threshold {
        (new_tyre - threshold) * cost
    } else {
        0
    }
}

#[allow(clippy::too_many_arguments)]
fn explore(
    inst: &Inst,
    lap: u32,
    node: usize,
    fuel: u32,
    tyre: u32,
    time: u32,
    steps: usize,
    best: &mut Option<u32>,
) {
    if node == inst.end && lap + 1 == inst.laps {
        if best.map_or(true, |b| time < b) {
            *best = Some(time);
        }
        return;
    }
    if steps == 0 {
        return;
    }
    for &(v, d) in &inst.adj[node] {
        let new_lap = if v == inst.start && node != inst.start {
            lap + 1
        } else {
            lap
        };
        if fuel >= d {
            let nt = tyre + d;
            let pen = penalty(nt, inst.threshold, inst.cost);
            explore(inst, new_lap, v, fuel - d, nt, time + d + pen, steps - 1, best);
        }
        if inst.pits.contains(&node) && inst.cap >= d {
            let pen = penalty(d, inst.threshold, inst.cost);
            explore(
                inst,
                new_lap,
                v,
                inst.cap - d,
                d,
                time + inst.pit_pen + d + pen,
                steps - 1,
                best,
            );
        }
    }
}

fn brute_force(inst: &Inst, steps: usize) -> Option<u32> {
    let mut best = None;
    explore(inst, 0, inst.start, inst.cap, 0, 0, steps, &mut best);
    best
}

#[allow(clippy::too_many_arguments)]
fn check_against_brute_force(
    n: usize,
    edge_list: &[(usize, usize, u32)],
    pits: &[usize],
    cap: u32,
    cost: u32,
    start: usize,
    end: usize,
    laps: u32,
    pit_pen: u32,
    threshold: u32,
) {
    let mut edges = Vec::new();
    let mut adj = vec![Vec::new(); n];
    for &(u, v, distance) in edge_list {
        edges.push(Edge { u, v, distance });
        adj[u].push((v, distance));
    }
    let graph = Graph::new(n, &edges);
    let race = RaceData {
        n,
        np: pits.len(),
        c: 0,
        m: edge_list.len(),
        edges,
        pit_nodes: pits.to_vec(),
        cars: Vec::new(),
    };
    let car = CarConfig {
        fuel_capacity: cap,
        tyre_cost: cost,
    };
    let inst = Inst {
        adj,
        pits: pits.to_vec(),
        cap,
        cost,
        start,
        end,
        laps,
        pit_pen,
        threshold,
    };
    let expected = brute_force(&inst, 10);
    let got = find_optimal_path(&race, &graph, start, end, laps, &car, pit_pen, threshold)
        .map(|p| p.total_time);
    assert_eq!(got, expected);
}

#[test]
fn matches_brute_force_on_diamond() {
    check_against_brute_force(
        4,
        &[(0, 1, 20), (1, 3, 20), (0, 2, 15), (2, 3, 25), (1, 2, 5)],
        &[],
        100,
        1,
        0,
        3,
        1,
        60,
        100,
    );
}

#[test]
fn matches_brute_force_with_pits_and_tight_fuel() {
    check_against_brute_force(
        4,
        &[(0, 1, 40), (1, 2, 45), (2, 3, 50), (1, 3, 90), (0, 2, 95)],
        &[1, 2],
        50,
        2,
        0,
        3,
        1,
        30,
        60,
    );
}

#[test]
fn matches_brute_force_with_wear_heavy_track() {
    check_against_brute_force(
        5,
        &[
            (0, 1, 60),
            (1, 2, 60),
            (2, 4, 60),
            (0, 3, 90),
            (3, 4, 95),
            (1, 3, 30),
        ],
        &[1, 3],
        200,
        4,
        0,
        4,
        1,
        25,
        80,
    );
}

#[test]
fn matches_brute_force_on_two_lap_circuit() {
    check_against_brute_force(
        3,
        &[(0, 1, 30), (1, 2, 35), (2, 0, 25), (1, 0, 70)],
        &[2],
        100,
        1,
        0,
        0,
        2,
        40,
        90,
    );
}

#[test]
fn matches_brute_force_when_infeasible() {
    check_against_brute_force(3, &[(0, 1, 80), (1, 2, 80)], &[], 70, 1, 0, 2, 1, 60, 100);
}
