use crate::graph::Graph;
use crate::model::{
    at_goal, goal_run, has_edge, init_state, lemma_lap_monotone, lemma_run_cost_nonneg,
    lemma_run_nodes_shape, lemma_run_pits_at_pit_nodes, lemma_run_push,
    lemma_start_blocked_run_empty, lemma_step_cost_bounds, lemma_stranded_outside_pits_run_empty,
    lemma_stranded_run_empty, machine_instance, run_cost, run_end, run_nodes, run_ok, run_pits,
    step_cost, step_enabled, step_state, stranded, stranded_outside_pits, tyre_penalty, Instance,
    RState, RStep,
};
use crate::race::{is_pit_node, CarConfig, RaceData};
use crate::table::{state_space, BestTimes};
use vstd::prelude::*;

verus! {

/// A state of the resource-constrained search: the lap counter, the
/// current node, the fuel left, and the distance driven since the tyres
/// were last fresh. All four fields are significant for state identity.
#[derive(Debug, Clone, Copy, PartialEq, Eq, Structural, Hash)]
pub struct State {
    pub lap: u32,
    pub current_node: usize,
    pub current_fuel: u32,
    pub tyre_distance: u32,
}

impl View for State {
    type V = RState;

    open spec fn view(&self) -> RState {
        RState {
            lap: self.lap as int,
            node: self.current_node as int,
            fuel: self.current_fuel as int,
            tyre: self.tyre_distance as int,
        }
    }
}

/// The result of one search: the optimal total time, the pit stops taken
/// as (lap, node) in order, and the full node sequence of the route.
#[derive(Debug, Clone)]
pub struct PathInfo {
    pub total_time: u32,
    pub pit_stops: Vec<(u32, usize)>,
    pub node_sequence: Vec<usize>,
}

/// A frontier entry: the cumulative time, the state reached, and the
/// route taken so far. Each label owns its own copy of the path and the
/// pit-stop history; `steps` is the abstract step sequence that witnesses
/// the label.
pub struct Label {
    pub time: u32,
    pub state: State,
    pub path: Vec<usize>,
    pub pit_stops_taken: Vec<(u32, usize)>,
    pub steps: Ghost<Seq<RStep>>,
}

/// A node sequence as mathematical integers.
pub open spec fn nodes_view(p: Seq<usize>) -> Seq<int> {
    p.map_values(|x: usize| x as int)
}

/// A pit-stop history as pairs of mathematical integers.
pub open spec fn stops_view(p: Seq<(u32, usize)>) -> Seq<(int, int)> {
    p.map_values(|e: (u32, usize)| (e.0 as int, e.1 as int))
}

/// The abstract instance that one call of the search works on.
pub open spec fn instance_of(
    race_data: &RaceData,
    graph: &Graph,
    start_node: usize,
    end_node: usize,
    total_laps: u32,
    car_config: &CarConfig,
    pit_stop_penalty: u32,
    tyre_wear_distance: u32,
) -> Instance {
    Instance {
        adj: graph@,
        pits: race_data.pit_set(),
        fuel_capacity: car_config.fuel_capacity as int,
        tyre_cost: car_config.tyre_cost as int,
        start: start_node as int,
        end: end_node as int,
        laps: total_laps as int,
        pit_penalty: pit_stop_penalty as int,
        wear_threshold: tyre_wear_distance as int,
    }
}

/// What every frontier label satisfies: its step sequence is a feasible
/// run from the initial state that ends in the label's state, costs the
/// label's time, and visits the label's path with the label's pit stops.
pub open spec fn label_ok(ins: Instance, l: Label) -> bool {
    &&& run_ok(ins, init_state(ins), l.steps@)
    &&& l.state@ == run_end(ins, init_state(ins), l.steps@)
    &&& l.time as int == run_cost(ins, init_state(ins), l.steps@)
    &&& nodes_view(l.path@) == seq![ins.start] + run_nodes(l.steps@)
    &&& stops_view(l.pit_stops_taken@) == run_pits(ins, init_state(ins), l.steps@)
    &&& 0 <= l.state@.node < ins.adj.len()
}

/// One move as an abstract step.
pub open spec fn step_of(pit: bool, v: usize, d: u32) -> RStep {
    RStep { pit, to: v as int, dist: d as int }
}

/// The machine state that stands for an abstract state whose fields fit
/// the machine's ranges.
pub open spec fn to_state(rs: RState) -> State {
    State {
        lap: rs.lap as u32,
        current_node: rs.node as usize,
        current_fuel: rs.fuel as u32,
        tyre_distance: rs.tyre as u32,
    }
}

/// Whether taking step `st` from state `s`, with `base` time already
/// spent, stays within the machine's ranges. The relaxation prunes
/// exactly the moves that do not.
pub open spec fn fits(ins: Instance, s: RState, st: RStep, base: int) -> bool {
    &&& step_state(ins, s, st).tyre <= u32::MAX as int
    &&& step_state(ins, s, st).lap <= u32::MAX as int
    &&& base + step_cost(ins, s, st) <= u32::MAX as int
}

/// Whether the table has taken full account of state `s`: if it completes
/// the race, its recorded time already bounds the recorded optimum, and
/// otherwise every machine-representable move from it is recorded with a
/// time no worse than one more step.
pub open spec fn expanded(ins: Instance, s: State, m: Map<State, u32>, best: Option<PathInfo>) -> bool {
    &&& m.contains_key(s)
    &&& at_goal(ins, s@) ==> (best matches Some(p) && p.total_time <= m[s])
    &&& !at_goal(ins, s@) ==> forall|st: RStep|
        #[trigger] step_enabled(ins, s@, st) && fits(ins, s@, st, m[s] as int)
            ==> m.contains_key(to_state(step_state(ins, s@, st))) && m[to_state(
            step_state(ins, s@, st),
        )] as int <= m[s] as int + step_cost(ins, s@, st)
}

/// Full account of a state is kept when recorded times only improve, its
/// own stays put, and the recorded optimum only improves.
proof fn lemma_expanded_monotone(
    ins: Instance,
    s: State,
    m1: Map<State, u32>,
    m2: Map<State, u32>,
    best1: Option<PathInfo>,
    best2: Option<PathInfo>,
)
    requires
        expanded(ins, s, m1, best1),
        m2.contains_key(s),
        m2[s] == m1[s],
        forall|x: State| #[trigger] m1.contains_key(x) ==> m2.contains_key(x) && m2[x] <= m1[x],
        best1 matches Some(p1) ==> (best2 matches Some(p2) && p2.total_time <= p1.total_time),
    ensures
        expanded(ins, s, m2, best2),
{
    if !at_goal(ins, s@) {
        assert forall|st: RStep|
            step_enabled(ins, s@, st) && fits(ins, s@, st, m2[s] as int) implies m2.contains_key(
            to_state(step_state(ins, s@, st)),
        ) && m2[to_state(step_state(ins, s@, st))] as int <= m2[s] as int + step_cost(
            ins,
            s@,
            st,
        ) by {
            assert(step_enabled(ins, s@, st) && fits(ins, s@, st, m1[s] as int));
        }
    }
}

/// One relaxation keeps the search's bookkeeping intact: it either
/// changes nothing, or pushes one feasible label whose strictly improved
/// time the table records.
proof fn lemma_relax_effect(
    ins: Instance,
    bt1: BestTimes,
    bt2: BestTimes,
    fr1: Seq<Label>,
    fr2: Seq<Label>,
    settled: Set<State>,
    best: Option<PathInfo>,
    ls: State,
    ltime: u32,
)
    requires
        forall|i: int|
            0 <= i < fr1.len() ==> bt1@.contains_key((#[trigger] fr1[i]).state)
                && bt1@[fr1[i].state] <= fr1[i].time,
        forall|s: State|
            #[trigger] bt1@.contains_key(s) ==> settled.contains(s) || s == ls || exists|i: int|
                0 <= i < fr1.len() && (#[trigger] fr1[i]).state == s && fr1[i].time == bt1@[s],
        forall|s: State| #[trigger] settled.contains(s) ==> expanded(ins, s, bt1@, best),
        forall|s: State, i: int|
            #[trigger] settled.contains(s) && 0 <= i < fr1.len() ==> bt1@[s] <= (#[trigger] fr1[i]).time,
        forall|s: State| #[trigger] settled.contains(s) ==> bt1@.contains_key(s) && bt1@[s] <= ltime,
        forall|i: int| 0 <= i < fr1.len() ==> ltime <= (#[trigger] fr1[i]).time,
        bt1@.contains_key(ls),
        bt1@[ls] == ltime,
        (bt2@ == bt1@ && fr2 == fr1 && bt2.size() == bt1.size() && bt2.potential()
            == bt1.potential()) || (exists|nl: Label|
            fr2 == fr1.push(nl) && (#[trigger] nl.time) >= ltime && label_ok(ins, nl) && bt2@
                == bt1@.insert(nl.state, nl.time) && (bt1@.contains_key(nl.state) ==> nl.time
                < bt1@[nl.state] && bt2.size() == bt1.size() && bt2.potential() <= bt1.potential()
                - 1) && (!bt1@.contains_key(nl.state) ==> bt2.size() == bt1.size() + 1
                && bt2.potential() == bt1.potential() + nl.time)),
    ensures
        forall|i: int|
            0 <= i < fr2.len() ==> bt2@.contains_key((#[trigger] fr2[i]).state)
                && bt2@[fr2[i].state] <= fr2[i].time,
        forall|s: State|
            #[trigger] bt2@.contains_key(s) ==> settled.contains(s) || s == ls || exists|i: int|
                0 <= i < fr2.len() && (#[trigger] fr2[i]).state == s && fr2[i].time == bt2@[s],
        forall|s: State| #[trigger] settled.contains(s) ==> expanded(ins, s, bt2@, best),
        forall|s: State, i: int|
            #[trigger] settled.contains(s) && 0 <= i < fr2.len() ==> bt2@[s] <= (#[trigger] fr2[i]).time,
        forall|s: State| #[trigger] settled.contains(s) ==> bt2@.contains_key(s) && bt2@[s] <= ltime,
        forall|i: int| 0 <= i < fr2.len() ==> ltime <= (#[trigger] fr2[i]).time,
        bt2@.contains_key(ls),
        bt2@[ls] == ltime,
        forall|x: State| #[trigger] bt1@.contains_key(x) ==> bt2@.contains_key(x) && bt2@[x] <= bt1@[x],
        (state_space() - bt2.size()) * (u32::MAX as int + 2) + bt2.potential() + fr2.len()
            <= (state_space() - bt1.size()) * (u32::MAX as int + 2) + bt1.potential() + fr1.len(),
{
    if bt2@ == bt1@ && fr2 == fr1 {
    } else {
        let nl = choose|nl: Label|
            fr2 == fr1.push(nl) && (#[trigger] nl.time) >= ltime && label_ok(ins, nl) && bt2@
                == bt1@.insert(nl.state, nl.time) && (bt1@.contains_key(nl.state) ==> nl.time
                < bt1@[nl.state] && bt2.size() == bt1.size() && bt2.potential() <= bt1.potential()
                - 1) && (!bt1@.contains_key(nl.state) ==> bt2.size() == bt1.size() + 1
                && bt2.potential() == bt1.potential() + nl.time);
        assert(nl.state != ls);
        assert(!settled.contains(nl.state));
        assert((state_space() - bt2.size()) * (u32::MAX as int + 2) + bt2.potential() + fr2.len()
            <= (state_space() - bt1.size()) * (u32::MAX as int + 2) + bt1.potential()
            + fr1.len()) by {
            if bt1@.contains_key(nl.state) {
                assert((state_space() - bt2.size()) * (u32::MAX as int + 2) == (state_space()
                    - bt1.size()) * (u32::MAX as int + 2));
            } else {
                assert((state_space() - bt2.size()) * (u32::MAX as int + 2) == (state_space()
                    - bt1.size()) * (u32::MAX as int + 2) - (u32::MAX as int + 2)) by (nonlinear_arith)
                    requires
                        bt2.size() == bt1.size() + 1,
                ;
            }
        }
        assert forall|s: State| #[trigger] bt2@.contains_key(s) implies settled.contains(s) || s
            == ls || exists|i: int|
            0 <= i < fr2.len() && (#[trigger] fr2[i]).state == s && fr2[i].time == bt2@[s] by {
            if s == nl.state {
                assert(fr2[fr2.len() - 1] == nl);
            } else if bt1@.contains_key(s) && !settled.contains(s) && s != ls {
                let i = choose|i: int|
                    0 <= i < fr1.len() && (#[trigger] fr1[i]).state == s && fr1[i].time == bt1@[s];
                assert(fr2[i] == fr1[i]);
            }
        }
        assert forall|s: State| #[trigger] settled.contains(s) implies expanded(
            ins,
            s,
            bt2@,
            best,
        ) by {
            lemma_expanded_monotone(ins, s, bt1@, bt2@, best, best);
        }
    }
}

/// Walking any feasible route whose remaining cost fits the time scale
/// through a fully accounted table: the recorded optimum is no worse than
/// the table's time for the current state plus the route's remaining
/// cost. Applied from the initial state, this is the search's
/// completeness and optimality.
proof fn lemma_walk(
    ins: Instance,
    m: Map<State, u32>,
    best: Option<PathInfo>,
    cs: State,
    suffix: Seq<RStep>,
)
    requires
        machine_instance(ins),
        forall|s: State| #[trigger] m.contains_key(s) ==> expanded(ins, s, m, best),
        m.contains_key(cs),
        run_ok(ins, cs@, suffix),
        at_goal(ins, run_end(ins, cs@, suffix)),
        m[cs] as int + run_cost(ins, cs@, suffix) <= u32::MAX as int,
        cs@.tyre + run_cost(ins, cs@, suffix) <= u32::MAX as int,
    ensures
        best matches Some(p) && p.total_time as int <= m[cs] as int + run_cost(ins, cs@, suffix),
    decreases suffix.len(),
{
    lemma_run_cost_nonneg(ins, cs@, suffix);
    assert(expanded(ins, cs, m, best));
    if at_goal(ins, cs@) {
    } else {
        assert(suffix.len() > 0);
        let st = suffix[0];
        let ns = step_state(ins, cs@, st);
        let rest = suffix.drop_first();
        assert(step_enabled(ins, cs@, st));
        lemma_step_cost_bounds(ins, cs@, st);
        lemma_run_cost_nonneg(ins, ns, rest);
        lemma_lap_monotone(ins, ns, rest);
        assert(run_end(ins, ns, rest) == run_end(ins, cs@, suffix));
        assert(ns.lap <= ins.laps - 1);
        assert(ns.tyre + run_cost(ins, ns, rest) <= u32::MAX as int);
        assert(fits(ins, cs@, st, m[cs] as int));
        let nk = to_state(ns);
        assert(m.contains_key(nk) && m[nk] as int <= m[cs] as int + step_cost(ins, cs@, st));
        assert(nk@ == ns);
        lemma_walk(ins, m, best, nk, rest);
    }
}

/// Copies a vector of plain values.
#[verifier::loop_isolation(false)]
fn copy_vec<T: Copy>(v: &Vec<T>) -> (r: Vec<T>)
    ensures
        r@ == v@,
{
    let mut r: Vec<T> = Vec::new();
    let mut i: usize = 0;
    while i < v.len()
        invariant
            i <= v@.len(),
            r@ == v@.take(i as int),
        decreases v@.len() - i,
    {
        r.push(v[i]);
        i += 1;
        proof {
            assert(v@.take(i as int) =~= v@.take(i - 1).push(v@[i - 1]));
        }
    }
    proof {
        assert(v@.take(v@.len() as int) =~= v@);
    }
    r
}

/// Removes and returns a label of minimum time from the frontier.
#[verifier::loop_isolation(false)]
fn pop_min(frontier: &mut Vec<Label>) -> (l: Label)
    requires
        old(frontier)@.len() > 0,
    ensures
        final(frontier)@.len() + 1 == old(frontier)@.len(),
        exists|k: int| 0 <= k < old(frontier)@.len() && l == old(frontier)@[k],
        forall|k: int|
            0 <= k < old(frontier)@.len() ==> l.time <= (#[trigger] old(frontier)@[k]).time,
        forall|j: int|
            0 <= j < final(frontier)@.len() ==> exists|k: int|
                0 <= k < old(frontier)@.len() && #[trigger] final(frontier)@[j] == old(frontier)@[k],
        forall|k: int|
            0 <= k < old(frontier)@.len() ==> #[trigger] old(frontier)@[k] == l || exists|j: int|
                0 <= j < final(frontier)@.len() && #[trigger] final(frontier)@[j] == old(frontier)@[k],
{
    let mut mi: usize = 0;
    let mut j: usize = 1;
    while j < frontier.len()
        invariant
            1 <= j <= frontier@.len(),
            mi < j,
            forall|k: int| 0 <= k < j ==> frontier@[mi as int].time <= (#[trigger] frontier@[k]).time,
        decreases frontier@.len() - j,
    {
        if frontier[j].time < frontier[mi].time {
            mi = j;
        }
        j += 1;
    }
    let ghost prev = frontier@;
    let l = frontier.swap_remove(mi);
    proof {
        assert forall|j2: int|
            0 <= j2 < frontier@.len() implies exists|k: int|
            0 <= k < prev.len() && #[trigger] frontier@[j2] == prev[k] by {
            if j2 == mi as int {
                assert(frontier@[j2] == prev[prev.len() - 1]);
            } else {
                assert(frontier@[j2] == prev[j2]);
            }
        }
        assert forall|k: int|
            0 <= k < prev.len() implies #[trigger] prev[k] == l || exists|j: int|
            0 <= j < frontier@.len() && #[trigger] frontier@[j] == prev[k] by {
            if k != mi as int {
                if k < prev.len() - 1 {
                    assert(frontier@[k] == prev[k]);
                } else {
                    assert(frontier@[mi as int] == prev[k]);
                }
            }
        }
    }
    l
}

/// Attempts one edge relaxation from `label` over the edge to `v` of
/// length `d`, directly or with a preceding pit stop. If the move is
/// enabled, does not overflow the time scale, and improves on the
/// best-known time of the state it reaches, a new label is pushed onto
/// the frontier and the table is updated; otherwise nothing changes.
fn try_relax(
    frontier: &mut Vec<Label>,
    best_times: &mut BestTimes,
    label: &Label,
    pit: bool,
    v: usize,
    d: u32,
    start_node: usize,
    car_config: &CarConfig,
    pit_stop_penalty: u32,
    tyre_wear_distance: u32,
    Ghost(ins): Ghost<Instance>,
)
    requires
        old(best_times).wf(),
        forall|i: int|
            0 <= i < old(frontier)@.len() ==> label_ok(ins, #[trigger] old(frontier)@[i]),
        label_ok(ins, *label),
        has_edge(ins, label.state@.node, v as int, d as int),
        (v as int) < ins.adj.len(),
        pit ==> ins.pits.contains(label.state@.node) && car_config.fuel_capacity >= d,
        !pit ==> label.state.current_fuel >= d,
        ins.start == start_node as int,
        ins.fuel_capacity == car_config.fuel_capacity as int,
        ins.tyre_cost == car_config.tyre_cost as int,
        ins.pit_penalty == pit_stop_penalty as int,
        ins.wear_threshold == tyre_wear_distance as int,
    ensures
        final(best_times).wf(),
        forall|i: int|
            0 <= i < final(frontier)@.len() ==> label_ok(ins, #[trigger] final(frontier)@[i]),
        fits(ins, label.state@, step_of(pit, v, d), label.time as int) ==> final(best_times)@.contains_key(to_state(step_state(ins, label.state@, step_of(pit, v, d)))) && final(best_times)@[to_state(step_state(ins, label.state@, step_of(pit, v, d)))] as int <= label.time as int
            + step_cost(ins, label.state@, step_of(pit, v, d)),
        (final(best_times)@ == old(best_times)@ && final(frontier)@ == old(frontier)@ && final(best_times).size() == old(best_times).size() && final(best_times).potential() == old(best_times).potential()) || (exists|nl: Label|
            final(frontier)@ == old(frontier)@.push(nl) && (#[trigger] nl.time) >= label.time
                && label_ok(ins, nl) && final(best_times)@ == old(best_times)@.insert(
                nl.state,
                nl.time,
            ) && (old(best_times)@.contains_key(nl.state) ==> nl.time < old(best_times)@[nl.state] && final(best_times).size() == old(best_times).size() && final(best_times).potential() <= old(best_times).potential() - 1) && (!old(best_times)@.contains_key(nl.state) ==> final(best_times).size() == old(best_times).size() + 1
                && final(best_times).potential() == old(best_times).potential() + nl.time)),
{
    let ghost st = step_of(pit, v, d);
    let ghost s = label.state@;
    proof {
        assert(step_enabled(ins, s, st));
    }
    let new_fuel = if pit {
        car_config.fuel_capacity - d
    } else {
        label.state.current_fuel - d
    };
    let new_tyre = if pit {
        d
    } else {
        match label.state.tyre_distance.checked_add(d) {
            Some(t) => t,
            None => {
                proof {
                    assert(step_state(ins, s, st).tyre > u32::MAX as int);
                }
                return;
            },
        }
    };
    proof {
        assert(step_state(ins, s, st).tyre == new_tyre as int);
        assert(step_cost(ins, s, st) == st.dist + tyre_penalty(ins, new_tyre as int) + (if pit {
            ins.pit_penalty
        } else {
            0
        }));
    }
    let tp = if new_tyre > tyre_wear_distance {
        match (new_tyre - tyre_wear_distance).checked_mul(car_config.tyre_cost) {
            Some(p) => p,
            None => {
                proof {
                    assert(tyre_penalty(ins, new_tyre as int) > u32::MAX as int);
                    assert(!fits(ins, s, st, label.time as int));
                }
                return;
            },
        }
    } else {
        0
    };
    proof {
        assert(tp as int == tyre_penalty(ins, new_tyre as int));
    }
    let extra = if pit {
        pit_stop_penalty
    } else {
        0
    };
    let t1 = match label.time.checked_add(extra) {
        Some(x) => x,
        None => {
            proof {
                assert(!fits(ins, s, st, label.time as int));
            }
            return;
        },
    };
    let t2 = match t1.checked_add(d) {
        Some(x) => x,
        None => {
            proof {
                assert(!fits(ins, s, st, label.time as int));
            }
            return;
        },
    };
    let new_time = match t2.checked_add(tp) {
        Some(x) => x,
        None => {
            proof {
                assert(!fits(ins, s, st, label.time as int));
            }
            return;
        },
    };
    proof {
        assert(new_time as int == label.time as int + step_cost(ins, s, st));
    }
    let new_lap = if v == start_node && label.state.current_node != start_node {
        match label.state.lap.checked_add(1) {
            Some(x) => x,
            None => {
                proof {
                    assert(step_state(ins, s, st).lap == label.state.lap as int + 1);
                    assert(!fits(ins, s, st, label.time as int));
                }
                return;
            },
        }
    } else {
        label.state.lap
    };
    let new_state = State {
        lap: new_lap,
        current_node: v,
        current_fuel: new_fuel,
        tyre_distance: new_tyre,
    };
    proof {
        assert(new_state@ == step_state(ins, s, st));
        assert(to_state(step_state(ins, s, st)) == new_state);
    }
    let improves = match best_times.get(&new_state) {
        Some(bt) => new_time < bt,
        None => true,
    };
    if improves {
        let mut new_path = copy_vec(&label.path);
        new_path.push(v);
        let mut new_stops = copy_vec(&label.pit_stops_taken);
        if pit {
            new_stops.push((label.state.lap, label.state.current_node));
        }
        proof {
            let s0 = init_state(ins);
            lemma_run_push(ins, s0, label.steps@, st);
            assert(new_time as int == run_cost(ins, s0, label.steps@.push(st)));
            assert(nodes_view(new_path@) =~= nodes_view(label.path@).push(v as int));
            assert((seq![ins.start] + run_nodes(label.steps@)).push(st.to) =~= seq![ins.start]
                + run_nodes(label.steps@).push(st.to));
            if pit {
                assert(stops_view(new_stops@) =~= stops_view(label.pit_stops_taken@).push(
                    (label.state.lap as int, label.state.current_node as int),
                ));
                assert(run_pits(ins, s0, label.steps@) + seq![(s.lap, s.node)] =~= run_pits(
                    ins,
                    s0,
                    label.steps@,
                ).push((s.lap, s.node)));
            } else {
                assert(run_pits(ins, s0, label.steps@) + Seq::<(int, int)>::empty() =~= run_pits(
                    ins,
                    s0,
                    label.steps@,
                ));
                assert(stops_view(new_stops@) == stops_view(label.pit_stops_taken@));
            }
        }
        let new_label = Label {
            time: new_time,
            state: new_state,
            path: new_path,
            pit_stops_taken: new_stops,
            steps: Ghost(label.steps@.push(st)),
        };
        proof {
            assert(label_ok(ins, new_label));
        }
        let ghost frpre = frontier@;
        let ghost mpre = *best_times;
        frontier.push(new_label);
        best_times.insert(new_state, new_time);
        proof {
            assert(frontier@ == frpre.push(new_label));
            assert(new_label.time >= label.time);
            assert(mpre@.contains_key(new_label.state) ==> new_label.time < mpre@[new_label.state]);
            assert(exists|nl: Label|
                frontier@ == frpre.push(nl) && (#[trigger] nl.time) >= label.time
                    && label_ok(ins, nl) && best_times@ == mpre@.insert(nl.state, nl.time) && (
                mpre@.contains_key(nl.state) ==> nl.time < mpre@[nl.state] && best_times.size()
                    == mpre.size() && best_times.potential() <= mpre.potential() - 1) && (
                !mpre@.contains_key(nl.state) ==> best_times.size() == mpre.size() + 1
                    && best_times.potential() == mpre.potential() + nl.time)) by {
                assert(frontier@ == frpre.push(new_label) && (new_label.time)
                    >= label.time && label_ok(ins, new_label) && best_times@ == mpre@.insert(
                    new_label.state,
                    new_label.time,
                ) && (mpre@.contains_key(new_label.state) ==> new_label.time
                    < mpre@[new_label.state] && best_times.size() == mpre.size()
                    && best_times.potential() <= mpre.potential() - 1) && (!mpre@.contains_key(
                    new_label.state,
                ) ==> best_times.size() == mpre.size() + 1 && best_times.potential()
                    == mpre.potential() + new_label.time));
            }
        }
    }
}

/// The resource-constrained shortest-path search. Starting from the start
/// node with a full tank and fresh tyres, it explores the state graph in
/// order of non-decreasing cumulative time, relaxing every outgoing edge
/// both directly and — at pit nodes — with a preceding pit stop, and
/// returns an optimal completed route, or `None` when no feasible route
/// exists.
///
/// Any returned route is witnessed by a feasible run of the instance with
/// exactly the reported total time, node sequence and pit stops; whenever
/// a feasible run whose cost fits the time scale exists, a route is
/// returned; and no feasible run at all costs less than a returned
/// route's total time. When the tank is too small for every edge leaving
/// a non-pit start node (or for every edge of the track outright) and the
/// race is not already complete at the start, the result is `None`; when
/// the initial state already completes the race, the result is the
/// zero-time route that never leaves the start node.
#[verifier::loop_isolation(false)]
pub fn find_optimal_path(
    race_data: &RaceData,
    graph: &Graph,
    start_node: usize,
    end_node: usize,
    total_laps: u32,
    car_config: &CarConfig,
    pit_stop_penalty: u32,
    tyre_wear_distance: u32,
) -> (r: Option<PathInfo>)
    requires
        graph.wf(),
        start_node < graph@.len(),
    ensures
        ({
            let ins = instance_of(
                race_data,
                graph,
                start_node,
                end_node,
                total_laps,
                car_config,
                pit_stop_penalty,
                tyre_wear_distance,
            );
            &&& (r matches Some(p) ==> exists|run: Seq<RStep>|
                #[trigger] goal_run(ins, run) && run_cost(ins, init_state(ins), run)
                    == p.total_time as int && nodes_view(p.node_sequence@) == seq![ins.start]
                    + run_nodes(run) && stops_view(p.pit_stops@) == run_pits(
                    ins,
                    init_state(ins),
                    run,
                ))
            &&& (r matches Some(p) ==> p.node_sequence@.len() >= 1 && p.node_sequence@[0] as int
                == ins.start && p.node_sequence@[p.node_sequence@.len() - 1] as int == ins.end)
            &&& (r matches Some(p) ==> forall|i: int|
                0 <= i < p.pit_stops@.len() ==> ins.pits.contains(
                    (#[trigger] p.pit_stops@[i]).1 as int,
                ))
            &&& (stranded(ins) && !at_goal(ins, init_state(ins)) ==> r is None)
            &&& (stranded_outside_pits(ins) && !ins.pits.contains(ins.start) && !at_goal(
                ins,
                init_state(ins),
            ) ==> r is None)
            &&& ((forall|v: int, d: int|
                has_edge(ins, ins.start, v, d) ==> d > ins.fuel_capacity)
                && !ins.pits.contains(ins.start) && !at_goal(ins, init_state(ins)) ==> r is None)
            &&& (at_goal(ins, init_state(ins)) ==> (r matches Some(p) && p.total_time == 0
                && p.pit_stops@.len() == 0 && nodes_view(p.node_sequence@) == seq![ins.start]))
            &&& ((exists|run: Seq<RStep>|
                #[trigger] goal_run(ins, run) && run_cost(ins, init_state(ins), run)
                    <= u32::MAX as int) ==> r is Some)
            &&& (r matches Some(p) ==> forall|run: Seq<RStep>| #[trigger] goal_run(ins, run)
                ==> run_cost(ins, init_state(ins), run) >= p.total_time as int)
        }),
{
    let ghost ins = instance_of(
        race_data,
        graph,
        start_node,
        end_node,
        total_laps,
        car_config,
        pit_stop_penalty,
        tyre_wear_distance,
    );
    let mut frontier: Vec<Label> = Vec::new();
    let mut best_times = BestTimes::new();

    let initial_state = State {
        lap: 0,
        current_node: start_node,
        current_fuel: car_config.fuel_capacity,
        tyre_distance: 0,
    };
    let mut initial_path: Vec<usize> = Vec::new();
    initial_path.push(start_node);
    proof {
        assert(initial_state@ == init_state(ins));
        assert(nodes_view(initial_path@) =~= seq![ins.start] + run_nodes(Seq::<RStep>::empty()));
        assert(stops_view(Seq::<(u32, usize)>::empty()) =~= run_pits(
            ins,
            init_state(ins),
            Seq::<RStep>::empty(),
        ));
    }
    let initial_label = Label {
        time: 0,
        state: initial_state,
        path: initial_path,
        pit_stops_taken: Vec::new(),
        steps: Ghost(Seq::empty()),
    };
    proof {
        assert(label_ok(ins, initial_label));
    }
    frontier.push(initial_label);
    best_times.insert(initial_state, 0);

    let mut best_result: Option<PathInfo> = None;
    let ghost mut best_run: Seq<RStep> = Seq::empty();

    // The initial state may already complete the race (start node equals
    // end node on a one-lap race); the search loop below never revisits
    // its seed label's goal test once better states dominate it, so the
    // zero-time route is recorded up front, exactly as the loop would.
    if start_node == end_node && total_laps == 1 {
        let mut p0: Vec<usize> = Vec::new();
        p0.push(start_node);
        proof {
            assert(at_goal(ins, init_state(ins)));
            assert(goal_run(ins, Seq::<RStep>::empty()));
            assert(nodes_view(p0@) =~= seq![ins.start] + run_nodes(Seq::<RStep>::empty()));
            assert(stops_view(Seq::<(u32, usize)>::empty()) =~= run_pits(
                ins,
                init_state(ins),
                Seq::<RStep>::empty(),
            ));
        }
        best_result = Some(PathInfo { total_time: 0, pit_stops: Vec::new(), node_sequence: p0 });
    }
    proof {
        if at_goal(ins, init_state(ins)) {
            assert(start_node == end_node && total_laps == 1);
        }
    }

    // Ghost bookkeeping for completeness and termination: the states whose
    // every machine-representable move the table already accounts for.
    let ghost init_key = initial_state;
    let ghost mut settled: Set<State> = Set::empty();
    // Reading the node count bounds the adjacency view by the machine's
    // address space, which the instance-wide bounds below need.
    let node_count = graph.adj.len();
    proof {
        assert(machine_instance(ins)) by {
            assert(graph.adj@.len() == node_count as int);
            assert(graph.adj@.len() <= usize::MAX as int);
            assert forall|uu: int, k: int|
                0 <= uu < ins.adj.len() && 0 <= k < ins.adj[uu].len() implies 0 <= (
            #[trigger] ins.adj[uu][k]).0 < ins.adj.len() && 0 <= ins.adj[uu][k].1
                <= u32::MAX as int by {
                assert(ins.adj[uu] == crate::graph::row_view(graph.adj@[uu]@));
                assert(ins.adj[uu][k] == (graph.adj@[uu]@[k].0 as int, graph.adj@[uu]@[k].1 as int));
            }
        }
        assert(frontier@[0] == initial_label);
        best_times.lemma_size_bounds();
    }

    // Each iteration pops one label, and a label is only ever pushed when
    // it strictly improves the table's time for its state, so the search
    // exhausts the finite space of improving labels and terminates.
    while frontier.len() > 0
        invariant
            best_times.wf(),
            0 <= best_times.size() <= state_space(),
            best_times.potential() >= 0,
            forall|i: int| 0 <= i < frontier@.len() ==> label_ok(ins, #[trigger] frontier@[i]),
            forall|i: int|
                0 <= i < frontier@.len() ==> best_times@.contains_key(
                    (#[trigger] frontier@[i]).state,
                ) && best_times@[frontier@[i].state] <= frontier@[i].time,
            forall|s: State|
                #[trigger] best_times@.contains_key(s) ==> settled.contains(s) || exists|i: int|
                    0 <= i < frontier@.len() && (#[trigger] frontier@[i]).state == s
                        && frontier@[i].time == best_times@[s],
            forall|s: State|
                #[trigger] settled.contains(s) ==> best_times@.contains_key(s) && expanded(
                    ins,
                    s,
                    best_times@,
                    best_result,
                ),
            forall|s: State, i: int|
                #[trigger] settled.contains(s) && 0 <= i < frontier@.len() ==> best_times@[s] <= (
                #[trigger] frontier@[i]).time,
            best_times@.contains_key(init_key),
            best_times@[init_key] == 0,
            init_key@ == init_state(ins),
            best_result matches Some(p) ==> goal_run(ins, best_run) && run_cost(
                ins,
                init_state(ins),
                best_run,
            ) == p.total_time as int && nodes_view(p.node_sequence@) == seq![ins.start]
                + run_nodes(best_run) && stops_view(p.pit_stops@) == run_pits(
                ins,
                init_state(ins),
                best_run,
            ),
            at_goal(ins, init_state(ins)) ==> (best_result matches Some(p) && p.total_time == 0
                && p.pit_stops@.len() == 0 && nodes_view(p.node_sequence@) == seq![ins.start]),
        decreases (state_space() - best_times.size()) * (u32::MAX as int + 2)
            + best_times.potential() + frontier@.len(),
    {
        let ghost frpre = frontier@;
        let label = pop_min(&mut frontier);
        proof {
            let k0 = choose|k: int| 0 <= k < frpre.len() && label == frpre[k];
            assert(label_ok(ins, label));
            assert(best_times@.contains_key(label.state));
            assert(best_times@[label.state] <= label.time);
            assert forall|i: int|
                0 <= i < frontier@.len() implies label_ok(ins, #[trigger] frontier@[i])
                && best_times@.contains_key(frontier@[i].state)
                && best_times@[frontier@[i].state] <= frontier@[i].time && label.time
                <= frontier@[i].time by {
                let k = choose|k: int| 0 <= k < frpre.len() && #[trigger] frontier@[i] == frpre[k];
                assert(label_ok(ins, frpre[k]));
            }
            assert forall|s: State, i: int|
                #[trigger] settled.contains(s) && 0 <= i < frontier@.len() implies best_times@[s]
                <= (#[trigger] frontier@[i]).time by {
                let k = choose|k: int| 0 <= k < frpre.len() && frontier@[i] == frpre[k];
                assert(best_times@[s] <= frpre[k].time);
            }
            assert forall|s: State|
                #[trigger] best_times@.contains_key(s) && !settled.contains(s) implies (s
                == label.state && best_times@[s] == label.time) || exists|i: int|
                0 <= i < frontier@.len() && (#[trigger] frontier@[i]).state == s
                    && frontier@[i].time == best_times@[s] by {
                let i0 = choose|i: int|
                    0 <= i < frpre.len() && (#[trigger] frpre[i]).state == s && frpre[i].time
                        == best_times@[s];
                if frpre[i0] == label {
                } else {
                    let jj = choose|jj: int|
                        0 <= jj < frontier@.len() && #[trigger] frontier@[jj] == frpre[i0];
                    assert(frontier@[jj].state == s && frontier@[jj].time == best_times@[s]);
                }
            }
        }

        // Dominance check: a label superseded since it was enqueued is
        // stale and is discarded (lazy deletion).
        match best_times.get(&label.state) {
            Some(existing_best_time) => {
                if label.time > existing_best_time {
                    proof {
                        best_times.lemma_size_bounds();
                    }
                    continue;
                }
            },
            None => {},
        }
        proof {
            assert(best_times@[label.state] == label.time);
        }

        // Goal test: record the completed route if it improves on the
        // best one found, then keep exploring other states.
        if label.state.current_node == end_node && total_laps >= 1 && label.state.lap == total_laps
            - 1 {
            proof {
                assert(at_goal(ins, label.state@));
            }
            let ghost prev_best = best_result;
            let improves = match &best_result {
                Some(p) => label.time < p.total_time,
                None => true,
            };
            if improves {
                proof {
                    best_run = label.steps@;
                }
                best_result = Some(
                    PathInfo {
                        total_time: label.time,
                        pit_stops: label.pit_stops_taken,
                        node_sequence: label.path,
                    },
                );
            }
            proof {
                let ghost prev_settled = settled;
                settled = settled.insert(label.state);
                assert(best_result matches Some(p) && p.total_time <= best_times@[label.state]);
                assert(expanded(ins, label.state, best_times@, best_result));
                assert forall|s: State| #[trigger] settled.contains(s) implies
                    best_times@.contains_key(s) && expanded(ins, s, best_times@, best_result) by {
                    if s != label.state {
                        assert(prev_settled.contains(s));
                        lemma_expanded_monotone(
                            ins,
                            s,
                            best_times@,
                            best_times@,
                            prev_best,
                            best_result,
                        );
                    }
                }
                best_times.lemma_size_bounds();
            }
            continue;
        }

        // Relax every outgoing edge of the current node, directly and —
        // at a pit node — with a preceding pit stop.
        let u = label.state.current_node;
        let at_pit = is_pit_node(&race_data.pit_nodes, u);
        proof {
            if at_pit {
                let i = choose|i: int|
                    0 <= i < race_data.pit_nodes@.len() && race_data.pit_nodes@[i] == u;
                assert(race_data.pit_nodes@[i] as int == u as int);
                assert(ins.pits.contains(u as int));
            } else if ins.pits.contains(u as int) {
                let i = choose|i: int|
                    0 <= i < race_data.pit_nodes@.len() && race_data.pit_nodes@[i] as int
                        == u as int;
                assert(race_data.pit_nodes@.contains(u));
            }
            assert(!at_goal(ins, label.state@));
        }
        let ghost d_pop = (state_space() - best_times.size()) * (u32::MAX as int + 2)
            + best_times.potential() + frontier@.len();
        let row_len = graph.adj[u].len();
        proof {
            assert(ins.adj[u as int] == crate::graph::row_view(graph.adj@[u as int]@));
            assert(ins.adj[u as int].len() == row_len as int);
        }
        let mut j: usize = 0;
        while j < row_len
            invariant
                j <= row_len,
                best_times.wf(),
                0 <= best_times.size() <= state_space(),
                best_times.potential() >= 0,
                forall|i: int| 0 <= i < frontier@.len() ==> label_ok(ins, #[trigger] frontier@[i]),
                forall|i: int|
                    0 <= i < frontier@.len() ==> best_times@.contains_key(
                        (#[trigger] frontier@[i]).state,
                    ) && best_times@[frontier@[i].state] <= frontier@[i].time,
                forall|s: State|
                    #[trigger] best_times@.contains_key(s) ==> settled.contains(s) || s
                        == label.state || exists|i: int|
                        0 <= i < frontier@.len() && (#[trigger] frontier@[i]).state == s
                            && frontier@[i].time == best_times@[s],
                forall|s: State|
                    #[trigger] settled.contains(s) ==> best_times@.contains_key(s) && expanded(
                        ins,
                        s,
                        best_times@,
                        best_result,
                    ),
                forall|s: State, i: int|
                    #[trigger] settled.contains(s) && 0 <= i < frontier@.len()
                        ==> best_times@[s] <= (#[trigger] frontier@[i]).time,
                forall|s: State| #[trigger] settled.contains(s) ==> best_times@[s] <= label.time,
                forall|i: int| 0 <= i < frontier@.len() ==> label.time <= (#[trigger] frontier@[i]).time,
                best_times@.contains_key(label.state),
                best_times@[label.state] == label.time,
                best_times@.contains_key(init_key),
                best_times@[init_key] == 0,
                forall|st: RStep|
                    #[trigger] step_enabled(ins, label.state@, st) && fits(
                        ins,
                        label.state@,
                        st,
                        label.time as int,
                    ) && (exists|k: int|
                        0 <= k < j && #[trigger] ins.adj[label.state@.node][k] == (st.to, st.dist))
                        ==> best_times@.contains_key(to_state(step_state(ins, label.state@, st)))
                        && best_times@[to_state(step_state(ins, label.state@, st))] as int
                        <= label.time as int + step_cost(ins, label.state@, st),
                (state_space() - best_times.size()) * (u32::MAX as int + 2)
                    + best_times.potential() + frontier@.len() <= d_pop,
            decreases row_len - j,
        {
            let edge = graph.adj[u][j];
            let v = edge.0;
            let d = edge.1;
            proof {
                assert(ins.adj[u as int][j as int] == (v as int, d as int));
                assert(has_edge(ins, u as int, v as int, d as int));
                assert((v as int) < ins.adj.len());
            }
            let ghost bt_a = best_times;
            let ghost fr_a = frontier@;
            if label.state.current_fuel >= d {
                try_relax(
                    &mut frontier,
                    &mut best_times,
                    &label,
                    false,
                    v,
                    d,
                    start_node,
                    car_config,
                    pit_stop_penalty,
                    tyre_wear_distance,
                    Ghost(ins),
                );
            }
            proof {
                lemma_relax_effect(
                    ins,
                    bt_a,
                    best_times,
                    fr_a,
                    frontier@,
                    settled,
                    best_result,
                    label.state,
                    label.time,
                );
            }
            let ghost bt_b = best_times;
            let ghost fr_b = frontier@;
            if at_pit && car_config.fuel_capacity >= d {
                try_relax(
                    &mut frontier,
                    &mut best_times,
                    &label,
                    true,
                    v,
                    d,
                    start_node,
                    car_config,
                    pit_stop_penalty,
                    tyre_wear_distance,
                    Ghost(ins),
                );
            }
            proof {
                lemma_relax_effect(
                    ins,
                    bt_b,
                    best_times,
                    fr_b,
                    frontier@,
                    settled,
                    best_result,
                    label.state,
                    label.time,
                );
                assert forall|st: RStep|
                    #[trigger] step_enabled(ins, label.state@, st) && fits(
                        ins,
                        label.state@,
                        st,
                        label.time as int,
                    ) && (exists|k: int|
                        0 <= k < j + 1 && #[trigger] ins.adj[label.state@.node][k] == (
                        st.to,
                        st.dist,
                        )) implies best_times@.contains_key(
                    to_state(step_state(ins, label.state@, st)),
                ) && best_times@[to_state(step_state(ins, label.state@, st))] as int
                    <= label.time as int + step_cost(ins, label.state@, st) by {
                    let k = choose|k: int|
                        0 <= k < j + 1 && #[trigger] ins.adj[label.state@.node][k] == (
                        st.to,
                        st.dist,
                        );
                    if k < j {
                        assert(bt_a@.contains_key(to_state(step_state(ins, label.state@, st)))
                            && bt_a@[to_state(step_state(ins, label.state@, st))] as int
                            <= label.time as int + step_cost(ins, label.state@, st));
                    } else {
                        assert(st.to == v as int && st.dist == d as int);
                        assert(st == step_of(st.pit, v, d));
                        if st.pit {
                            assert(ins.pits.contains(label.state@.node));
                            assert(at_pit && car_config.fuel_capacity >= d);
                        } else {
                            assert(label.state.current_fuel >= d);
                            assert(bt_b@.contains_key(to_state(step_state(ins, label.state@, st)))
                                && bt_b@[to_state(step_state(ins, label.state@, st))] as int
                                <= label.time as int + step_cost(ins, label.state@, st));
                        }
                    }
                }
                best_times.lemma_size_bounds();
            }
            j += 1;
        }
        proof {
            assert(expanded(ins, label.state, best_times@, best_result)) by {
                assert forall|st: RStep|
                    #[trigger] step_enabled(ins, label.state@, st) && fits(
                        ins,
                        label.state@,
                        st,
                        best_times@[label.state] as int,
                    ) implies best_times@.contains_key(
                    to_state(step_state(ins, label.state@, st)),
                ) && best_times@[to_state(step_state(ins, label.state@, st))] as int
                    <= best_times@[label.state] as int + step_cost(ins, label.state@, st) by {
                    assert(has_edge(ins, label.state@.node, st.to, st.dist));
                    assert(ins.adj[label.state@.node].contains((st.to, st.dist)));
                    let k = choose|k: int|
                        0 <= k < ins.adj[label.state@.node].len() && ins.adj[label.state@.node][k]
                            == (st.to, st.dist);
                    assert(0 <= k < row_len as int && #[trigger] ins.adj[label.state@.node][k] == (
                    st.to,
                    st.dist,
                    ));
                }
            };
            let ghost prev_settled = settled;
            settled = settled.insert(label.state);
            assert forall|s: State| #[trigger] settled.contains(s) implies
                best_times@.contains_key(s) && expanded(ins, s, best_times@, best_result) by {
                if s != label.state {
                    assert(prev_settled.contains(s));
                }
            }
            best_times.lemma_size_bounds();
        }
    }
    proof {
        assert forall|s: State| #[trigger] best_times@.contains_key(s) implies expanded(
            ins,
            s,
            best_times@,
            best_result,
        ) by {
            assert(settled.contains(s));
        }
        if exists|run: Seq<RStep>|
            #[trigger] goal_run(ins, run) && run_cost(ins, init_state(ins), run)
                <= u32::MAX as int {
            let run = choose|run: Seq<RStep>|
                #[trigger] goal_run(ins, run) && run_cost(ins, init_state(ins), run)
                    <= u32::MAX as int;
            lemma_walk(ins, best_times@, best_result, init_key, run);
        }
        match &best_result {
            Some(p) => {
                assert forall|run: Seq<RStep>| #[trigger] goal_run(ins, run) implies run_cost(
                    ins,
                    init_state(ins),
                    run,
                ) >= p.total_time as int by {
                    if run_cost(ins, init_state(ins), run) <= u32::MAX as int {
                        lemma_walk(ins, best_times@, best_result, init_key, run);
                    }
                }
            },
            None => {},
        }
        if stranded(ins) && !at_goal(ins, init_state(ins)) {
            match &best_result {
                Some(p) => {
                    lemma_stranded_run_empty(ins, best_run);
                    assert(run_end(ins, init_state(ins), best_run) == init_state(ins));
                    assert(false);
                },
                None => {},
            }
        }
        if stranded_outside_pits(ins) && !ins.pits.contains(ins.start) && !at_goal(
            ins,
            init_state(ins),
        ) {
            match &best_result {
                Some(p) => {
                    lemma_stranded_outside_pits_run_empty(ins, best_run);
                    assert(run_end(ins, init_state(ins), best_run) == init_state(ins));
                    assert(false);
                },
                None => {},
            }
        }
        if (forall|v: int, d: int| has_edge(ins, ins.start, v, d) ==> d > ins.fuel_capacity)
            && !ins.pits.contains(ins.start) && !at_goal(ins, init_state(ins)) {
            match &best_result {
                Some(p) => {
                    lemma_start_blocked_run_empty(ins, best_run);
                    assert(run_end(ins, init_state(ins), best_run) == init_state(ins));
                    assert(false);
                },
                None => {},
            }
        }
        match &best_result {
            Some(p) => {
                assert(goal_run(ins, best_run) && run_cost(ins, init_state(ins), best_run)
                    == p.total_time as int && nodes_view(p.node_sequence@) == seq![ins.start]
                    + run_nodes(best_run) && stops_view(p.pit_stops@) == run_pits(
                    ins,
                    init_state(ins),
                    best_run,
                ));
                let q = p.node_sequence@;
                lemma_run_nodes_shape(ins, init_state(ins), best_run);
                lemma_run_pits_at_pit_nodes(ins, init_state(ins), best_run);
                assert forall|i: int| 0 <= i < p.pit_stops@.len() implies ins.pits.contains(
                    (#[trigger] p.pit_stops@[i]).1 as int,
                ) by {
                    assert(stops_view(p.pit_stops@)[i] == (
                        p.pit_stops@[i].0 as int,
                        p.pit_stops@[i].1 as int,
                    ));
                }
                assert(nodes_view(q).len() == q.len());
                assert(nodes_view(q)[0] == q[0] as int);
                assert(nodes_view(q)[q.len() - 1] == q[q.len() - 1] as int);
                if best_run.len() == 0 {
                    assert(run_end(ins, init_state(ins), best_run) == init_state(ins));
                    assert(q[q.len() - 1] as int == ins.end);
                } else {
                    assert(nodes_view(q)[q.len() - 1] == run_nodes(best_run)[best_run.len() - 1]);
                    assert(q[q.len() - 1] as int == ins.end);
                }
            },
            None => {},
        }
    }
    best_result
}

} // verus!
