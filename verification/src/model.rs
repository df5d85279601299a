use vstd::prelude::*;

verus! {

/// One search instance, as mathematical values: the adjacency view of the
/// track graph, the pit-node set, the car's resources, and the caller's
/// race parameters.
pub struct Instance {
    pub adj: Seq<Seq<(int, int)>>,
    pub pits: Set<int>,
    pub fuel_capacity: int,
    pub tyre_cost: int,
    pub start: int,
    pub end: int,
    pub laps: int,
    pub pit_penalty: int,
    pub wear_threshold: int,
}

/// An abstract search state: the lap counter, the current node, the fuel
/// left in the tank, and the distance driven on the current set of tyres.
pub struct RState {
    pub lap: int,
    pub node: int,
    pub fuel: int,
    pub tyre: int,
}

/// One move of a route: traversing the edge to `to` of length `dist`,
/// either directly or right after a pit stop at the current node.
pub struct RStep {
    pub pit: bool,
    pub to: int,
    pub dist: int,
}

/// The state every search starts from: lap 0, the start node, a full tank,
/// fresh tyres.
pub open spec fn init_state(ins: Instance) -> RState {
    RState { lap: 0, node: ins.start, fuel: ins.fuel_capacity, tyre: 0 }
}

/// Whether the track has a directed edge from `u` to `v` of length `d`.
pub open spec fn has_edge(ins: Instance, u: int, v: int, d: int) -> bool {
    0 <= u < ins.adj.len() && ins.adj[u].contains((v, d))
}

/// The tyre-wear penalty for finishing a segment with `tyre` distance
/// accumulated: zero up to the wear threshold, then linear in the excess.
pub open spec fn tyre_penalty(ins: Instance, tyre: int) -> int {
    if tyre > ins.wear_threshold {
        (tyre - ins.wear_threshold) * ins.tyre_cost
    } else {
        0
    }
}

/// The lap counter after moving from `s` onto node `v`: it increments
/// exactly when the route moves onto the start node from a different node.
pub open spec fn next_lap(ins: Instance, s: RState, v: int) -> int {
    if v == ins.start && s.node != ins.start {
        s.lap + 1
    } else {
        s.lap
    }
}

/// Whether step `st` may be taken from state `s`: its edge must leave the
/// current node; a direct move needs enough fuel in the tank, a pit move
/// needs the current node to be a pit node and the edge to fit in a full
/// tank.
pub open spec fn step_enabled(ins: Instance, s: RState, st: RStep) -> bool {
    has_edge(ins, s.node, st.to, st.dist) && if st.pit {
        ins.pits.contains(s.node) && ins.fuel_capacity >= st.dist
    } else {
        s.fuel >= st.dist
    }
}

/// The state after taking step `st` from state `s`. A pit stop resets both
/// resources before the edge is traversed, so the tyres then carry exactly
/// this edge's distance.
pub open spec fn step_state(ins: Instance, s: RState, st: RStep) -> RState {
    if st.pit {
        RState {
            lap: next_lap(ins, s, st.to),
            node: st.to,
            fuel: ins.fuel_capacity - st.dist,
            tyre: st.dist,
        }
    } else {
        RState {
            lap: next_lap(ins, s, st.to),
            node: st.to,
            fuel: s.fuel - st.dist,
            tyre: s.tyre + st.dist,
        }
    }
}

/// The time that step `st` from state `s` costs: the edge distance, plus
/// the tyre penalty against the wear after the step, plus the pit penalty
/// if the move pits first.
pub open spec fn step_cost(ins: Instance, s: RState, st: RStep) -> int {
    st.dist + tyre_penalty(ins, step_state(ins, s, st).tyre) + if st.pit {
        ins.pit_penalty
    } else {
        0
    }
}

/// Whether the whole step sequence `run` may be taken starting in `s`.
pub open spec fn run_ok(ins: Instance, s: RState, run: Seq<RStep>) -> bool
    decreases run.len(),
{
    run.len() == 0 || (step_enabled(ins, s, run[0]) && run_ok(
        ins,
        step_state(ins, s, run[0]),
        run.drop_first(),
    ))
}

/// The state in which `run`, started in `s`, ends.
pub open spec fn run_end(ins: Instance, s: RState, run: Seq<RStep>) -> RState
    decreases run.len(),
{
    if run.len() == 0 {
        s
    } else {
        run_end(ins, step_state(ins, s, run[0]), run.drop_first())
    }
}

/// The total time of `run` started in `s`.
pub open spec fn run_cost(ins: Instance, s: RState, run: Seq<RStep>) -> int
    decreases run.len(),
{
    if run.len() == 0 {
        0
    } else {
        step_cost(ins, s, run[0]) + run_cost(ins, step_state(ins, s, run[0]), run.drop_first())
    }
}

/// The nodes `run` visits, in order, not counting the node it starts on.
pub open spec fn run_nodes(run: Seq<RStep>) -> Seq<int>
    decreases run.len(),
{
    if run.len() == 0 {
        Seq::empty()
    } else {
        seq![run[0].to] + run_nodes(run.drop_first())
    }
}

/// The pit stops `run` takes, in order, each recorded as (lap, node) at
/// the moment of pitting.
pub open spec fn run_pits(ins: Instance, s: RState, run: Seq<RStep>) -> Seq<(int, int)>
    decreases run.len(),
{
    if run.len() == 0 {
        Seq::empty()
    } else {
        let rest = run_pits(ins, step_state(ins, s, run[0]), run.drop_first());
        if run[0].pit {
            seq![(s.lap, s.node)] + rest
        } else {
            rest
        }
    }
}

/// Whether state `s` completes the race: the end node is reached on the
/// final lap.
pub open spec fn at_goal(ins: Instance, s: RState) -> bool {
    s.node == ins.end && s.lap + 1 == ins.laps
}

/// Whether `run` is a feasible route of the instance: it starts from the
/// initial state, respects edges and resources throughout, and completes
/// the race.
pub open spec fn goal_run(ins: Instance, run: Seq<RStep>) -> bool {
    run_ok(ins, init_state(ins), run) && at_goal(ins, run_end(ins, init_state(ins), run))
}

/// Whether the tank is too small for every edge of the track, so that not
/// even a pit stop lets the car leave any node.
pub open spec fn stranded(ins: Instance) -> bool {
    forall|u: int, v: int, d: int| has_edge(ins, u, v, d) ==> d > ins.fuel_capacity
}

/// Whether the instance's values all come from machine integers: node
/// indices and distances within their types' ranges, non-negative costs
/// and penalties, and a lap goal that a lap counter can reach.
pub open spec fn machine_instance(ins: Instance) -> bool {
    &&& forall|u: int, k: int|
        0 <= u < ins.adj.len() && 0 <= k < ins.adj[u].len() ==> {
            let e = #[trigger] ins.adj[u][k];
            0 <= e.0 < ins.adj.len() && 0 <= e.1 <= u32::MAX as int
        }
    &&& ins.adj.len() <= usize::MAX as int + 1
    &&& 0 <= ins.fuel_capacity <= u32::MAX as int
    &&& 0 <= ins.tyre_cost
    &&& 0 <= ins.pit_penalty
    &&& 0 <= ins.laps <= u32::MAX as int
    &&& 0 <= ins.start
}

/// On a machine instance, an enabled step has a machine-sized edge and a
/// cost of at least its distance, its penalty, and its pit surcharge, all
/// of them non-negative.
pub proof fn lemma_step_cost_bounds(ins: Instance, s: RState, st: RStep)
    requires
        machine_instance(ins),
        step_enabled(ins, s, st),
    ensures
        0 <= st.dist <= u32::MAX as int,
        0 <= st.to < ins.adj.len(),
        tyre_penalty(ins, step_state(ins, s, st).tyre) >= 0,
        step_cost(ins, s, st) >= st.dist + (if st.pit {
            ins.pit_penalty
        } else {
            0
        }),
        step_cost(ins, s, st) >= tyre_penalty(ins, step_state(ins, s, st).tyre),
        step_cost(ins, s, st) >= 0,
{
    let tyre = step_state(ins, s, st).tyre;
    if tyre > ins.wear_threshold {
        assert((tyre - ins.wear_threshold) * ins.tyre_cost >= 0) by (nonlinear_arith)
            requires
                tyre - ins.wear_threshold > 0,
                ins.tyre_cost >= 0,
        ;
    }
}

/// On a machine instance, a feasible run never costs less than nothing.
pub proof fn lemma_run_cost_nonneg(ins: Instance, s: RState, run: Seq<RStep>)
    requires
        machine_instance(ins),
        run_ok(ins, s, run),
    ensures
        run_cost(ins, s, run) >= 0,
    decreases run.len(),
{
    if run.len() > 0 {
        lemma_step_cost_bounds(ins, s, run[0]);
        lemma_run_cost_nonneg(ins, step_state(ins, s, run[0]), run.drop_first());
    }
}

/// The lap counter never decreases along a run.
pub proof fn lemma_lap_monotone(ins: Instance, s: RState, run: Seq<RStep>)
    requires
        run_ok(ins, s, run),
    ensures
        run_end(ins, s, run).lap >= s.lap,
    decreases run.len(),
{
    if run.len() > 0 {
        lemma_lap_monotone(ins, step_state(ins, s, run[0]), run.drop_first());
    }
}

/// Appending one enabled step to a feasible run keeps it feasible and
/// extends its end state, cost, visited nodes and pit stops by exactly
/// that step's contribution.
pub proof fn lemma_run_push(ins: Instance, s: RState, run: Seq<RStep>, st: RStep)
    requires
        run_ok(ins, s, run),
        step_enabled(ins, run_end(ins, s, run), st),
    ensures
        run_ok(ins, s, run.push(st)),
        run_end(ins, s, run.push(st)) == step_state(ins, run_end(ins, s, run), st),
        run_cost(ins, s, run.push(st)) == run_cost(ins, s, run) + step_cost(
            ins,
            run_end(ins, s, run),
            st,
        ),
        run_nodes(run.push(st)) == run_nodes(run).push(st.to),
        run_pits(ins, s, run.push(st)) == run_pits(ins, s, run) + (if st.pit {
            seq![(run_end(ins, s, run).lap, run_end(ins, s, run).node)]
        } else {
            Seq::<(int, int)>::empty()
        }),
    decreases run.len(),
{
    if run.len() == 0 {
        reveal_with_fuel(run_ok, 2);
        reveal_with_fuel(run_end, 2);
        reveal_with_fuel(run_cost, 2);
        reveal_with_fuel(run_nodes, 2);
        reveal_with_fuel(run_pits, 2);
        assert(run.push(st)[0] == st);
        assert(run.push(st).drop_first() =~= run);
        assert(run_nodes(run.push(st)) =~= run_nodes(run).push(st.to));
        assert(run_pits(ins, s, run.push(st)) =~= run_pits(ins, s, run) + (if st.pit {
            seq![(run_end(ins, s, run).lap, run_end(ins, s, run).node)]
        } else {
            Seq::<(int, int)>::empty()
        }));
    } else {
        let s1 = step_state(ins, s, run[0]);
        assert(run.push(st)[0] == run[0]);
        assert(run.push(st).drop_first() =~= run.drop_first().push(st));
        lemma_run_push(ins, s1, run.drop_first(), st);
        assert(run_nodes(run.push(st)) =~= run_nodes(run).push(st.to));
        assert(run_pits(ins, s, run.push(st)) =~= run_pits(ins, s, run) + (if st.pit {
            seq![(run_end(ins, s, run).lap, run_end(ins, s, run).node)]
        } else {
            Seq::<(int, int)>::empty()
        }));
    }
}

/// Whether the tank is too small for every edge that leaves a node other
/// than a pit node.
pub open spec fn stranded_outside_pits(ins: Instance) -> bool {
    forall|u: int, v: int, d: int|
        has_edge(ins, u, v, d) && !ins.pits.contains(u) ==> d > ins.fuel_capacity
}

/// When the tank is too small for every edge leaving a non-pit node, and
/// the start node is not a pit node, the car cannot leave the start node:
/// every feasible run is empty.
pub proof fn lemma_stranded_outside_pits_run_empty(ins: Instance, run: Seq<RStep>)
    requires
        stranded_outside_pits(ins),
        !ins.pits.contains(ins.start),
        run_ok(ins, init_state(ins), run),
    ensures
        run.len() == 0,
{
    if run.len() > 0 {
        let st = run[0];
        let s = init_state(ins);
        assert(step_enabled(ins, s, st));
        assert(has_edge(ins, s.node, st.to, st.dist));
        if st.pit {
            assert(ins.pits.contains(s.node));
        } else {
            assert(st.dist > ins.fuel_capacity);
        }
    }
}

/// When every edge leaving the start node is too long for the tank and
/// the start node is not a pit node, the car cannot make even one move:
/// every feasible run is empty. The start node is the only node a route
/// can reach before its first move, so this is feasibility reporting for
/// any instance whose reachable non-pit nodes are all stranded.
pub proof fn lemma_start_blocked_run_empty(ins: Instance, run: Seq<RStep>)
    requires
        forall|v: int, d: int| has_edge(ins, ins.start, v, d) ==> d > ins.fuel_capacity,
        !ins.pits.contains(ins.start),
        run_ok(ins, init_state(ins), run),
    ensures
        run.len() == 0,
{
    if run.len() > 0 {
        let st = run[0];
        let s = init_state(ins);
        assert(step_enabled(ins, s, st));
        assert(has_edge(ins, s.node, st.to, st.dist));
        if st.pit {
            assert(ins.pits.contains(s.node));
        } else {
            assert(st.dist > ins.fuel_capacity);
        }
    }
}

/// A stranded instance admits no move at all: every feasible run is empty.
pub proof fn lemma_stranded_run_empty(ins: Instance, run: Seq<RStep>)
    requires
        stranded(ins),
        run_ok(ins, init_state(ins), run),
    ensures
        run.len() == 0,
{
    if run.len() > 0 {
        let st = run[0];
        let s = init_state(ins);
        assert(step_enabled(ins, s, st));
        assert(has_edge(ins, s.node, st.to, st.dist));
        assert(st.dist > ins.fuel_capacity);
    }
}

/// Resource reset correctness: immediately after any pit-stop move, the
/// tyres carry exactly the distance of the edge taken right after pitting,
/// and the fuel is the tank's capacity less that edge's distance.
pub proof fn lemma_pit_stop_resets_resources(ins: Instance, s: RState, st: RStep)
    requires
        st.pit,
        step_enabled(ins, s, st),
    ensures
        step_state(ins, s, st).tyre == st.dist,
        step_state(ins, s, st).fuel == ins.fuel_capacity - st.dist,
{
}

/// The tyre penalty of a segment is zero whenever the tyre distance after
/// the segment stays within the wear threshold.
pub proof fn lemma_penalty_zero_below_threshold(ins: Instance, tyre: int)
    requires
        tyre <= ins.wear_threshold,
    ensures
        tyre_penalty(ins, tyre) == 0,
{
}

/// Beyond the wear threshold the tyre penalty is strictly increasing in
/// the tyre distance, for any positive per-unit tyre cost.
pub proof fn lemma_penalty_increasing_beyond_threshold(ins: Instance, t1: int, t2: int)
    requires
        ins.wear_threshold <= t1 < t2,
        ins.tyre_cost >= 1,
    ensures
        tyre_penalty(ins, t1) < tyre_penalty(ins, t2),
{
    assert((t1 - ins.wear_threshold) * ins.tyre_cost < (t2 - ins.wear_threshold) * ins.tyre_cost)
        by (nonlinear_arith)
        requires
            t1 < t2,
            ins.wear_threshold <= t1,
            ins.tyre_cost >= 1,
    ;
}

/// A segment that ends within the wear threshold costs exactly its
/// distance, plus the pit penalty if it pits first.
pub proof fn lemma_step_cost_within_threshold(ins: Instance, s: RState, st: RStep)
    requires
        step_state(ins, s, st).tyre <= ins.wear_threshold,
    ensures
        step_cost(ins, s, st) == st.dist + (if st.pit {
            ins.pit_penalty
        } else {
            0
        }),
{
}

/// A run's visited-node sequence has one node per step, and a nonempty
/// run's last visited node is the node its end state sits on.
pub proof fn lemma_run_nodes_shape(ins: Instance, s: RState, run: Seq<RStep>)
    ensures
        run_nodes(run).len() == run.len(),
        run.len() > 0 ==> run_nodes(run)[run.len() - 1] == run_end(ins, s, run).node,
    decreases run.len(),
{
    if run.len() > 0 {
        lemma_run_nodes_shape(ins, step_state(ins, s, run[0]), run.drop_first());
        if run.len() == 1 {
            reveal_with_fuel(run_end, 2);
            reveal_with_fuel(run_nodes, 2);
        } else {
            assert(run_nodes(run)[run.len() - 1] == run_nodes(run.drop_first())[run.len() - 2]);
        }
    }
}

/// Pit-stop gating: a pit move is only ever enabled when the node it
/// leaves is a member of the pit-node set.
pub proof fn lemma_pit_step_only_at_pit_node(ins: Instance, s: RState, st: RStep)
    requires
        st.pit,
        step_enabled(ins, s, st),
    ensures
        ins.pits.contains(s.node),
{
}

/// Every pit stop a feasible run records happened at a pit node.
pub proof fn lemma_run_pits_at_pit_nodes(ins: Instance, s: RState, run: Seq<RStep>)
    requires
        run_ok(ins, s, run),
    ensures
        forall|i: int|
            0 <= i < run_pits(ins, s, run).len() ==> ins.pits.contains(
                (#[trigger] run_pits(ins, s, run)[i]).1,
            ),
    decreases run.len(),
{
    if run.len() > 0 {
        let s1 = step_state(ins, s, run[0]);
        lemma_run_pits_at_pit_nodes(ins, s1, run.drop_first());
        let rest = run_pits(ins, s1, run.drop_first());
        assert forall|i: int|
            0 <= i < run_pits(ins, s, run).len() implies ins.pits.contains(
            (#[trigger] run_pits(ins, s, run)[i]).1,
        ) by {
            if run[0].pit {
                if i > 0 {
                    assert(run_pits(ins, s, run)[i] == rest[i - 1]);
                }
            } else {
                assert(run_pits(ins, s, run)[i] == rest[i]);
            }
        }
    }
}

/// With no pit nodes at all, every feasible run consists of direct moves
/// only: the search behaves exactly as if the pit-stop relaxation were
/// disabled.
pub proof fn lemma_no_pit_nodes_no_pit_steps(ins: Instance, s: RState, run: Seq<RStep>)
    requires
        ins.pits == Set::<int>::empty(),
        run_ok(ins, s, run),
    ensures
        forall|i: int| 0 <= i < run.len() ==> !(#[trigger] run[i]).pit,
    decreases run.len(),
{
    if run.len() > 0 {
        if run[0].pit {
            assert(ins.pits.contains(s.node));
        }
        lemma_no_pit_nodes_no_pit_steps(ins, step_state(ins, s, run[0]), run.drop_first());
        assert forall|i: int| 0 <= i < run.len() implies !(#[trigger] run[i]).pit by {
            if i > 0 {
                assert(run[i] == run.drop_first()[i - 1]);
            }
        }
    }
}

/// A pit-free run does not depend on the pit-node set or the pit penalty:
/// it is feasible for any instance that agrees on the track and the car
/// whenever it is feasible for one, with the same end state and the same
/// cost, and it records no pit stops. Together with the lemma above, a
/// search without pit nodes behaves exactly as if the pit-stop relaxation
/// were disabled.
pub proof fn lemma_pit_free_run_same(ins1: Instance, ins2: Instance, s: RState, run: Seq<RStep>)
    requires
        ins1.adj == ins2.adj,
        ins1.fuel_capacity == ins2.fuel_capacity,
        ins1.tyre_cost == ins2.tyre_cost,
        ins1.start == ins2.start,
        ins1.wear_threshold == ins2.wear_threshold,
        forall|i: int| 0 <= i < run.len() ==> !(#[trigger] run[i]).pit,
        run_ok(ins1, s, run),
    ensures
        run_ok(ins2, s, run),
        run_end(ins2, s, run) == run_end(ins1, s, run),
        run_cost(ins2, s, run) == run_cost(ins1, s, run),
        run_pits(ins1, s, run) == Seq::<(int, int)>::empty(),
        run_pits(ins2, s, run) == Seq::<(int, int)>::empty(),
    decreases run.len(),
{
    if run.len() > 0 {
        let st = run[0];
        let s1 = step_state(ins1, s, st);
        assert(step_enabled(ins2, s, st));
        assert(step_state(ins2, s, st) == s1);
        assert(step_cost(ins2, s, st) == step_cost(ins1, s, st));
        assert forall|i: int| 0 <= i < run.drop_first().len() implies !(#[trigger] run.drop_first()[i]).pit by {
            assert(run.drop_first()[i] == run[i + 1]);
        }
        lemma_pit_free_run_same(ins1, ins2, s1, run.drop_first());
    }
}

} // verus!
