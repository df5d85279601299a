use vstd::prelude::*;

verus! {

/// Per-vehicle configuration: the maximum fuel the tank holds and the time
/// penalty charged per unit of tyre distance beyond the wear threshold.
pub struct CarConfig {
    pub fuel_capacity: u32,
    pub tyre_cost: u32,
}

/// A directed edge of the track graph; `distance` doubles as the base
/// travel time (one distance unit costs one time unit).
pub struct Edge {
    pub u: usize,
    pub v: usize,
    pub distance: u32,
}

/// A validated race description: node count `n`, the directed edges, the
/// pit-node indices, and one configuration per car. The counts `np`, `c`
/// and `m` mirror the lengths of the three lists as given by the input.
pub struct RaceData {
    pub n: usize,
    pub np: usize,
    pub c: usize,
    pub m: usize,
    pub edges: Vec<Edge>,
    pub pit_nodes: Vec<usize>,
    pub cars: Vec<CarConfig>,
}

impl RaceData {
    /// The pit nodes as a mathematical set of node indices.
    pub open spec fn pit_set(&self) -> Set<int> {
        Set::new(|x: int| exists|i: int| 0 <= i < self.pit_nodes@.len() && self.pit_nodes@[i] as int == x)
    }
}

/// Whether `node` is one of the designated pit nodes.
pub fn is_pit_node(pit_nodes: &Vec<usize>, node: usize) -> (r: bool)
    ensures
        r == pit_nodes@.contains(node),
{
    let mut i: usize = 0;
    while i < pit_nodes.len()
        invariant
            i <= pit_nodes@.len(),
            forall|k: int| 0 <= k < i ==> pit_nodes@[k] != node,
        decreases pit_nodes@.len() - i,
    {
        if pit_nodes[i] == node {
            return true;
        }
        i += 1;
    }
    false
}

} // verus!
