use crate::race::Edge;
use vstd::prelude::*;

verus! {

/// The (destination, distance) pairs of one adjacency row, as mathematical
/// integers.
pub open spec fn row_view(row: Seq<(usize, u32)>) -> Seq<(int, int)> {
    row.map_values(|e: (usize, u32)| (e.0 as int, e.1 as int))
}

/// The adjacency row that an edge list induces for node `from`: its edges
/// leaving `from`, in input order, as (destination, distance) pairs.
pub open spec fn row_of(edges: Seq<Edge>, from: int) -> Seq<(int, int)>
    decreases edges.len(),
{
    if edges.len() == 0 {
        Seq::empty()
    } else {
        let init = row_of(edges.drop_last(), from);
        let e = edges.last();
        if e.u as int == from {
            init.push((e.v as int, e.distance as int))
        } else {
            init
        }
    }
}

/// Adjacency representation of the track: `adj[u]` lists the outgoing
/// edges of node `u` as (destination, distance) pairs. Built once from the
/// edge list; read-only afterwards.
pub struct Graph {
    pub adj: Vec<Vec<(usize, u32)>>,
}

impl View for Graph {
    type V = Seq<Seq<(int, int)>>;

    open spec fn view(&self) -> Seq<Seq<(int, int)>> {
        self.adj@.map_values(|row: Vec<(usize, u32)>| row_view(row@))
    }
}

impl Graph {
    /// Every listed destination is again a node of the graph.
    pub open spec fn wf(&self) -> bool {
        forall|u: int, k: int|
            0 <= u < self@.len() && 0 <= k < self@[u].len() ==> {
                let e = #[trigger] self@[u][k];
                0 <= e.0 < self@.len() && 0 <= e.1
            }
    }

    /// Builds the adjacency lists from a validated edge list: one row per
    /// node in `[0, n)`, holding exactly the edges leaving that node, in
    /// input order.
    pub fn new(n: usize, edges: &Vec<Edge>) -> (g: Graph)
        requires
            forall|i: int| 0 <= i < edges@.len() ==> {
                let e = #[trigger] edges@[i];
                e.u < n && e.v < n
            },
        ensures
            g@.len() == n,
            forall|u: int| 0 <= u < n ==> #[trigger] g@[u] == row_of(edges@, u),
            g.wf(),
    {
        let mut adj: Vec<Vec<(usize, u32)>> = Vec::new();
        let mut i: usize = 0;
        while i < n
            invariant
                i <= n,
                adj@.len() == i,
                forall|u: int| 0 <= u < i ==> (#[trigger] adj@[u])@.len() == 0,
            decreases n - i,
        {
            adj.push(Vec::new());
            i += 1;
        }
        let mut j: usize = 0;
        while j < edges.len()
            invariant
                j <= edges@.len(),
                adj@.len() == n,
                forall|i2: int| 0 <= i2 < edges@.len() ==> {
                    let e = #[trigger] edges@[i2];
                    e.u < n && e.v < n
                },
                forall|u: int| 0 <= u < n
                    ==> row_view((#[trigger] adj@[u])@) == row_of(edges@.take(j as int), u),
                forall|u: int, k: int|
                    0 <= u < n && 0 <= k < adj@[u]@.len()
                        ==> (#[trigger] adj@[u]@[k]).0 < n,
            decreases edges@.len() - j,
        {
            let eu = edges[j].u;
            let ev = edges[j].v;
            let ed = edges[j].distance;
            let ghost prev = adj@;
            let row = &mut adj[eu];
            row.push((ev, ed));
            proof {
                assert(adj@ =~= prev.update(eu as int, adj@[eu as int]));
                assert(adj@[eu as int]@ =~= prev[eu as int]@.push((ev, ed)));
                assert forall|u: int| 0 <= u < n implies row_view((#[trigger] adj@[u])@)
                    == row_of(edges@.take(j + 1), u) by {
                    assert(edges@.take(j + 1).drop_last() =~= edges@.take(j as int));
                    assert(edges@.take(j + 1).last() == edges@[j as int]);
                    if u == eu as int {
                        assert(row_view(prev[u]@.push((ev, ed)))
                            =~= row_view(prev[u]@).push((ev as int, ed as int)));
                    }
                }
            }
            j += 1;
        }
        proof {
            assert(edges@.take(edges@.len() as int) =~= edges@);
        }
        let g = Graph { adj };
        proof {
            assert forall|u: int| 0 <= u < n implies #[trigger] g@[u] == row_of(edges@, u) by {
                assert(g@[u] == row_view(g.adj@[u]@));
            }
            assert forall|u: int, k: int|
                0 <= u < g@.len() && 0 <= k < g@[u].len() implies {
                    let e = #[trigger] g@[u][k];
                    0 <= e.0 < g@.len() && 0 <= e.1
                } by {
                assert(g@[u] == row_view(g.adj@[u]@));
                assert(g@[u][k] == (g.adj@[u]@[k].0 as int, g.adj@[u]@[k].1 as int));
            }
        }
        g
    }
}

} // verus!
