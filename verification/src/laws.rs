//! The library's global guarantees, stated and proved once: the solver's cost
//! is minimal over all tours, solving is deterministic, the two-node boundary
//! behaves as expected, and path-cost computation is a pure function.

use vstd::prelude::*;
use vstd::arithmetic::power2::{lemma2_to64, pow2};

use crate::bitmask::{bit, lemma_bit_ge, lemma_full_mask};
use crate::graph::{path_view, Graph};
use crate::recurrence::{best, full_mask, lemma_opt_is_min, opt_cost, rec_tail, tour_of};
use crate::tsp_solver::{lemma_mat_of_graph, lemma_walk_bridge, solve_post, TSPSolution};
use crate::TSPError;

verus! {

/// Minimality: the cost reported by a solve is a lower bound on the summed
/// edge cost of every Hamiltonian tour that starts and ends at node 0. Since
/// the solution's own path is such a tour with exactly that cost, the
/// reported cost equals the minimum over all of them.
pub proof fn lemma_optimal_cost_minimal(g: Graph, sol: TSPSolution, p: Seq<int>)
    requires
        g.wf(),
        g.complete(),
        2 <= g.size,
        solve_post(g, sol),
        g.spec_tour_ok(p),
        p[0] == 0,
    ensures
        sol.optimal_cost <= g.spec_path_cost(p, g.n()),
{
    let m = g.mat();
    let n = g.n();
    lemma_mat_of_graph(g);
    lemma_full_mask(n);
    let q = p.subrange(1, n);
    assert forall|k: int| 0 <= k < q.len() implies bit(full_mask(n), #[trigger] q[k]) by {
        assert(q[k] == p[k + 1]);
        assert(p[k + 1] != p[0]);
    }
    assert forall|k: int, l: int| 0 <= k < l < q.len() implies q[k] != q[l] by {
        assert(q[k] == p[k + 1] && q[l] == p[l + 1]);
    }
    lemma_opt_is_min(m, 0, full_mask(n), q);
    assert(q.push(0) =~= p.drop_first());
    lemma_walk_bridge(g, p);
}

/// Determinism: two solutions that both came out of solving the same graph
/// (one solver called twice, or two solvers over equal graphs) agree on the
/// optimal cost and on the optimal path.
pub proof fn lemma_solve_deterministic(g: Graph, s1: TSPSolution, s2: TSPSolution)
    requires
        solve_post(g, s1),
        solve_post(g, s2),
    ensures
        s1.optimal_cost == s2.optimal_cost,
        s1.optimal_path@ == s2.optimal_path@,
{
    assert forall|i: int| 0 <= i < s1.optimal_path@.len() implies s1.optimal_path@[i]
        == s2.optimal_path@[i] by {
        assert(path_view(s1.optimal_path@)[i] == path_view(s2.optimal_path@)[i]);
    }
    assert(s1.optimal_path@ =~= s2.optimal_path@);
}

/// The two-node boundary: a solve of `[[0, a], [b, 0]]` returns the tour
/// `0 -> 1 -> 0` with cost `a + b`.
pub proof fn lemma_two_nodes(g: Graph, sol: TSPSolution)
    requires
        g.wf(),
        g.complete(),
        g.size == 2,
        solve_post(g, sol),
    ensures
        sol.optimal_cost == g.dist(0, 1) + g.dist(1, 0),
        path_view(sol.optimal_path@) == seq![0int, 1int, 0int],
{
    let m = g.mat();
    lemma_mat_of_graph(g);
    lemma_full_mask(2);
    lemma2_to64();
    assert(full_mask(2) == 2);
    assert(bit(2, 1));
    lemma_bit_ge(2, 1);
    assert(best(m, 0, 2, 1) is None);
    assert(best(m, 0, 2, 2) == Some((m[0][1] + opt_cost(m, 1, 0), 1int)));
    assert(opt_cost(m, 1, 0) == m[1][0]);
    assert(opt_cost(m, 0, 2) == m[0][1] + m[1][0]);
    assert(rec_tail(m, 1, 0) == seq![0int]);
    assert(tour_of(m) =~= seq![0int, 1int, 0int]);
}

/// Path-cost computation is a pure function of the graph and the path: any
/// two results for the same inputs agree on success, and successful results
/// carry the same cost.
pub proof fn lemma_path_cost_stable(
    g: Graph,
    p: Seq<int>,
    r1: Result<i32, TSPError>,
    r2: Result<i32, TSPError>,
)
    requires
        g.path_cost_post(p, r1),
        g.path_cost_post(p, r2),
    ensures
        r1 is Ok <==> r2 is Ok,
        match (r1, r2) {
            (Ok(c1), Ok(c2)) => c1 == c2,
            _ => true,
        },
{
}

} // verus!
