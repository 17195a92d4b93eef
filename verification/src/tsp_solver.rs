//! The Held-Karp solver: a dense memo over (node, subset) states, filled in
//! three phases (base cases, increasing subset sizes, final combination) and
//! then walked forward to reconstruct the optimal tour.
//!
//! States are enumerated in one canonical order: masks in ascending numeric
//! order within each subset size, candidate hops in ascending node order with
//! a strict improvement test. That order fixes the tie-breaking policy: of
//! two equally good hops the lower-numbered one is recorded.

use vstd::prelude::*;
use vstd::arithmetic::div_mod::lemma_fundamental_div_mod_converse;
use vstd::arithmetic::power2::{lemma2_to64, lemma_pow2_pos, lemma_pow2_strictly_increases, pow2};

use crate::bitmask::{
    bit, bitcount, lemma_bit_ge, lemma_clear_bit, lemma_full_mask, lemma_mask_half,
    lemma_popcnt_zero, mask_bit, popcnt, popcount, two_to,
};
use crate::clock::{duration_nanos, instant_elapsed, instant_now};
use crate::graph::{path_view, Graph};
use crate::recurrence::{
    best, costs_fit, full_mask, hk_next, lemma_best_props, lemma_best_some,
    lemma_clear_keeps_valid, lemma_max_entry, lemma_opt_bounds, lemma_opt_fits, lemma_tour,
    mat_complete, mat_wf, max_entry, opt_cost, rec_tail, tour_of, valid_mask, valid_state,
    walk_cost,
};
use crate::TSPError;

verus! {

/// One memo slot: empty until its state is computed; then the state value
/// and the recorded best next hop (`next < 0` encodes the base case, which
/// returns home directly).
#[derive(Clone, Copy)]
struct MemoSlot {
    filled: bool,
    cost: i32,
    next: i32,
}

/// Instrumentation of one `solve` run.
#[derive(Clone, Copy, Debug)]
pub struct SolverStats {
    /// Memo entries inserted.
    pub states_computed: usize,
    /// Transition lookups that found their sub-state in the memo.
    pub cache_hits: usize,
    /// Transition lookups that found nothing.
    pub cache_misses: usize,
    /// The memo cardinality at the end of the run.
    pub max_memory_states: usize,
    /// Wall-clock duration of the run, in nanoseconds.
    pub solve_duration_nanos: Option<u128>,
}

/// The result of a solve: the minimum tour cost, the tour itself (node 0
/// first and last), the validation verdict, and the run's instrumentation.
#[derive(Debug)]
pub struct TSPSolution {
    pub optimal_cost: i32,
    pub optimal_path: Vec<usize>,
    pub stats: SolverStats,
    pub is_valid: bool,
}

/// The Held-Karp solver, bound to one validated graph. It exclusively owns
/// its memo table, which is reset at the start of every `solve` call.
pub struct TSPSolver {
    graph: Graph,
    memo: Vec<MemoSlot>,
    verbose: bool,
    stats: SolverStats,
}

/// Everything `solve` promises of a returned solution: the cost is the
/// Held-Karp value of the bound graph, the path is the reconstructed tour
/// (both functions of the graph alone, so repeated solves agree), the path
/// is a Hamiltonian tour through node 0 whose recomputed cost equals the
/// reported cost, and the validation verdict is positive.
pub open spec fn solve_post(g: Graph, sol: TSPSolution) -> bool {
    &&& sol.optimal_cost == opt_cost(g.mat(), 0, full_mask(g.n()))
    &&& path_view(sol.optimal_path@) == tour_of(g.mat())
    &&& sol.optimal_path@.len() == g.n() + 1
    &&& sol.optimal_path@[0] == 0
    &&& sol.optimal_path@[g.n()] == 0
    &&& g.spec_tour_ok(path_view(sol.optimal_path@))
    &&& g.spec_path_cost(path_view(sol.optimal_path@), g.n()) == sol.optimal_cost
    &&& sol.is_valid == true
}

/// A well-formed graph of at least two nodes has a well-formed matrix, and a
/// complete one a complete matrix.
pub proof fn lemma_mat_of_graph(g: Graph)
    requires
        g.wf(),
        g.size >= 2,
    ensures
        mat_wf(g.mat()),
        g.mat().len() == g.n(),
        g.complete() ==> mat_complete(g.mat()),
{
    assert forall|i: int| 0 <= i < g.mat().len() implies (#[trigger] g.mat()[i]).len()
        == g.mat().len() by {
        assert(g.mat()[i] == g.adjacency_matrix@[i]@.map(|j: int, v: i32| v as int));
    }
    assert(forall|i: int| 0 <= i < g.mat().len() ==> #[trigger] g.mat()[i][i] == g.dist(i, i));
    if g.complete() {
        assert(forall|i: int, j: int|
            0 <= i < g.mat().len() && 0 <= j < g.mat().len() && i != j ==> #[trigger] g.mat()[i][j]
                == g.dist(i, j));
    }
}

pub proof fn lemma_path_cost_shift(g: Graph, p: Seq<int>, k: int)
    requires
        1 <= k < p.len(),
        p.len() >= 2,
    ensures
        g.spec_path_cost(p, k) == g.dist(p[0], p[1]) + g.spec_path_cost(p.drop_first(), k - 1),
    decreases k,
{
    let q = p.drop_first();
    if k == 1 {
        assert(g.spec_path_cost(p, 0) == 0);
        assert(g.spec_path_cost(q, 0) == 0);
    } else {
        lemma_path_cost_shift(g, p, k - 1);
        assert(q[k - 2] == p[k - 1]);
        assert(q[k - 1] == p[k]);
        assert(g.spec_path_cost(q, k - 1) == g.spec_path_cost(q, k - 2) + g.dist(
            q[k - 2],
            q[k - 1],
        ));
    }
}

/// A path's summed edge costs agree with the recurrence's walk cost.
pub proof fn lemma_walk_bridge(g: Graph, p: Seq<int>)
    requires
        p.len() >= 1,
    ensures
        walk_cost(g.mat(), p[0], p.drop_first()) == g.spec_path_cost(p, p.len() - 1),
    decreases p.len(),
{
    let q = p.drop_first();
    if p.len() == 1 {
        assert(q =~= Seq::<int>::empty());
    } else {
        lemma_walk_bridge(g, q);
        lemma_path_cost_shift(g, p, p.len() - 1);
        assert(q[0] == p[1]);
        assert(walk_cost(g.mat(), p[0], q) == g.mat()[p[0]][q[0]] + walk_cost(
            g.mat(),
            q[0],
            q.drop_first(),
        ));
    }
}

/// The reconstructed tour is a Hamiltonian tour of the graph, every hop of it
/// exists, and its recomputed cost is exactly the final Held-Karp value.
pub proof fn lemma_tour_of_graph(g: Graph)
    requires
        g.wf(),
        g.complete(),
        2 <= g.size,
    ensures
        g.spec_tour_ok(tour_of(g.mat())),
        g.spec_path_ok(tour_of(g.mat())),
        g.spec_path_cost(tour_of(g.mat()), g.n()) == opt_cost(g.mat(), 0, full_mask(g.n())),
{
    let m = g.mat();
    let n = g.n();
    lemma_mat_of_graph(g);
    lemma_tour(m);
    let t = tour_of(m);
    assert(t[0] == 0);
    assert forall|x: int| 0 <= x < n implies #[trigger] t.subrange(0, n).contains(x) by {
        if x == 0 {
            assert(t.subrange(0, n)[0] == 0);
        } else {
            let inner = t.subrange(1, n);
            assert(inner.contains(x));
            let i0 = choose|i0: int| 0 <= i0 < inner.len() && inner[i0] == x;
            assert(t.subrange(0, n)[i0 + 1] == x);
        }
    }
    assert forall|i: int| 0 <= i < n && i + 1 < t.len() implies #[trigger] g.dist(t[i], t[i + 1])
        > 0 by {
        if i == 0 {
            assert(1 <= t[1] < n);
        } else if i == n - 1 {
            assert(1 <= t[i] < n && t[n] == 0);
        } else {
            assert(t[i] != t[i + 1]);
        }
    }
    lemma_walk_bridge(g, t);
    assert(t.drop_first() =~= t.subrange(1, t.len() as int));
}

/// Adds one to a counter, stopping at the top of its range.
fn bump(x: usize) -> (r: usize)
    ensures
        r == if x < usize::MAX {
            x + 1
        } else {
            x as int
        },
{
    if x < usize::MAX {
        x + 1
    } else {
        x
    }
}

proof fn lemma_memo_idx(i: int, m: int, n: int)
    requires
        2 <= n <= 20,
        0 <= i < n,
        valid_mask(m, n),
    ensures
        0 <= m / 2 < pow2((n - 1) as nat),
        0 <= i * pow2((n - 1) as nat) + m / 2 < n * pow2((n - 1) as nat),
        n * pow2((n - 1) as nat) <= 0xa00000,
        pow2((n - 1) as nat) <= 0x80000,
        m == 2 * (m / 2),
{
    lemma_mask_half(m, n);
    lemma2_to64();
    let c = pow2((n - 1) as nat) as int;
    if n - 1 < 19 {
        lemma_pow2_strictly_increases((n - 1) as nat, 19);
    }
    assert(0 <= i * c + m / 2 < n * c && n * c <= 0xa00000) by (nonlinear_arith)
        requires
            0 <= i < n <= 20,
            0 <= m / 2 < c,
            0 < c <= 0x80000,
    ;
}

/// The number of filled slots among the first `k` of the memo.
spec fn filled_count(s: Seq<MemoSlot>, k: int) -> nat
    decreases k,
{
    if k <= 0 {
        0
    } else {
        filled_count(s, k - 1) + if s[k - 1].filled {
            1nat
        } else {
            0nat
        }
    }
}

proof fn lemma_filled_count_le(s: Seq<MemoSlot>, k: int)
    requires
        0 <= k <= s.len(),
    ensures
        filled_count(s, k) <= k,
    decreases k,
{
    if k > 0 {
        lemma_filled_count_le(s, k - 1);
    }
}

proof fn lemma_filled_count_zero(s: Seq<MemoSlot>, k: int)
    requires
        k <= s.len(),
        forall|t: int| 0 <= t < s.len() ==> !(#[trigger] s[t]).filled,
    ensures
        filled_count(s, k) == 0,
    decreases k,
{
    if k > 0 {
        lemma_filled_count_zero(s, k - 1);
    }
}

/// Whether flat memo position `t` encodes a storable state of an `n`-node
/// run: a non-origin node outside the subset held in the position's mask.
spec fn storable(t: int, n: int) -> bool {
    let c = pow2((n - 1) as nat) as int;
    &&& 1 <= t / c < n
    &&& !bit(2 * (t % c), t / c)
}

/// The number of storable positions below `t`.
spec fn storable_count(n: int, t: int) -> nat
    decreases t,
{
    if t <= 0 {
        0
    } else {
        storable_count(n, t - 1) + if storable(t - 1, n) {
            1nat
        } else {
            0nat
        }
    }
}

proof fn lemma_count_matches(s: Seq<MemoSlot>, n: int, k: int)
    requires
        0 <= k <= s.len(),
        forall|t: int| 0 <= t < s.len() ==> ((#[trigger] s[t]).filled <==> storable(t, n)),
    ensures
        filled_count(s, k) == storable_count(n, k),
    decreases k,
{
    if k > 0 {
        lemma_count_matches(s, n, k - 1);
    }
}

/// Within row `i` the storable positions are those whose mask avoids node
/// `i`: all but the ones counted by `bitcount`.
proof fn lemma_storable_row(n: int, i: int, u: int)
    requires
        2 <= n <= 20,
        1 <= i < n,
        0 <= u <= pow2((n - 1) as nat),
    ensures
        storable_count(n, i * pow2((n - 1) as nat) + u) as int == storable_count(
            n,
            i * pow2((n - 1) as nat),
        ) as int + u - bitcount(i - 1, u) as int,
    decreases u,
{
    let c = pow2((n - 1) as nat) as int;
    lemma_pow2_pos((n - 1) as nat);
    if u > 0 {
        lemma_storable_row(n, i, u - 1);
        crate::bitmask::lemma_bitcount_le(i - 1, u - 1);
        let t = i * c + (u - 1);
        lemma_fundamental_div_mod_converse(t, c, i, u - 1);
        crate::bitmask::lemma_bit_shift(2 * (u - 1), i);
        vstd::arithmetic::div_mod::lemma_div_multiples_vanish(u - 1, 2);
        assert(storable(t, n) <==> !bit(u - 1, i - 1));
    }
}

/// Row 0 holds no storable position.
proof fn lemma_storable_row0(n: int, u: int)
    requires
        2 <= n <= 20,
        0 <= u <= pow2((n - 1) as nat),
    ensures
        storable_count(n, u) == 0,
    decreases u,
{
    let c = pow2((n - 1) as nat) as int;
    lemma_pow2_pos((n - 1) as nat);
    if u > 0 {
        lemma_storable_row0(n, u - 1);
        vstd::arithmetic::div_mod::lemma_basic_div(u - 1, c);
    }
}

/// The first `i` rows hold `(i - 1) * 2^(n-2)` storable positions: none in
/// row 0, and in every later row half of the `2^(n-1)` masks avoid its node.
proof fn lemma_storable_prefix(n: int, i: int)
    requires
        2 <= n <= 20,
        1 <= i <= n,
    ensures
        storable_count(n, i * pow2((n - 1) as nat)) == (i - 1) * pow2((n - 2) as nat),
    decreases i,
{
    let c = pow2((n - 1) as nat) as int;
    let half = pow2((n - 2) as nat) as int;
    lemma_pow2_pos((n - 1) as nat);
    lemma_pow2_pos((n - 2) as nat);
    if i == 1 {
        lemma_storable_row0(n, c);
    } else {
        lemma_storable_prefix(n, i - 1);
        lemma_storable_row(n, i - 1, c);
        crate::bitmask::lemma_bitcount_pow2(i - 2, n - 1);
        vstd::arithmetic::power2::lemma_pow2_unfold((n - 1) as nat);
        assert((i - 1) * c + c == i * c) by (nonlinear_arith);
        assert((i - 2) * half + (c - half) == (i - 1) * half) by (nonlinear_arith)
            requires
                c == 2 * half,
        ;
    }
}

/// Filling one empty slot raises the filled count by exactly one.
proof fn lemma_filled_count_update(s1: Seq<MemoSlot>, s2: Seq<MemoSlot>, idx: int, k: int)
    requires
        s1.len() == s2.len(),
        0 <= idx < s1.len(),
        !s1[idx].filled,
        s2[idx].filled,
        forall|t: int| 0 <= t < s1.len() && t != idx ==> s1[t] == s2[t],
        k <= s1.len(),
    ensures
        filled_count(s2, k) == filled_count(s1, k) + if idx < k {
            1int
        } else {
            0int
        },
    decreases k,
{
    if k > 0 {
        lemma_filled_count_update(s1, s2, idx, k - 1);
    }
}

impl TSPSolver {
    /// The graph the solver is bound to.
    pub closed spec fn spec_graph(&self) -> Graph {
        self.graph
    }

    /// The verbose flag; rendering itself belongs to the presentation layer.
    pub closed spec fn spec_verbose(&self) -> bool {
        self.verbose
    }

    /// The current instrumentation counters.
    pub closed spec fn spec_stats(&self) -> SolverStats {
        self.stats
    }

    /// The memo's cardinality: the number of states it holds.
    pub closed spec fn memo_entries(&self) -> nat {
        filled_count(self.memo@, self.memo@.len() as int)
    }

    /// Every filled slot sits at a storable position.
    spec fn flat_ok(&self) -> bool {
        forall|t: int|
            0 <= t < self.memo@.len() && (#[trigger] self.memo@[t]).filled ==> storable(
                t,
                self.graph.n(),
            )
    }

    /// No state over a subset of more than `s` nodes is in the memo yet.
    spec fn filled_only_upto(&self, s: int) -> bool {
        forall|i: int, m: int|
            #[trigger] valid_state(i, m, self.graph.n()) && i >= 1 && self.slot(i, m).filled
                ==> popcnt(m) <= s
    }

    /// The solver invariant established at construction: the bound graph is
    /// well-formed and complete and its size lies within the supported bound.
    pub open spec fn wf(&self) -> bool {
        &&& self.spec_graph().wf()
        &&& self.spec_graph().complete()
        &&& 2 <= self.spec_graph().size <= 20
    }

    spec fn cols(&self) -> int {
        pow2((self.graph.size - 1) as nat) as int
    }

    spec fn slot(&self, i: int, m: int) -> MemoSlot {
        self.memo@[i * self.cols() + m / 2]
    }

    spec fn slot_good(&self, i: int, m: int) -> bool {
        &&& self.slot(i, m).cost == opt_cost(self.graph.mat(), i, m)
        &&& self.slot(i, m).next == if m == 0 {
            -1int
        } else {
            hk_next(self.graph.mat(), i, m)
        }
    }

    spec fn memo_inv(&self) -> bool {
        let n = self.graph.n();
        &&& self.memo@.len() == n * self.cols()
        &&& forall|i: int, m: int|
            #[trigger] valid_state(i, m, n) && i >= 1 && self.slot(i, m).filled
                ==> self.slot_good(i, m)
    }

    /// All states over subsets of at most `s` nodes are in the memo.
    spec fn filled_upto(&self, s: int) -> bool {
        forall|i: int, m: int|
            #[trigger] valid_state(i, m, self.graph.n()) && i >= 1 && popcnt(m) <= s
                ==> self.slot(i, m).filled
    }

    /// Binds a solver to a graph. Fails with the graph's own `InvalidGraph`
    /// if it is not complete, and with `SolverError` if its size lies outside
    /// `2 ..= 20` (the memo grows as `n * 2^(n-1)`: a deliberate ceiling).
    pub fn new(graph: Graph) -> (r: Result<TSPSolver, TSPError>)
        requires
            graph.wf(),
        ensures
            match r {
                Ok(s) => {
                    &&& graph.complete()
                    &&& 2 <= graph.size <= 20
                    &&& s.wf()
                    &&& s.spec_graph() == graph
                    &&& s.spec_verbose() == false
                },
                Err(e) => {
                    &&& !graph.complete() || graph.size < 2 || graph.size > 20
                    &&& !graph.complete() ==> e is InvalidGraph
                    &&& graph.complete() ==> e is SolverError
                },
            },
    {
        match graph.validate_for_tsp() {
            Err(e) => {
                return Err(e);
            },
            Ok(()) => {},
        }

        if graph.size < 2 {
            return Err(TSPError::SolverError("the graph must have at least 2 nodes".to_owned()));
        }

        if graph.size > 20 {
            return Err(TSPError::SolverError(
                "the graph is too large (over 20 nodes) for an exponential state space".to_owned(),
            ));
        }

        Ok(
            TSPSolver {
                graph,
                memo: Vec::new(),
                verbose: false,
                stats: SolverStats {
                    states_computed: 0,
                    cache_hits: 0,
                    cache_misses: 0,
                    max_memory_states: 0,
                    solve_duration_nanos: None,
                },
            },
        )
    }

    /// Sets the verbose flag and hands the solver back.
    pub fn with_verbose(self, verbose: bool) -> (r: TSPSolver)
        ensures
            r.spec_graph() == self.spec_graph(),
            r.wf() == self.wf(),
            r.spec_verbose() == verbose,
    {
        let mut s = self;
        s.verbose = verbose;
        s
    }

    /// The instrumentation of the most recent run.
    pub fn get_stats(&self) -> (r: &SolverStats)
        ensures
            *r == self.spec_stats(),
    {
        &self.stats
    }

    fn memo_read(&self, i: usize, m: usize) -> (r: MemoSlot)
        requires
            self.wf(),
            self.memo_inv(),
            i < self.spec_graph().size,
            valid_mask(m as int, self.spec_graph().n()),
        ensures
            r == self.slot(i as int, m as int),
    {
        let n = self.graph.size;
        proof {
            lemma_memo_idx(i as int, m as int, n as int);
        }
        let cols = two_to(n - 1);
        self.memo[i * cols + m / 2]
    }

    /// Inserts one computed state. The values must be the state's own: the
    /// memo only ever holds correct entries.
    fn memo_write(&mut self, i: usize, m: usize, cost: i32, next: i32)
        requires
            old(self).wf(),
            old(self).memo_inv(),
            1 <= i < old(self).spec_graph().size,
            valid_mask(m as int, old(self).spec_graph().n()),
            !bit(m as int, i as int),
            cost == opt_cost(old(self).spec_graph().mat(), i as int, m as int),
            next == if m == 0 {
                -1int
            } else {
                hk_next(old(self).spec_graph().mat(), i as int, m as int)
            },
            !old(self).slot(i as int, m as int).filled,
            old(self).flat_ok(),
        ensures
            final(self).memo@.len() == old(self).memo@.len(),
            final(self).memo_entries() == old(self).memo_entries() + 1,
            final(self).flat_ok(),
            final(self).spec_graph() == old(self).spec_graph(),
            final(self).spec_verbose() == old(self).spec_verbose(),
            final(self).spec_stats() == old(self).spec_stats(),
            final(self).memo_inv(),
            final(self).slot(i as int, m as int).filled,
            forall|i2: int, m2: int|
                valid_state(i2, m2, old(self).spec_graph().n()) && i2 >= 1 && !(i2 == i as int && m2
                    == m as int) ==> (#[trigger] final(self).slot(i2, m2)) == old(self).slot(
                    i2,
                    m2,
                ),
    {
        let n = self.graph.size;
        proof {
            lemma_memo_idx(i as int, m as int, n as int);
        }
        let cols = two_to(n - 1);
        let idx = i * cols + m / 2;
        self.memo[idx] = MemoSlot { filled: true, cost, next };
        proof {
            lemma_fundamental_div_mod_converse(
                idx as int,
                cols as int,
                i as int,
                (m as int) / 2,
            );
            assert(2 * ((idx as int) % (cols as int)) == m as int);
            assert(storable(idx as int, n as int));
            assert forall|t: int|
                0 <= t < self.memo@.len() && (#[trigger] self.memo@[t]).filled implies storable(
                t,
                self.graph.n(),
            ) by {
                if t != idx {
                    assert(old(self).memo@[t].filled);
                }
            }
            lemma_filled_count_update(
                old(self).memo@,
                self.memo@,
                idx as int,
                self.memo@.len() as int,
            );
            let c = pow2((n - 1) as nat) as int;
            assert forall|i2: int, m2: int|
                valid_state(i2, m2, n as int) && i2 >= 1 && !(i2 == i as int && m2
                    == m as int) implies (#[trigger] self.slot(i2, m2)) == old(self).slot(
                i2,
                m2,
            ) by {
                lemma_memo_idx(i2, m2, n as int);
                if i2 * c + m2 / 2 == idx {
                    lemma_fundamental_div_mod_converse(i2 * c + m2 / 2, c, i2, m2 / 2);
                    lemma_fundamental_div_mod_converse(idx as int, c, i as int, (m as int) / 2);
                }
            }
            assert(self.slot(i as int, m as int) == (MemoSlot { filled: true, cost, next }));
        }
    }

    /// Phase one: the base cases `f(i, {}) = dist(i, 0)` for every non-origin
    /// node, inserted directly.
    fn compute_base_cases(&mut self)
        requires
            old(self).wf(),
            old(self).memo_inv(),
            old(self).filled_only_upto(-1),
            old(self).flat_ok(),
            old(self).spec_stats().states_computed == old(self).memo_entries(),
            old(self).memo@.len() <= 0xa00000,
        ensures
            final(self).flat_ok(),
            final(self).wf(),
            final(self).spec_graph() == old(self).spec_graph(),
            final(self).spec_verbose() == old(self).spec_verbose(),
            final(self).memo_inv(),
            final(self).filled_upto(0),
            final(self).filled_only_upto(0),
            final(self).spec_stats().states_computed == final(self).memo_entries(),
            final(self).memo_entries() == old(self).memo_entries() + old(self).spec_graph().n()
                - 1,
            final(self).memo@.len() == old(self).memo@.len(),
            final(self).spec_stats().cache_hits == old(self).spec_stats().cache_hits,
            final(self).spec_stats().cache_misses == old(self).spec_stats().cache_misses,
            final(self).spec_stats().max_memory_states == old(self).spec_stats().max_memory_states,
            final(self).spec_stats().solve_duration_nanos == old(
                self,
            ).spec_stats().solve_duration_nanos,
    {
        let n = self.graph.size;
        let ghost g = self.graph.mat();
        let mut i: usize = 1;
        while i < n
            invariant
                self.wf(),
                self.spec_graph() == old(self).spec_graph(),
                self.spec_verbose() == old(self).spec_verbose(),
                self.spec_stats().cache_hits == old(self).spec_stats().cache_hits,
                self.spec_stats().cache_misses == old(self).spec_stats().cache_misses,
                self.spec_stats().max_memory_states == old(self).spec_stats().max_memory_states,
                self.spec_stats().solve_duration_nanos == old(
                    self,
                ).spec_stats().solve_duration_nanos,
                g == self.graph.mat(),
                n == self.graph.size,
                self.memo_inv(),
                1 <= i <= n,
                forall|i2: int| 1 <= i2 < i ==> (#[trigger] self.slot(i2, 0)).filled,
                forall|i2: int, m2: int|
                    #[trigger] valid_state(i2, m2, n as int) && i2 >= 1 && self.slot(i2, m2).filled
                        ==> m2 == 0 && i2 < i,
                self.flat_ok(),
                self.spec_stats().states_computed == self.memo_entries(),
                self.memo_entries() == old(self).memo_entries() + i - 1,
                self.memo@.len() == old(self).memo@.len(),
                self.memo@.len() <= 0xa00000,
            decreases n - i,
        {
            let cost = self.graph.get_distance(i, 0);
            proof {
                lemma_pow2_pos(n as nat);
                crate::bitmask::lemma_bit_zero();
                assert(g[i as int] == self.graph.adjacency_matrix@[i as int]@.map(
                    |j: int, v: i32| v as int,
                ));
                assert(opt_cost(g, i as int, 0) == g[i as int][0]);
                assert(valid_state(i as int, 0, n as int));
                assert(!self.slot(i as int, 0).filled);
                lemma_filled_count_le(self.memo@, self.memo@.len() as int);
            }
            self.stats.states_computed = bump(self.stats.states_computed);
            self.memo_write(i, 0, cost, -1);
            proof {
                assert forall|i2: int| 1 <= i2 < i + 1 implies (#[trigger] self.slot(
                    i2,
                    0,
                )).filled by {
                    if i2 < i {
                        assert(valid_state(i2, 0, n as int));
                    }
                }
            }
            i += 1;
        }
        proof {
            assert forall|i2: int, m: int|
                valid_state(i2, m, n as int) && i2 >= 1 && popcnt(m) <= 0 implies (
            #[trigger] self.slot(i2, m)).filled by {
                lemma_popcnt_zero(m);
            }
        }
    }

    /// Computes one state `f(i, S) = min over j in S of dist(i, j) + f(j,
    /// S - {j})`, scanning candidates in ascending order so that the first
    /// minimizer encountered is kept. Every sub-state lookup hits, because
    /// the phases run in increasing subset size.
    fn compute_dp_state(&mut self, i: usize, m: usize) -> (r: (i32, i32))
        requires
            old(self).wf(),
            old(self).memo_inv(),
            costs_fit(old(self).spec_graph().mat()),
            i < old(self).spec_graph().size,
            valid_mask(m as int, old(self).spec_graph().n()),
            !bit(m as int, i as int),
            m > 0,
            old(self).filled_upto(popcnt(m as int) - 1),
        ensures
            final(self).spec_graph() == old(self).spec_graph(),
            final(self).spec_verbose() == old(self).spec_verbose(),
            final(self).memo@ == old(self).memo@,
            final(self).spec_stats().states_computed == old(self).spec_stats().states_computed,
            final(self).spec_stats().cache_misses == old(self).spec_stats().cache_misses,
            final(self).spec_stats().max_memory_states == old(self).spec_stats().max_memory_states,
            final(self).spec_stats().solve_duration_nanos == old(
                self,
            ).spec_stats().solve_duration_nanos,
            r.0 == opt_cost(old(self).spec_graph().mat(), i as int, m as int),
            r.1 == hk_next(old(self).spec_graph().mat(), i as int, m as int),
            0 < r.0 < i32::MAX,
            1 <= r.1 < old(self).spec_graph().size,
    {
        let n = self.graph.size;
        let ghost g = self.graph.mat();
        proof {
            lemma_mat_of_graph(self.graph);
        }
        let mut min_cost: i32 = i32::MAX;
        let mut best_next: i32 = -1;
        proof {
            assert(best(g, i as int, m as int, 1) is None);
        }
        let mut j: usize = 1;
        while j < n
            invariant
                self.wf(),
                self.spec_graph() == old(self).spec_graph(),
                self.spec_verbose() == old(self).spec_verbose(),
                self.spec_stats().states_computed == old(self).spec_stats().states_computed,
                self.spec_stats().cache_misses == old(self).spec_stats().cache_misses,
                self.spec_stats().max_memory_states == old(self).spec_stats().max_memory_states,
                self.spec_stats().solve_duration_nanos == old(
                    self,
                ).spec_stats().solve_duration_nanos,
                self.memo@ == old(self).memo@,
                self.memo_inv(),
                self.filled_upto(popcnt(m as int) - 1),
                costs_fit(g),
                mat_wf(g),
                mat_complete(g),
                g == self.graph.mat(),
                n == self.graph.size,
                i < n,
                valid_mask(m as int, n as int),
                !bit(m as int, i as int),
                m > 0,
                1 <= j <= n,
                match best(g, i as int, m as int, j as int) {
                    None => min_cost == i32::MAX && best_next == -1,
                    Some(cn) => {
                        &&& min_cost == cn.0
                        &&& best_next == cn.1
                        &&& 0 < cn.0 < i32::MAX
                        &&& 1 <= cn.1 < j
                    },
                },
            decreases n - j,
        {
            proof {
                lemma2_to64();
                if (j as int) < 20 {
                    lemma_pow2_strictly_increases(j as nat, 20);
                }
            }
            if mask_bit(m, j) {
                proof {
                    lemma_bit_ge(m as int, j as int);
                    lemma_clear_bit(m as int, j as int);
                    lemma_clear_keeps_valid(m as int, n as int, j as int);
                }
                let pw = two_to(j);
                let m2 = m - pw;
                let slot = self.memo_read(j, m2);
                proof {
                    assert(valid_state(j as int, m2 as int, n as int));
                    assert(popcnt(m2 as int) == popcnt(m as int) - 1);
                    assert(slot.filled);
                }
                self.stats.cache_hits = bump(self.stats.cache_hits);
                let prev_cost = slot.cost;
                proof {
                    assert(prev_cost == opt_cost(g, j as int, m2 as int));
                    lemma_opt_bounds(g, j as int, m2 as int);
                    lemma_opt_fits(g, j as int, m2 as int);
                    lemma_max_entry(g, i as int, j as int);
                    crate::bitmask::lemma_popcnt_bound(m as int, n as int);
                    let p = popcnt(m as int) as int;
                    assert(g[i as int][j as int] + prev_cost <= (p + 1) * max_entry(g)
                        <= (n as int) * max_entry(g)) by (nonlinear_arith)
                        requires
                            g[i as int][j as int] <= max_entry(g),
                            max_entry(g) >= 0,
                            prev_cost <= p * max_entry(g),
                            0 <= p + 1 <= n as int,
                    ;
                    assert(g[i as int] == self.graph.adjacency_matrix@[i as int]@.map(
                        |jj: int, v: i32| v as int,
                    ));
                }
                let total = self.graph.get_distance(i, j) + prev_cost;
                proof {
                    assert(total == g[i as int][j as int] + opt_cost(g, j as int, m2 as int));
                    assert(total < i32::MAX);
                    assert(total > 0);
                }
                if total < min_cost {
                    min_cost = total;
                    best_next = j as i32;
                }
                proof {
                    assert(best(g, i as int, m as int, j as int + 1) matches Some(cn) && min_cost
                        == cn.0 && best_next == cn.1);
                }
            } else {
                proof {
                    assert(best(g, i as int, m as int, j as int + 1) == best(
                        g,
                        i as int,
                        m as int,
                        j as int,
                    ));
                }
            }
            j += 1;
        }
        proof {
            lemma_best_some(g, i as int, m as int);
            assert(opt_cost(g, i as int, m as int) == best(
                g,
                i as int,
                m as int,
                n as int,
            ).unwrap().0);
        }
        (min_cost, best_next)
    }

    /// Phase two, one round: computes every state whose subset has exactly
    /// `s` members, enumerating the masks in ascending numeric order.
    fn compute_subset_size(&mut self, s: usize)
        requires
            old(self).wf(),
            old(self).memo_inv(),
            costs_fit(old(self).spec_graph().mat()),
            1 <= s <= old(self).spec_graph().size - 2,
            old(self).filled_upto(s as int - 1),
            old(self).filled_only_upto(s as int - 1),
            old(self).flat_ok(),
            old(self).spec_stats().states_computed == old(self).memo_entries(),
            old(self).memo@.len() <= 0xa00000,
        ensures
            final(self).filled_only_upto(s as int),
            final(self).flat_ok(),
            final(self).spec_stats().states_computed == final(self).memo_entries(),
            final(self).memo@.len() == old(self).memo@.len(),
            final(self).wf(),
            final(self).spec_graph() == old(self).spec_graph(),
            final(self).spec_verbose() == old(self).spec_verbose(),
            final(self).memo_inv(),
            final(self).filled_upto(s as int),
            final(self).spec_stats().cache_misses == old(self).spec_stats().cache_misses,
            final(self).spec_stats().max_memory_states == old(self).spec_stats().max_memory_states,
            final(self).spec_stats().solve_duration_nanos == old(
                self,
            ).spec_stats().solve_duration_nanos,
    {
        let n = self.graph.size;
        let ghost g = self.graph.mat();
        proof {
            lemma2_to64();
            if (n as int) < 20 {
                lemma_pow2_strictly_increases(n as nat, 20);
            }
        }
        let total = two_to(n);
        let mut m: usize = 0;
        while m < total
            invariant
                self.wf(),
                self.spec_graph() == old(self).spec_graph(),
                self.spec_verbose() == old(self).spec_verbose(),
                self.spec_stats().cache_misses == old(self).spec_stats().cache_misses,
                self.spec_stats().max_memory_states == old(self).spec_stats().max_memory_states,
                self.spec_stats().solve_duration_nanos == old(
                    self,
                ).spec_stats().solve_duration_nanos,
                self.memo_inv(),
                costs_fit(g),
                g == self.graph.mat(),
                n == self.graph.size,
                total == pow2(n as nat),
                1 <= s <= n - 2,
                m <= total,
                forall|i2: int, m2: int|
                    valid_state(i2, m2, n as int) && i2 >= 1 && (popcnt(m2) < s || (popcnt(m2)
                        == s && m2 < m)) ==> (#[trigger] self.slot(i2, m2)).filled,
                forall|i2: int, m2: int|
                    #[trigger] valid_state(i2, m2, n as int) && i2 >= 1 && self.slot(i2, m2).filled
                        ==> popcnt(m2) < s || (popcnt(m2) == s && m2 < m),
                self.flat_ok(),
                self.spec_stats().states_computed == self.memo_entries(),
                self.memo@.len() == old(self).memo@.len(),
                self.memo@.len() <= 0xa00000,
            decreases total - m,
        {
            if m % 2 == 0 && popcount(m) == s {
                let mut i: usize = 1;
                while i < n
                    invariant
                        self.wf(),
                        self.spec_graph() == old(self).spec_graph(),
                        self.spec_verbose() == old(self).spec_verbose(),
                        self.spec_stats().cache_misses == old(self).spec_stats().cache_misses,
                        self.spec_stats().max_memory_states == old(
                            self,
                        ).spec_stats().max_memory_states,
                        self.spec_stats().solve_duration_nanos == old(
                            self,
                        ).spec_stats().solve_duration_nanos,
                        self.memo_inv(),
                        costs_fit(g),
                        g == self.graph.mat(),
                        n == self.graph.size,
                        total == pow2(n as nat),
                        1 <= s <= n - 2,
                        m < total,
                        m % 2 == 0,
                        popcnt(m as int) == s,
                        1 <= i <= n,
                        forall|i2: int, m2: int|
                            valid_state(i2, m2, n as int) && i2 >= 1 && (popcnt(m2) < s || (popcnt(
                                m2,
                            ) == s && m2 < m)) ==> (#[trigger] self.slot(i2, m2)).filled,
                        forall|i2: int|
                            #[trigger] valid_state(i2, m as int, n as int) && 1 <= i2 < i
                                ==> self.slot(i2, m as int).filled,
                        forall|i2: int, m2: int|
                            #[trigger] valid_state(i2, m2, n as int) && i2 >= 1 && self.slot(
                                i2,
                                m2,
                            ).filled ==> popcnt(m2) < s || (popcnt(m2) == s && m2 < m) || (m2
                                == m && i2 < i),
                        self.flat_ok(),
                        self.spec_stats().states_computed == self.memo_entries(),
                        self.memo@.len() == old(self).memo@.len(),
                        self.memo@.len() <= 0xa00000,
                    decreases n - i,
                {
                    proof {
                        lemma2_to64();
                        if (i as int) < 20 {
                            lemma_pow2_strictly_increases(i as nat, 20);
                        }
                    }
                    if !mask_bit(m, i) {
                        let (c, nx) = self.compute_dp_state(i, m);
                        proof {
                            assert(valid_state(i as int, m as int, n as int));
                            assert(!self.slot(i as int, m as int).filled);
                            lemma_filled_count_le(self.memo@, self.memo@.len() as int);
                        }
                        self.stats.states_computed = bump(self.stats.states_computed);
                        self.memo_write(i, m, c, nx);
                    }
                    i += 1;
                }
            }
            proof {
                assert forall|i2: int, m2: int|
                    valid_state(i2, m2, n as int) && i2 >= 1 && (popcnt(m2) < s || (popcnt(m2)
                        == s && m2 < m + 1)) implies (#[trigger] self.slot(i2, m2)).filled by {
                    if popcnt(m2) == s && m2 == m {
                        assert(m2 % 2 == 0);
                    }
                }
            }
            m += 1;
        }
    }

    /// Final phase: combines the full-subset states into `f(0, {1..n-1})`,
    /// the minimum tour cost, and the first hop that attains it. The failure
    /// branch is defensive: for a validated complete graph it cannot trigger.
    fn compute_final_result(&mut self) -> (r: Result<(i32, usize), TSPError>)
        requires
            old(self).wf(),
            old(self).memo_inv(),
            costs_fit(old(self).spec_graph().mat()),
            old(self).filled_upto(old(self).spec_graph().n() - 2),
        ensures
            final(self).wf(),
            final(self).spec_graph() == old(self).spec_graph(),
            final(self).spec_verbose() == old(self).spec_verbose(),
            final(self).memo@ == old(self).memo@,
            final(self).memo_inv(),
            final(self).filled_upto(final(self).spec_graph().n() - 2),
            final(self).spec_stats().states_computed == old(self).spec_stats().states_computed,
            final(self).spec_stats().cache_misses == old(self).spec_stats().cache_misses,
            final(self).spec_stats().max_memory_states == old(self).spec_stats().max_memory_states,
            final(self).spec_stats().solve_duration_nanos == old(
                self,
            ).spec_stats().solve_duration_nanos,
            match r {
                Ok((c, k)) => {
                    &&& c == opt_cost(old(self).spec_graph().mat(), 0, full_mask(
                        old(self).spec_graph().n(),
                    ))
                    &&& k == hk_next(old(self).spec_graph().mat(), 0, full_mask(
                        old(self).spec_graph().n(),
                    ))
                    &&& 1 <= k < old(self).spec_graph().size
                    &&& 0 < c < i32::MAX
                },
                Err(_) => false,
            },
    {
        let n = self.graph.size;
        let ghost g = self.graph.mat();
        proof {
            lemma2_to64();
            if (n as int) < 20 {
                lemma_pow2_strictly_increases(n as nat, 20);
            }
            lemma_full_mask(n as int);
        }
        let full = two_to(n) - 2;
        proof {
            assert(popcnt(full as int) == n - 1);
            assert(!bit(full as int, 0));
        }
        let (min_cost, first_next) = self.compute_dp_state(0, full);

        if first_next < 0 {
            // Defensive: unreachable for a validated complete graph.
            return Err(TSPError::SolverError("no optimal solution could be found".to_owned()));
        }

        Ok((min_cost, first_next as usize))
    }

    /// Walks the memo forward from the final phase's first hop, appending the
    /// recorded next hop and shrinking the remaining subset until it is
    /// empty, then closes the tour at node 0. The failure branches are
    /// defensive: the phase ordering guarantees every lookup hits.
    fn reconstruct_path(&self, start: usize) -> (r: Result<Vec<usize>, TSPError>)
        requires
            self.wf(),
            self.memo_inv(),
            costs_fit(self.spec_graph().mat()),
            self.filled_upto(self.spec_graph().n() - 2),
            start as int == hk_next(self.spec_graph().mat(), 0, full_mask(self.spec_graph().n())),
            best(
                self.spec_graph().mat(),
                0,
                full_mask(self.spec_graph().n()),
                self.spec_graph().n(),
            ) is Some,
        ensures
            match r {
                Ok(path) => path_view(path@) == tour_of(self.spec_graph().mat()) && path@.len()
                    == self.spec_graph().n() + 1,
                Err(_) => false,
            },
    {
        let n = self.graph.size;
        let ghost g = self.graph.mat();
        proof {
            lemma_mat_of_graph(self.graph);
            lemma_tour(g);
            lemma2_to64();
            if (n as int) < 20 {
                lemma_pow2_strictly_increases(n as nat, 20);
            }
            lemma_full_mask(n as int);
        }
        let full = two_to(n) - 2;
        proof {
            lemma_best_props(g, 0, full as int, n as int);
            lemma_bit_ge(full as int, start as int);
            lemma_clear_bit(full as int, start as int);
            lemma_clear_keeps_valid(full as int, n as int, start as int);
            if (start as int) < 20 {
                lemma_pow2_strictly_increases(start as nat, 20);
            }
        }
        let mut path: Vec<usize> = Vec::new();
        path.push(0);
        path.push(start);
        let mut current: usize = start;
        let mut remaining: usize = full - two_to(start);
        proof {
            assert(tour_of(g) == seq![0int, start as int] + rec_tail(
                g,
                start as int,
                remaining as int,
            ));
            assert(path_view(path@) =~= seq![0int, start as int]);
        }
        while remaining > 0
            invariant
                self.wf(),
                self.memo_inv(),
                self.filled_upto(n as int - 2),
                g == self.graph.mat(),
                n == self.graph.size,
                mat_wf(g),
                mat_complete(g),
                valid_mask(remaining as int, n as int),
                popcnt(remaining as int) <= n - 2,
                1 <= current < n,
                !bit(remaining as int, current as int),
                tour_of(g) == path_view(path@) + rec_tail(g, current as int, remaining as int),
                path@.len() == n - popcnt(remaining as int),
            decreases remaining,
        {
            proof {
                assert(valid_state(current as int, remaining as int, n as int));
                lemma_best_some(g, current as int, remaining as int);
                lemma_best_props(g, current as int, remaining as int, n as int);
            }
            let slot = self.memo_read(current, remaining);
            if !slot.filled {
                // Defensive: unreachable, every needed state was computed.
                return Err(TSPError::SolverError("failed to reconstruct the path".to_owned()));
            }
            if slot.next < 0 {
                // Defensive: unreachable, non-empty subsets record a hop.
                return Err(TSPError::SolverError("failed to reconstruct the path".to_owned()));
            }
            let nx = slot.next as usize;
            proof {
                assert(nx as int == hk_next(g, current as int, remaining as int));
                assert(bit(remaining as int, nx as int));
                lemma_bit_ge(remaining as int, nx as int);
                lemma_clear_bit(remaining as int, nx as int);
                lemma_clear_keeps_valid(remaining as int, n as int, nx as int);
                if (nx as int) < 20 {
                    lemma_pow2_strictly_increases(nx as nat, 20);
                }
                lemma2_to64();
                assert(rec_tail(g, current as int, remaining as int) == seq![nx as int] + rec_tail(
                    g,
                    nx as int,
                    remaining as int - pow2(nx as nat),
                ));
            }
            let ghost old_path = path@;
            path.push(nx);
            proof {
                assert(path_view(path@) =~= path_view(old_path).push(nx as int));
                assert(path_view(path@) + rec_tail(
                    g,
                    nx as int,
                    remaining as int - pow2(nx as nat),
                ) =~= (path_view(old_path) + rec_tail(g, current as int, remaining as int)));
            }
            remaining = remaining - two_to(nx);
            current = nx;
        }
        let ghost old_path = path@;
        path.push(0);
        proof {
            assert(rec_tail(g, current as int, 0) == seq![0int]);
            assert(path_view(path@) =~= path_view(old_path).push(0));
            assert(path_view(path@) =~= tour_of(g));
            assert(path@.len() == n + 1);
        }
        Ok(path)
    }

    /// The post-solve double check: the tour must have the right shape and
    /// its independently recomputed cost must equal the cost the dynamic
    /// program reported.
    fn validate_solution(&self, path: &Vec<usize>, expected_cost: i32) -> (r: Result<
        bool,
        TSPError,
    >)
        requires
            self.wf(),
            forall|k: int|
                0 <= k < path@.len() && self.spec_graph().spec_prefix_ok(path_view(path@), k)
                    ==> self.spec_graph().spec_path_cost(path_view(path@), k) <= i32::MAX,
        ensures
            match r {
                Ok(b) => {
                    &&& (!self.spec_graph().spec_tour_ok(path_view(path@)) ==> b == false)
                    &&& (self.spec_graph().spec_tour_ok(path_view(path@))
                        ==> self.spec_graph().spec_path_ok(path_view(path@)) && (b
                        <==> self.spec_graph().spec_path_cost(path_view(path@), path@.len() - 1)
                        == expected_cost))
                },
                Err(e) => self.spec_graph().spec_tour_ok(path_view(path@))
                    && !self.spec_graph().spec_path_ok(path_view(path@)) && e is InvalidPath,
            },
    {
        if !self.graph.is_valid_tour(path.as_slice()) {
            return Ok(false);
        }

        match self.graph.calculate_path_cost(path.as_slice()) {
            Ok(actual) => Ok(actual == expected_cost),
            Err(e) => Err(e),
        }
    }

    /// Runs the Held-Karp dynamic program on the bound graph and returns the
    /// validated optimal tour. Deterministic: the cost and the path are
    /// functions of the graph alone, so repeated calls agree. All internal
    /// state is reset on entry, so sequential repeated calls are independent.
    ///
    /// The caller keeps the weights within the machine bound `costs_fit`
    /// (every walk of at most `size` edges costs less than `i32::MAX`);
    /// beyond it the running sums of the dynamic program would not fit an `i32`.
    pub fn solve(&mut self) -> (r: Result<TSPSolution, TSPError>)
        requires
            old(self).wf(),
            costs_fit(old(self).spec_graph().mat()),
        ensures
            final(self).wf(),
            final(self).spec_graph() == old(self).spec_graph(),
            final(self).spec_verbose() == old(self).spec_verbose(),
            match r {
                Ok(sol) => {
                    &&& solve_post(old(self).spec_graph(), sol)
                    &&& sol.stats == final(self).spec_stats()
                    &&& sol.stats.states_computed == final(self).memo_entries()
                    &&& sol.stats.states_computed == (old(self).spec_graph().n() - 1) * pow2(
                        (old(self).spec_graph().size - 2) as nat,
                    )
                    &&& sol.stats.cache_misses == 0
                    &&& sol.stats.max_memory_states == sol.stats.states_computed
                    &&& sol.stats.solve_duration_nanos is Some
                },
                Err(_) => false,
            },
    {
        let start_time = instant_now();
        self.stats = SolverStats {
            states_computed: 0,
            cache_hits: 0,
            cache_misses: 0,
            max_memory_states: 0,
            solve_duration_nanos: None,
        };

        let n = self.graph.size;
        let ghost gg = self.graph;
        let ghost g = self.graph.mat();
        proof {
            lemma_mat_of_graph(self.graph);
            lemma2_to64();
            if (n as int) - 1 < 19 {
                lemma_pow2_strictly_increases((n - 1) as nat, 19);
            }
            lemma_pow2_pos((n - 1) as nat);
            assert((n as int) * pow2((n - 1) as nat) <= 0xa00000) by (nonlinear_arith)
                requires
                    2 <= n as int <= 20,
                    0 < pow2((n - 1) as nat) <= 0x80000,
            ;
        }
        let cols = two_to(n - 1);
        let total = n * cols;
        let mut memo: Vec<MemoSlot> = Vec::new();
        while memo.len() < total
            invariant
                memo@.len() <= total,
                forall|k: int| 0 <= k < memo@.len() ==> !(#[trigger] memo@[k]).filled,
            decreases total - memo@.len(),
        {
            memo.push(MemoSlot { filled: false, cost: 0, next: -1 });
        }
        self.memo = memo;
        proof {
            assert forall|i2: int, m2: int|
                #[trigger] valid_state(i2, m2, n as int) && i2 >= 1 && self.slot(i2, m2).filled
                    implies self.slot_good(i2, m2) by {
                lemma_memo_idx(i2, m2, n as int);
            }
            assert(self.memo_inv());
            assert forall|i2: int, m2: int|
                #[trigger] valid_state(i2, m2, n as int) && i2 >= 1 && self.slot(i2, m2).filled
                    implies popcnt(m2) <= -1 by {
                lemma_memo_idx(i2, m2, n as int);
            }
            assert(self.filled_only_upto(-1));
            lemma_filled_count_zero(self.memo@, self.memo@.len() as int);
            assert(self.spec_stats().states_computed == self.memo_entries());
            assert(self.flat_ok());
        }

        self.compute_base_cases();

        let mut s: usize = 1;
        while s < n - 1
            invariant
                self.wf(),
                self.spec_graph() == gg,
                self.spec_verbose() == old(self).spec_verbose(),
                g == self.graph.mat(),
                n == self.graph.size,
                costs_fit(g),
                self.memo_inv(),
                1 <= s <= n - 1,
                self.filled_upto(s as int - 1),
                self.filled_only_upto(s as int - 1),
                self.flat_ok(),
                self.spec_stats().states_computed == self.memo_entries(),
                self.memo@.len() <= 0xa00000,
                self.spec_stats().cache_misses == 0,
                self.spec_stats().solve_duration_nanos is None,
            decreases n - 1 - s,
        {
            self.compute_subset_size(s);
            s += 1;
        }

        let (optimal_cost, first_next) = match self.compute_final_result() {
            Ok(v) => v,
            Err(e) => {
                return Err(e);
            },
        };

        proof {
            assert(self.spec_stats().states_computed == self.memo_entries());
            let c = pow2((n - 1) as nat) as int;
            lemma_pow2_pos((n - 1) as nat);
            lemma_full_mask(n as int);
            assert forall|t: int|
                0 <= t < self.memo@.len() implies ((#[trigger] self.memo@[t]).filled <==> storable(
                t,
                n as int,
            )) by {
                if storable(t, n as int) {
                    let i2 = t / c;
                    let m2 = 2 * (t % c);
                    vstd::arithmetic::power2::lemma_pow2_unfold(n as nat);
                    assert(valid_mask(m2, n as int));
                    crate::bitmask::lemma_popcnt_double(t % c);
                    crate::bitmask::lemma_popcnt_bound(t % c, n as int - 1);
                    if popcnt(m2) > n - 2 {
                        crate::bitmask::lemma_ones_of_popcnt(t % c, n as int - 1);
                        assert(m2 == full_mask(n as int));
                        assert(bit(m2, i2));
                    }
                    assert(valid_state(i2, m2, n as int));
                    assert(self.slot(i2, m2).filled);
                    lemma_memo_idx(i2, m2, n as int);
                    vstd::arithmetic::div_mod::lemma_fundamental_div_mod(t, c);
                    assert(i2 * c + m2 / 2 == t);
                }
            }
            lemma_count_matches(self.memo@, n as int, self.memo@.len() as int);
            lemma_storable_prefix(n as int, n as int);
            assert(self.memo_entries() == (n as int - 1) * pow2((n - 2) as nat));
            lemma_best_some(g, 0, full_mask(n as int));
        }
        let optimal_path = match self.reconstruct_path(first_next) {
            Ok(p) => p,
            Err(e) => {
                return Err(e);
            },
        };

        proof {
            lemma_tour_of_graph(gg);
            let t = tour_of(g);
            assert forall|k: int|
                0 <= k < optimal_path@.len() && gg.spec_prefix_ok(path_view(optimal_path@), k)
                    implies gg.spec_path_cost(path_view(optimal_path@), k) <= i32::MAX by {
                lemma_full_mask(gg.n());
                gg.lemma_path_cost_mono(t, k, gg.n());
                lemma_opt_fits(g, 0, full_mask(gg.n()));
            }
        }
        let is_valid = match self.validate_solution(&optimal_path, optimal_cost) {
            Ok(b) => b,
            Err(e) => {
                proof {
                    assert(false);
                }
                return Err(e);
            },
        };
        proof {
            assert(is_valid == true);
        }

        let elapsed = instant_elapsed(&start_time);
        self.stats.solve_duration_nanos = Some(duration_nanos(&elapsed));
        self.stats.max_memory_states = self.stats.states_computed;
        proof {
            assert(self.spec_stats().states_computed == self.memo_entries());
        }

        Ok(TSPSolution { optimal_cost, optimal_path, stats: self.stats, is_valid })
    }
}

} // verus!
