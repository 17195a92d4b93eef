//! A complete weighted directed graph held as an adjacency matrix, with
//! construction-time validation and simple path and tour utilities.

use vstd::prelude::*;
use vstd::string::*;

use crate::text::{default_label, make_default_names};
use crate::TSPError;

verus! {

/// An n-node weighted directed graph. Constructed once and immutable
/// thereafter; `adjacency_matrix[i][j]` for `i != j` is the directed cost
/// from `i` to `j`, and the diagonal is zero.
#[derive(Clone, Debug)]
pub struct Graph {
    pub nodes: Vec<usize>,
    pub adjacency_matrix: Vec<Vec<i32>>,
    pub size: usize,
    pub node_names: Vec<String>,
}

impl Graph {
    /// The number of nodes, as a mathematical integer.
    pub open spec fn n(&self) -> int {
        self.size as int
    }

    /// The adjacency matrix as a mathematical matrix.
    pub open spec fn mat(&self) -> Seq<Seq<int>> {
        self.adjacency_matrix@.map(|i: int, row: Vec<i32>| row@.map(|j: int, v: i32| v as int))
    }

    /// The directed cost from `i` to `j`.
    pub open spec fn dist(&self, i: int, j: int) -> int {
        self.mat()[i][j]
    }

    /// The construction invariant: the matrix is square of side `size` with a
    /// zero diagonal, and the node list and the labels both have length
    /// `size`.
    pub open spec fn wf(&self) -> bool {
        &&& self.adjacency_matrix@.len() == self.size
        &&& forall|i: int|
            0 <= i < self.n() ==> (#[trigger] self.adjacency_matrix@[i])@.len() == self.size
        &&& forall|i: int| 0 <= i < self.n() ==> #[trigger] self.dist(i, i) == 0
        &&& self.node_names@.len() == self.size
        &&& self.nodes@.len() == self.size
        &&& forall|i: int| 0 <= i < self.n() ==> #[trigger] self.nodes@[i] == i
    }

    /// The stronger invariant required before solving: every off-diagonal
    /// entry is strictly positive, so an edge exists in every direction.
    pub open spec fn complete(&self) -> bool {
        forall|i: int, j: int|
            0 <= i < self.n() && 0 <= j < self.n() && i != j ==> #[trigger] self.dist(i, j) > 0
    }

    /// What `new` accepts: a non-empty square matrix with a zero diagonal.
    pub open spec fn matrix_ok(m: Seq<Vec<i32>>) -> bool {
        &&& m.len() > 0
        &&& forall|i: int| 0 <= i < m.len() ==> (#[trigger] m[i])@.len() == m.len()
        &&& forall|i: int| 0 <= i < m.len() ==> (#[trigger] m[i])@[i] == 0
    }

    /// Builds a graph from an adjacency matrix, rejecting an empty or
    /// non-square matrix and a non-zero diagonal. Node names default to
    /// synthesized labels.
    pub fn new(adjacency_matrix: Vec<Vec<i32>>) -> (r: Result<Graph, TSPError>)
        ensures
            match r {
                Ok(g) => {
                    &&& Self::matrix_ok(adjacency_matrix@)
                    &&& g.wf()
                    &&& g.size == adjacency_matrix@.len()
                    &&& g.adjacency_matrix@ == adjacency_matrix@
                    &&& forall|k: int|
                        0 <= k < g.n() ==> #[trigger] g.node_names@[k]@ == default_label(k)
                },
                Err(e) => !Self::matrix_ok(adjacency_matrix@) && e is InvalidGraph,
            },
    {
        let size = adjacency_matrix.len();

        if size == 0 {
            return Err(TSPError::InvalidGraph("matrix must not be empty".to_owned()));
        }

        let mut i: usize = 0;
        while i < size
            invariant
                i <= size,
                size == adjacency_matrix@.len(),
                forall|k: int|
                    0 <= k < i ==> (#[trigger] adjacency_matrix@[k])@.len() == size,
            decreases size - i,
        {
            if adjacency_matrix[i].len() != size {
                return Err(TSPError::InvalidGraph("matrix must be square".to_owned()));
            }
            i += 1;
        }

        let mut i: usize = 0;
        while i < size
            invariant
                i <= size,
                size == adjacency_matrix@.len(),
                forall|k: int| 0 <= k < size ==> (#[trigger] adjacency_matrix@[k])@.len() == size,
                forall|k: int| 0 <= k < i ==> (#[trigger] adjacency_matrix@[k])@[k] == 0,
            decreases size - i,
        {
            if adjacency_matrix[i][i] != 0 {
                return Err(TSPError::InvalidGraph(
                    "the distance from a node to itself must be 0".to_owned(),
                ));
            }
            i += 1;
        }

        let mut nodes: Vec<usize> = Vec::new();
        let mut i: usize = 0;
        while i < size
            invariant
                i <= size,
                nodes@.len() == i,
                forall|k: int| 0 <= k < i ==> #[trigger] nodes@[k] == k,
            decreases size - i,
        {
            nodes.push(i);
            i += 1;
        }

        let node_names = make_default_names(size);

        let g = Graph { nodes, adjacency_matrix, size, node_names };
        proof {
            assert forall|i: int| 0 <= i < g.n() implies #[trigger] g.dist(i, i) == 0 by {
                assert(g.mat()[i] == g.adjacency_matrix@[i]@.map(|j: int, v: i32| v as int));
            }
        }
        Ok(g)
    }

    /// Builds a graph and attaches caller-supplied node names, which must be
    /// exactly one per node.
    pub fn with_node_names(adjacency_matrix: Vec<Vec<i32>>, names: Vec<String>) -> (r: Result<
        Graph,
        TSPError,
    >)
        ensures
            match r {
                Ok(g) => {
                    &&& Self::matrix_ok(adjacency_matrix@)
                    &&& names@.len() == adjacency_matrix@.len()
                    &&& g.wf()
                    &&& g.size == adjacency_matrix@.len()
                    &&& g.adjacency_matrix@ == adjacency_matrix@
                    &&& g.node_names@ == names@
                },
                Err(e) => (!Self::matrix_ok(adjacency_matrix@) || names@.len()
                    != adjacency_matrix@.len()) && e is InvalidGraph,
            },
    {
        let mut graph = match Self::new(adjacency_matrix) {
            Ok(g) => g,
            Err(e) => {
                return Err(e);
            },
        };

        if names.len() != graph.size {
            return Err(TSPError::InvalidGraph(
                "the number of names does not match the graph size".to_owned(),
            ));
        }

        graph.node_names = names;
        Ok(graph)
    }

    /// The distance between two nodes. Callers must present in-range indices;
    /// an out-of-range index is a programming-contract fault, not a
    /// recoverable error.
    pub fn get_distance(&self, from: usize, to: usize) -> (r: i32)
        requires
            self.wf(),
            from < self.size,
            to < self.size,
        ensures
            r == self.dist(from as int, to as int),
    {
        proof {
            assert(self.mat()[from as int] == self.adjacency_matrix@[from as int]@.map(
                |j: int, v: i32| v as int,
            ));
        }
        self.adjacency_matrix[from][to]
    }

    /// The message with which `validate_for_tsp` names a missing edge.
    pub open spec fn missing_edge_message(&self, i: int, j: int) -> Seq<char> {
        "no path from "@ + self.node_names@[i]@ + " to "@ + self.node_names@[j]@
    }

    /// Checks the completeness invariant needed by the solver: fails with
    /// `InvalidGraph`, naming the offending node pair, if some off-diagonal
    /// entry is not strictly positive.
    pub fn validate_for_tsp(&self) -> (r: Result<(), TSPError>)
        requires
            self.wf(),
        ensures
            r is Ok <==> self.complete(),
            r matches Err(e) ==> (e matches TSPError::InvalidGraph(msg) && exists|i: int, j: int|
                0 <= i < self.n() && 0 <= j < self.n() && i != j && #[trigger] self.dist(i, j) <= 0
                    && msg@ == self.missing_edge_message(i, j)),
    {
        let mut i: usize = 0;
        while i < self.size
            invariant
                self.wf(),
                i <= self.size,
                forall|a: int, b: int|
                    0 <= a < i && 0 <= b < self.n() && a != b ==> #[trigger] self.dist(a, b) > 0,
            decreases self.size - i,
        {
            let mut j: usize = 0;
            while j < self.size
                invariant
                    self.wf(),
                    i < self.size,
                    j <= self.size,
                    forall|a: int, b: int|
                        0 <= a < i && 0 <= b < self.n() && a != b ==> #[trigger] self.dist(a, b)
                            > 0,
                    forall|b: int|
                        0 <= b < j && i != b ==> #[trigger] self.dist(i as int, b) > 0,
                decreases self.size - j,
            {
                if i != j && self.get_distance(i, j) <= 0 {
                    let mut msg = String::from_str("no path from ");
                    msg.append(self.node_names[i].as_str());
                    msg.append(" to ");
                    msg.append(self.node_names[j].as_str());
                    proof {
                        assert(msg@ == self.missing_edge_message(i as int, j as int));
                    }
                    return Err(TSPError::InvalidGraph(msg));
                }
                j += 1;
            }
            i += 1;
        }
        Ok(())
    }
}


/// A sequence of node indices as mathematical integers.
pub open spec fn path_view(p: Seq<usize>) -> Seq<int> {
    p.map(|_i: int, v: usize| v as int)
}

impl Graph {
    /// A Hamiltonian tour: `size + 1` entries, the first equal to the last,
    /// and the first `size` entries visiting every node exactly once.
    pub open spec fn spec_tour_ok(&self, p: Seq<int>) -> bool {
        &&& p.len() == self.n() + 1
        &&& p[0] == p[self.n()]
        &&& forall|i: int| 0 <= i < self.n() ==> 0 <= #[trigger] p[i] < self.n()
        &&& forall|i: int, j: int| 0 <= i < j < self.n() ==> p[i] != p[j]
        &&& forall|x: int| 0 <= x < self.n() ==> #[trigger] p.subrange(0, self.n()).contains(x)
    }

    /// The summed cost of the first `k` hops of a path.
    pub open spec fn spec_path_cost(&self, p: Seq<int>, k: int) -> int
        decreases k,
    {
        if k <= 0 {
            0
        } else {
            self.spec_path_cost(p, k - 1) + self.dist(p[k - 1], p[k])
        }
    }

    /// The first `k` hops of a path exist: indices up to position `k` are in
    /// range and each of those hops has a strictly positive cost.
    pub open spec fn spec_prefix_ok(&self, p: Seq<int>, k: int) -> bool {
        &&& forall|i: int| 0 <= i <= k && i < p.len() ==> 0 <= #[trigger] p[i] < self.n()
        &&& forall|i: int| 0 <= i < k && i + 1 < p.len() ==> #[trigger] self.dist(p[i], p[i + 1]) > 0
    }

    /// What `calculate_path_cost` accepts: at least two entries, all indices
    /// in range, and an edge present on every consecutive pair.
    pub open spec fn spec_path_ok(&self, p: Seq<int>) -> bool {
        p.len() >= 2 && self.spec_prefix_ok(p, p.len() - 1)
    }

    /// Exactly what `calculate_path_cost` may return for a path: the summed
    /// edge costs when every hop exists, and `InvalidPath` otherwise.
    pub open spec fn path_cost_post(&self, p: Seq<int>, r: Result<i32, TSPError>) -> bool {
        match r {
            Ok(c) => self.spec_path_ok(p) && c == self.spec_path_cost(p, p.len() - 1),
            Err(e) => !self.spec_path_ok(p) && e is InvalidPath,
        }
    }

    /// Prefix costs only grow along a path whose hops all exist.
    pub proof fn lemma_path_cost_mono(&self, p: Seq<int>, k1: int, k2: int)
        requires
            0 <= k1 <= k2 < p.len(),
            self.spec_prefix_ok(p, k2),
        ensures
            self.spec_path_cost(p, k1) <= self.spec_path_cost(p, k2),
        decreases k2 - k1,
    {
        if k1 < k2 {
            self.lemma_path_cost_mono(p, k1, k2 - 1);
            assert(self.dist(p[k2 - 1], p[(k2 - 1) + 1]) > 0);
        }
    }

    /// Validates a Hamiltonian tour: the path must have `size + 1` entries,
    /// return to its starting node, and visit every node exactly once.
    pub fn is_valid_tour(&self, path: &[usize]) -> (r: bool)
        requires
            self.wf(),
        ensures
            r == self.spec_tour_ok(path_view(path@)),
    {
        let ghost pv = path_view(path@);
        proof {
            assert(forall|i: int| 0 <= i < pv.len() ==> #[trigger] pv[i] == path@[i] as int);
        }
        let n = self.size;
        if path.len() == 0 || path.len() - 1 != n {
            return false;
        }
        if path[0] != path[path.len() - 1] {
            return false;
        }

        let mut visited: Vec<bool> = Vec::new();
        let mut v: usize = 0;
        while v < n
            invariant
                v <= n,
                visited@.len() == v,
                forall|x: int| 0 <= x < v ==> !(#[trigger] visited@[x]),
            decreases n - v,
        {
            visited.push(false);
            v += 1;
        }

        let mut idx: usize = 0;
        while idx < n
            invariant
                self.wf(),
                n == self.size,
                idx <= n,
                path@.len() == n + 1,
                pv == path_view(path@),
                pv.len() == n + 1,
                visited@.len() == n,
                forall|x: int|
                    0 <= x < n ==> (#[trigger] visited@[x] <==> pv.subrange(0, idx as int).contains(
                        x,
                    )),
                forall|i: int| 0 <= i < idx ==> 0 <= #[trigger] pv[i] < n,
                forall|i: int, j: int| 0 <= i < j < idx ==> pv[i] != pv[j],
            decreases n - idx,
        {
            let node = path[idx];
            if node >= n {
                proof {
                    assert(pv[idx as int] >= n);
                }
                return false;
            }
            if visited[node] {
                proof {
                    let prev = pv.subrange(0, idx as int);
                    let i0 = choose|i0: int| 0 <= i0 < prev.len() && prev[i0] == node as int;
                    assert(pv[i0] == node as int && pv[idx as int] == node as int);
                }
                return false;
            }
            visited[node] = true;
            proof {
                let prev = pv.subrange(0, idx as int);
                let now = pv.subrange(0, idx as int + 1);
                assert(now =~= prev.push(pv[idx as int]));
                assert forall|i0: int| 0 <= i0 < idx implies pv[i0] != node as int by {
                    if pv[i0] == node as int {
                        assert(prev[i0] == node as int);
                        assert(prev.contains(node as int));
                    }
                }
                assert forall|x: int| 0 <= x < n implies (visited@[x] <==> now.contains(x)) by {
                    if x == node as int {
                        assert(now[idx as int] == x);
                    } else {
                        assert forall|i0: int| 0 <= i0 < now.len() && now[i0] == x implies
                            prev.contains(x) by {
                            assert(prev[i0] == x);
                        }
                        assert(prev.contains(x) ==> now.contains(x)) by {
                            if prev.contains(x) {
                                let i0 = choose|i0: int| 0 <= i0 < prev.len() && prev[i0] == x;
                                assert(now[i0] == x);
                            }
                        }
                    }
                }
            }
            idx += 1;
        }

        let mut v: usize = 0;
        while v < n
            invariant
                self.wf(),
                n == self.size,
                v <= n,
                pv == path_view(path@),
                pv.len() == n + 1,
                visited@.len() == n,
                forall|x: int|
                    0 <= x < n ==> (#[trigger] visited@[x] <==> pv.subrange(0, n as int).contains(
                        x,
                    )),
                forall|i: int| 0 <= i < n ==> 0 <= #[trigger] pv[i] < n,
                forall|i: int, j: int| 0 <= i < j < n ==> pv[i] != pv[j],
                forall|x: int| 0 <= x < v ==> #[trigger] pv.subrange(0, n as int).contains(x),
            decreases n - v,
        {
            if !visited[v] {
                return false;
            }
            v += 1;
        }
        true
    }

    /// Sums the consecutive edge costs along a path of at least two node
    /// indices. Fails with `InvalidPath` on a short path, an out-of-range
    /// index, or a missing edge; otherwise returns exactly the summed cost.
    /// The caller keeps every realizable prefix sum within `i32`.
    pub fn calculate_path_cost(&self, path: &[usize]) -> (r: Result<i32, TSPError>)
        requires
            self.wf(),
            forall|k: int|
                0 <= k < path@.len() && self.spec_prefix_ok(path_view(path@), k)
                    ==> self.spec_path_cost(path_view(path@), k) <= i32::MAX,
        ensures
            self.path_cost_post(path_view(path@), r),
    {
        let ghost pv = path_view(path@);
        proof {
            assert(forall|i: int| 0 <= i < pv.len() ==> #[trigger] pv[i] == path@[i] as int);
        }
        if path.len() < 2 {
            return Err(TSPError::InvalidPath("a path must have at least 2 nodes".to_owned()));
        }
        if path[0] >= self.size {
            proof {
                assert(pv[0] >= self.n());
            }
            return Err(TSPError::InvalidPath("node index out of bounds".to_owned()));
        }

        let mut total: i32 = 0;
        let mut i: usize = 0;
        while i < path.len() - 1
            invariant
                self.wf(),
                path@.len() >= 2,
                pv == path_view(path@),
                pv.len() == path@.len(),
                i < path@.len(),
                self.spec_prefix_ok(pv, i as int),
                total == self.spec_path_cost(pv, i as int),
                forall|k: int|
                    0 <= k < pv.len() && self.spec_prefix_ok(pv, k) ==> self.spec_path_cost(pv, k)
                        <= i32::MAX,
            decreases path@.len() - i,
        {
            let from = path[i];
            let to = path[i + 1];

            if from >= self.size || to >= self.size {
                proof {
                    if from >= self.size {
                        assert(pv[i as int] >= self.n());
                    } else {
                        assert(pv[i as int + 1] >= self.n());
                    }
                }
                return Err(TSPError::InvalidPath("node index out of bounds".to_owned()));
            }

            let cost = self.get_distance(from, to);
            proof {
                assert(pv[i as int] == from as int && pv[i as int + 1] == to as int);
                assert(self.dist(pv[i as int], pv[i as int + 1]) == cost);
            }
            if cost <= 0 {
                let mut msg = String::from_str("no edge from ");
                msg.append(self.node_names[from].as_str());
                msg.append(" to ");
                msg.append(self.node_names[to].as_str());
                return Err(TSPError::InvalidPath(msg));
            }
            proof {
                assert(self.spec_prefix_ok(pv, i + 1));
                assert(self.spec_path_cost(pv, i + 1) == total + cost);
            }
            total = total + cost;
            i += 1;
        }
        Ok(total)
    }
}


/// Aggregate edge statistics: the count, total, minimum and maximum weight
/// over the positive off-diagonal entries. Informational only; the solver
/// does not read them.
#[derive(Debug, Clone, Copy)]
pub struct GraphStats {
    pub nodes: usize,
    pub edges: usize,
    pub min_edge_weight: i32,
    pub max_edge_weight: i32,
    pub total_weight: i32,
}

/// Folds one more entry into running (count, total, min, max) statistics;
/// only positive off-diagonal entries count, and the minimum stays at the
/// `i32` ceiling until an edge is seen.
pub open spec fn stats_step(p: (int, int, int, int), w: int, on_diagonal: bool) -> (
    int,
    int,
    int,
    int,
) {
    if !on_diagonal && w > 0 {
        (
            p.0 + 1,
            p.1 + w,
            if w < p.2 {
                w
            } else {
                p.2
            },
            if w > p.3 {
                w
            } else {
                p.3
            },
        )
    } else {
        p
    }
}

/// Statistics over the first `k` entries of row `d`.
pub open spec fn row_stats(r: Seq<int>, d: int, k: int) -> (int, int, int, int)
    decreases k,
{
    if k <= 0 {
        (0, 0, 0x7fff_ffff as int, 0)
    } else {
        stats_step(row_stats(r, d, k - 1), r[k - 1], k - 1 == d)
    }
}

/// Statistics over the first `k` whole rows.
pub open spec fn mat_stats(g: Seq<Seq<int>>, k: int) -> (int, int, int, int)
    decreases k,
{
    if k <= 0 {
        (0, 0, 0x7fff_ffff as int, 0)
    } else {
        let p = mat_stats(g, k - 1);
        let q = row_stats(g[k - 1], k - 1, g[k - 1].len() as int);
        (
            p.0 + q.0,
            p.1 + q.1,
            if q.2 < p.2 {
                q.2
            } else {
                p.2
            },
            if q.3 > p.3 {
                q.3
            } else {
                p.3
            },
        )
    }
}

proof fn lemma_row_stats_bounds(r: Seq<int>, d: int, k: int)
    requires
        forall|j: int| 0 <= j < r.len() ==> #[trigger] r[j] <= 0x7fff_ffff,
        k <= r.len(),
    ensures
        0 <= row_stats(r, d, k).0 <= row_stats(r, d, k).1,
        0 <= row_stats(r, d, k).3 <= 0x7fff_ffff,
        0 <= row_stats(r, d, k).2 <= 0x7fff_ffff,
    decreases k,
{
    if k > 0 {
        lemma_row_stats_bounds(r, d, k - 1);
    }
}

proof fn lemma_mat_stats_bounds(g: Seq<Seq<int>>, k: int)
    requires
        forall|i: int, j: int|
            0 <= i < g.len() && 0 <= j < g[i].len() ==> #[trigger] g[i][j] <= 0x7fff_ffff,
        k <= g.len(),
    ensures
        0 <= mat_stats(g, k).0 <= mat_stats(g, k).1,
        0 <= mat_stats(g, k).3 <= 0x7fff_ffff,
        0 <= mat_stats(g, k).2 <= 0x7fff_ffff,
    decreases k,
{
    if k > 0 {
        lemma_mat_stats_bounds(g, k - 1);
        lemma_row_stats_bounds(g[k - 1], k - 1, g[k - 1].len() as int);
        assert(forall|j: int|
            0 <= j < g[k - 1].len() ==> #[trigger] g[k - 1][j] <= 0x7fff_ffff);
    }
}

/// The totals only grow as more rows are folded in.
proof fn lemma_mat_stats_mono(g: Seq<Seq<int>>, k1: int, k2: int)
    requires
        forall|i: int, j: int|
            0 <= i < g.len() && 0 <= j < g[i].len() ==> #[trigger] g[i][j] <= 0x7fff_ffff,
        0 <= k1 <= k2 <= g.len(),
    ensures
        mat_stats(g, k1).1 <= mat_stats(g, k2).1,
        mat_stats(g, k1).0 <= mat_stats(g, k2).0,
    decreases k2 - k1,
{
    if k1 < k2 {
        lemma_mat_stats_mono(g, k1, k2 - 1);
        lemma_row_stats_bounds(g[k2 - 1], k2 - 1, g[k2 - 1].len() as int);
        assert(forall|j: int|
            0 <= j < g[k2 - 1].len() ==> #[trigger] g[k2 - 1][j] <= 0x7fff_ffff);
    }
}

proof fn lemma_row_stats_mono(r: Seq<int>, d: int, k1: int, k2: int)
    requires
        forall|j: int| 0 <= j < r.len() ==> #[trigger] r[j] <= 0x7fff_ffff,
        0 <= k1 <= k2 <= r.len(),
    ensures
        row_stats(r, d, k1).1 <= row_stats(r, d, k2).1,
        row_stats(r, d, k1).0 <= row_stats(r, d, k2).0,
    decreases k2 - k1,
{
    if k1 < k2 {
        lemma_row_stats_mono(r, d, k1, k2 - 1);
    }
}

impl Graph {
    /// Aggregate edge statistics of the whole matrix. The caller keeps the
    /// total weight within `i32`, which the machine representation forces.
    pub fn get_stats(&self) -> (r: GraphStats)
        requires
            self.wf(),
            mat_stats(self.mat(), self.n()).1 <= i32::MAX,
        ensures
            r.nodes == self.size,
            r.edges == mat_stats(self.mat(), self.n()).0,
            r.total_weight == mat_stats(self.mat(), self.n()).1,
            r.max_edge_weight == mat_stats(self.mat(), self.n()).3,
            r.min_edge_weight == if mat_stats(self.mat(), self.n()).0 == 0 {
                0int
            } else {
                mat_stats(self.mat(), self.n()).2
            },
    {
        let ghost g = self.mat();
        let n = self.size;
        proof {
            assert forall|i: int, j: int|
                0 <= i < g.len() && 0 <= j < g[i].len() implies #[trigger] g[i][j]
                <= 0x7fff_ffff by {
                assert(g[i] == self.adjacency_matrix@[i]@.map(|jj: int, v: i32| v as int));
            }
        }
        let mut total_edges: usize = 0;
        let mut min_edge: i32 = i32::MAX;
        let mut max_edge: i32 = 0;
        let mut total_weight: i32 = 0;

        let mut i: usize = 0;
        while i < n
            invariant
                self.wf(),
                g == self.mat(),
                n == self.size,
                i <= n,
                forall|a: int, b: int|
                    0 <= a < g.len() && 0 <= b < g[a].len() ==> #[trigger] g[a][b] <= 0x7fff_ffff,
                mat_stats(g, self.n()).1 <= i32::MAX,
                total_edges == mat_stats(g, i as int).0,
                total_weight == mat_stats(g, i as int).1,
                max_edge == mat_stats(g, i as int).3,
                min_edge == mat_stats(g, i as int).2,
            decreases n - i,
        {
            proof {
                assert(g.len() == n as int);
                lemma_mat_stats_bounds(g, i as int);
            }
            let mut j: usize = 0;
            while j < n
                invariant
                    self.wf(),
                    g == self.mat(),
                    n == self.size,
                    i < n,
                    j <= n,
                    forall|a: int, b: int|
                        0 <= a < g.len() && 0 <= b < g[a].len() ==> #[trigger] g[a][b]
                            <= 0x7fff_ffff,
                    mat_stats(g, self.n()).1 <= i32::MAX,
                    total_edges == mat_stats(g, i as int).0 + row_stats(g[i as int], i as int, j as int).0,
                    total_weight == mat_stats(g, i as int).1 + row_stats(g[i as int], i as int, j as int).1,
                    max_edge == if row_stats(g[i as int], i as int, j as int).3 > mat_stats(g, i as int).3 {
                        row_stats(g[i as int], i as int, j as int).3
                    } else {
                        mat_stats(g, i as int).3
                    },
                    min_edge == if row_stats(g[i as int], i as int, j as int).2 < mat_stats(g, i as int).2 {
                        row_stats(g[i as int], i as int, j as int).2
                    } else {
                        mat_stats(g, i as int).2
                    },
                decreases n - j,
            {
                let w = self.get_distance(i, j);
                proof {
                    lemma_mat_stats_bounds(g, i as int);
                    assert(forall|b: int|
                        0 <= b < g[i as int].len() ==> #[trigger] g[i as int][b] <= 0x7fff_ffff);
                    lemma_row_stats_bounds(g[i as int], i as int, j as int);
                    lemma_row_stats_mono(g[i as int], i as int, j + 1, g[i as int].len() as int);
                    lemma_mat_stats_mono(g, i as int + 1, self.n());
                    assert(mat_stats(g, i as int + 1).1 == mat_stats(g, i as int).1 + row_stats(
                        g[i as int],
                        i as int,
                        g[i as int].len() as int,
                    ).1);
                }
                if i != j && w > 0 {
                    total_edges = total_edges + 1;
                    total_weight = total_weight + w;
                    if w < min_edge {
                        min_edge = w;
                    }
                    if w > max_edge {
                        max_edge = w;
                    }
                }
                j += 1;
            }
            proof {
                assert(g[i as int].len() == n as int) by {
                    assert(g[i as int] == self.adjacency_matrix@[i as int]@.map(
                        |jj: int, v: i32| v as int,
                    ));
                }
            }
            i += 1;
        }

        GraphStats {
            nodes: n,
            edges: total_edges,
            min_edge_weight: if total_edges == 0 {
                0
            } else {
                min_edge
            },
            max_edge_weight: max_edge,
            total_weight,
        }
    }
}


/// Computes the aggregate statistics while checking that the total fits an
/// `i32`, so that any caller can use it without knowing the weights.
pub fn stats_checked(g: &Graph) -> (r: Option<GraphStats>)
    requires
        g.wf(),
    ensures
        match r {
            Some(st) => {
                &&& mat_stats(g.mat(), g.n()).1 <= i32::MAX
                &&& st.nodes == g.size
                &&& st.edges == mat_stats(g.mat(), g.n()).0
                &&& st.total_weight == mat_stats(g.mat(), g.n()).1
                &&& st.max_edge_weight == mat_stats(g.mat(), g.n()).3
                &&& st.min_edge_weight == if mat_stats(g.mat(), g.n()).0 == 0 {
                    0int
                } else {
                    mat_stats(g.mat(), g.n()).2
                }
            },
            None => mat_stats(g.mat(), g.n()).1 > i32::MAX,
        },
{
    let ghost gm = g.mat();
    let n = g.size;
    proof {
        assert forall|i: int, j: int|
            0 <= i < gm.len() && 0 <= j < gm[i].len() implies #[trigger] gm[i][j]
            <= 0x7fff_ffff by {
            assert(gm[i] == g.adjacency_matrix@[i]@.map(|jj: int, v: i32| v as int));
        }
        assert(gm.len() == n as int);
    }
    let mut total_edges: usize = 0;
    let mut min_edge: i32 = i32::MAX;
    let mut max_edge: i32 = 0;
    let mut total_weight: i64 = 0;

    let mut i: usize = 0;
    while i < n
        invariant
            g.wf(),
            gm == g.mat(),
            gm.len() == n as int,
            n == g.size,
            i <= n,
            forall|a: int, b: int|
                0 <= a < gm.len() && 0 <= b < gm[a].len() ==> #[trigger] gm[a][b] <= 0x7fff_ffff,
            total_edges == mat_stats(gm, i as int).0,
            total_weight == mat_stats(gm, i as int).1,
            max_edge == mat_stats(gm, i as int).3,
            min_edge == mat_stats(gm, i as int).2,
            total_weight <= i32::MAX,
        decreases n - i,
    {
        proof {
            lemma_mat_stats_bounds(gm, i as int);
        }
        let mut j: usize = 0;
        while j < n
            invariant
                g.wf(),
                gm == g.mat(),
                gm.len() == n as int,
                n == g.size,
                i < n,
                j <= n,
                forall|a: int, b: int|
                    0 <= a < gm.len() && 0 <= b < gm[a].len() ==> #[trigger] gm[a][b]
                        <= 0x7fff_ffff,
                total_edges == mat_stats(gm, i as int).0 + row_stats(gm[i as int], i as int, j as int).0,
                total_weight == mat_stats(gm, i as int).1 + row_stats(gm[i as int], i as int, j as int).1,
                max_edge == if row_stats(gm[i as int], i as int, j as int).3 > mat_stats(gm, i as int).3 {
                    row_stats(gm[i as int], i as int, j as int).3
                } else {
                    mat_stats(gm, i as int).3
                },
                min_edge == if row_stats(gm[i as int], i as int, j as int).2 < mat_stats(gm, i as int).2 {
                    row_stats(gm[i as int], i as int, j as int).2
                } else {
                    mat_stats(gm, i as int).2
                },
                total_weight <= i32::MAX,
            decreases n - j,
        {
            let w = g.get_distance(i, j);
            proof {
                lemma_mat_stats_bounds(gm, i as int);
                assert(forall|b: int|
                    0 <= b < gm[i as int].len() ==> #[trigger] gm[i as int][b] <= 0x7fff_ffff);
                lemma_row_stats_bounds(gm[i as int], i as int, j as int);
                assert(gm[i as int].len() == n as int) by {
                    assert(gm[i as int] == g.adjacency_matrix@[i as int]@.map(
                        |jj: int, v: i32| v as int,
                    ));
                }
            }
            if i != j && w > 0 {
                total_edges = total_edges + 1;
                total_weight = total_weight + (w as i64);
                if total_weight > 0x7fff_ffff {
                    proof {
                        assert(forall|b: int|
                            0 <= b < gm[i as int].len() ==> #[trigger] gm[i as int][b]
                                <= 0x7fff_ffff);
                        lemma_row_stats_mono(
                            gm[i as int],
                            i as int,
                            j + 1,
                            gm[i as int].len() as int,
                        );
                        lemma_mat_stats_mono(gm, i as int + 1, gm.len() as int);
                    }
                    return None;
                }
                if w < min_edge {
                    min_edge = w;
                }
                if w > max_edge {
                    max_edge = w;
                }
            }
            j += 1;
        }
        proof {
            assert(gm[i as int].len() == n as int) by {
                assert(gm[i as int] == g.adjacency_matrix@[i as int]@.map(
                    |jj: int, v: i32| v as int,
                ));
            }
        }
        i += 1;
    }

    proof {
        lemma_mat_stats_bounds(gm, n as int);
    }
    Some(
        GraphStats {
            nodes: n,
            edges: total_edges,
            min_edge_weight: if total_edges == 0 {
                0
            } else {
                min_edge
            },
            max_edge_weight: max_edge,
            total_weight: total_weight as i32,
        },
    )
}

} // verus!
