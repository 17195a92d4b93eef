//! The Held-Karp recurrence as a mathematical specification.
//!
//! For a matrix `g` of size `n`, a state is a node `i` together with a mask
//! `m` encoding a subset of `{1 .. n-1}`; its value `opt_cost(g, i, m)` is the
//! least cost of starting at `i`, visiting every node of the subset exactly
//! once, and finishing at node 0. `best` scans the candidate first hops in
//! ascending node order and keeps the earliest minimizer, which fixes the
//! tie-breaking policy of the whole solver.

use vstd::prelude::*;
use vstd::arithmetic::power2::pow2;

use vstd::arithmetic::div_mod::lemma_fundamental_div_mod;

use crate::bitmask::{
    bit, lemma_bit0, lemma_bit_bound, lemma_bit_ge, lemma_bit_shift, lemma_clear_bit,
    lemma_full_mask, lemma_popcnt_bound, lemma_popcnt_zero, popcnt,
};

verus! {

/// Spec-level well-formedness of an adjacency matrix: square, with at least
/// two nodes and a zero diagonal.
pub open spec fn mat_wf(g: Seq<Seq<int>>) -> bool {
    &&& g.len() >= 2
    &&& forall|i: int| 0 <= i < g.len() ==> (#[trigger] g[i]).len() == g.len()
    &&& forall|i: int| 0 <= i < g.len() ==> #[trigger] g[i][i] == 0
}

/// Spec-level completeness: every off-diagonal entry is strictly positive.
pub open spec fn mat_complete(g: Seq<Seq<int>>) -> bool {
    forall|i: int, j: int|
        0 <= i < g.len() && 0 <= j < g.len() && i != j ==> #[trigger] g[i][j] > 0
}

/// A mask encoding a subset of `{1 .. n-1}`: below `2^n` and even, because
/// node 0 (the fixed tour origin) is never a member.
pub open spec fn valid_mask(m: int, n: int) -> bool {
    0 <= m < pow2(n as nat) && m % 2 == 0
}

/// The mask holding all of `{1 .. n-1}`.
pub open spec fn full_mask(n: int) -> int {
    pow2(n as nat) - 2
}

/// The best first hop out of `i` among the members of `m` below `j`, scanned
/// in ascending order with a strict improvement test, so that the earliest
/// minimizer wins. Returns the pair (cost, hop), or `None` when no member of
/// `m` lies below `j`.
pub open spec fn best(g: Seq<Seq<int>>, i: int, m: int, j: int) -> Option<(int, int)>
    decreases popcnt(m), j, 0int
        when m >= 0 && j >= 0
        via best_decreases
{
    if j <= 1 {
        None
    } else {
        let prev = best(g, i, m, j - 1);
        if bit(m, j - 1) {
            let c = g[i][j - 1] + opt_cost(g, j - 1, m - pow2((j - 1) as nat));
            match prev {
                None => Some((c, j - 1)),
                Some(pn) => if c < pn.0 {
                    Some((c, j - 1))
                } else {
                    Some(pn)
                },
            }
        } else {
            prev
        }
    }
}

/// The Held-Karp state value: the least cost of starting at `i`, visiting
/// every member of `m` exactly once, and finishing at node 0.
pub open spec fn opt_cost(g: Seq<Seq<int>>, i: int, m: int) -> int
    decreases popcnt(m), g.len() + 1, 1int
        when m >= 0
{
    if m == 0 {
        g[i][0]
    } else {
        match best(g, i, m, g.len() as int) {
            Some(cn) => cn.0,
            None => g[i][0],
        }
    }
}

#[via_fn]
proof fn best_decreases(g: Seq<Seq<int>>, i: int, m: int, j: int) {
    if j > 1 && bit(m, j - 1) {
        lemma_clear_bit(m, j - 1);
    }
}

/// What the scan guarantees: a returned pair names a member of `m` below `j`
/// whose one-step cost attains the minimum over all such members, and `None`
/// comes back only when there is no member below `j`.
pub proof fn lemma_best_props(g: Seq<Seq<int>>, i: int, m: int, j: int)
    requires
        m >= 0,
        j >= 1,
    ensures
        match best(g, i, m, j) {
            Some(cn) => {
                &&& 1 <= cn.1 < j
                &&& bit(m, cn.1)
                &&& cn.0 == g[i][cn.1] + opt_cost(g, cn.1, m - pow2(cn.1 as nat))
                &&& forall|k: int|
                    1 <= k < j && #[trigger] bit(m, k) ==> cn.0 <= g[i][k] + opt_cost(
                        g,
                        k,
                        m - pow2(k as nat),
                    )
            },
            None => forall|k: int| 1 <= k < j ==> !(#[trigger] bit(m, k)),
        },
    decreases j,
{
    if j > 1 {
        lemma_best_props(g, i, m, j - 1);
        let prev = best(g, i, m, j - 1);
        if bit(m, j - 1) {
            lemma_bit_ge(m, j - 1);
            let c = g[i][j - 1] + opt_cost(g, j - 1, m - pow2((j - 1) as nat));
            match prev {
                None => {
                    assert(best(g, i, m, j) == Some((c, j - 1)));
                },
                Some(pn) => {
                    if c < pn.0 {
                        assert(best(g, i, m, j) == Some((c, j - 1)));
                    } else {
                        assert(best(g, i, m, j) == Some(pn));
                    }
                },
            }
        } else {
            assert(best(g, i, m, j) == prev);
        }
    } else {
        assert(best(g, i, m, j) is None);
    }
}

/// A positive mask has a set bit.
pub proof fn lemma_exists_bit(m: int)
    requires
        m > 0,
    ensures
        exists|j: int| #[trigger] bit(m, j),
    decreases m,
{
    lemma_bit0(m);
    if m % 2 == 1 {
        assert(bit(m, 0));
    } else {
        lemma_fundamental_div_mod(m, 2);
        lemma_exists_bit(m / 2);
        let j = choose|j: int| #[trigger] bit(m / 2, j);
        lemma_bit_shift(m, j + 1);
        assert(bit(m, j + 1));
    }
}

/// For a valid positive mask the scan over all nodes cannot come back empty,
/// since the mask has a member and every member lies in `1 .. n`.
pub proof fn lemma_best_some(g: Seq<Seq<int>>, i: int, m: int)
    requires
        mat_wf(g),
        valid_mask(m, g.len() as int),
        m > 0,
    ensures
        best(g, i, m, g.len() as int) is Some,
{
    lemma_best_props(g, i, m, g.len() as int);
    if best(g, i, m, g.len() as int) is None {
        lemma_exists_bit(m);
        let j = choose|j: int| #[trigger] bit(m, j);
        lemma_bit_bound(m, g.len() as int, j);
        lemma_bit0(m);
    }
}

/// Clearing a member of a valid mask keeps the mask valid.
pub proof fn lemma_clear_keeps_valid(m: int, n: int, j: int)
    requires
        valid_mask(m, n),
        bit(m, j),
        j >= 1,
    ensures
        valid_mask(m - pow2(j as nat), n),
        popcnt(m - pow2(j as nat)) == popcnt(m) - 1,
{
    lemma_clear_bit(m, j);
    lemma_bit0(m);
    lemma_bit0(m - pow2(j as nat));
}


/// The largest value among the first `k` entries of a row (0 when `k <= 0`).
pub open spec fn row_max(r: Seq<int>, k: int) -> int
    decreases k,
{
    if k <= 0 {
        0
    } else {
        let p = row_max(r, k - 1);
        if r[k - 1] > p {
            r[k - 1]
        } else {
            p
        }
    }
}

/// The largest value among the first `k` rows (0 when `k <= 0`).
pub open spec fn mat_max(g: Seq<Seq<int>>, k: int) -> int
    decreases k,
{
    if k <= 0 {
        0
    } else {
        let p = mat_max(g, k - 1);
        let rm = row_max(g[k - 1], g[k - 1].len() as int);
        if rm > p {
            rm
        } else {
            p
        }
    }
}

/// The largest entry of the whole matrix.
pub open spec fn max_entry(g: Seq<Seq<int>>) -> int {
    mat_max(g, g.len() as int)
}

proof fn lemma_row_max_ge(r: Seq<int>, k: int, j: int)
    requires
        0 <= j < k,
    ensures
        r[j] <= row_max(r, k),
    decreases k,
{
    if j < k - 1 {
        lemma_row_max_ge(r, k - 1, j);
    }
}

proof fn lemma_mat_max_ge(g: Seq<Seq<int>>, k: int, i: int, j: int)
    requires
        0 <= i < k <= g.len(),
        0 <= j < g[i].len(),
    ensures
        g[i][j] <= mat_max(g, k),
    decreases k,
{
    if i < k - 1 {
        lemma_mat_max_ge(g, k - 1, i, j);
    } else {
        lemma_row_max_ge(g[i], g[i].len() as int, j);
    }
}

proof fn lemma_mat_max_nonneg(g: Seq<Seq<int>>, k: int)
    ensures
        mat_max(g, k) >= 0,
    decreases k,
{
    if k > 0 {
        lemma_mat_max_nonneg(g, k - 1);
    }
}

/// Every matrix entry is at most `max_entry`, which is non-negative.
pub proof fn lemma_max_entry(g: Seq<Seq<int>>, i: int, j: int)
    requires
        0 <= i < g.len(),
        0 <= j < g[i].len(),
    ensures
        g[i][j] <= max_entry(g),
        max_entry(g) >= 0,
{
    lemma_mat_max_nonneg(g, g.len() as int);
    lemma_mat_max_ge(g, g.len() as int, i, j);
}

/// For a complete graph, a state value over a subset of `s` nodes lies
/// between `s + 1` (each of the `s + 1` edges costs at least 1) and
/// `(s + 1) * max_entry` (each costs at most the largest entry).
pub proof fn lemma_opt_bounds(g: Seq<Seq<int>>, i: int, m: int)
    requires
        mat_wf(g),
        mat_complete(g),
        valid_mask(m, g.len() as int),
        0 <= i < g.len(),
        !bit(m, i),
        i >= 1 || m > 0,
    ensures
        popcnt(m) + 1 <= opt_cost(g, i, m),
        opt_cost(g, i, m) <= (popcnt(m) + 1) * max_entry(g),
    decreases popcnt(m),
{
    let n = g.len() as int;
    if m == 0 {
        lemma_max_entry(g, i, 0);
        assert(popcnt(m) == 0);
        assert((popcnt(m) + 1) * max_entry(g) == max_entry(g)) by (nonlinear_arith)
            requires
                popcnt(m) == 0,
        ;
        assert(opt_cost(g, i, m) == g[i][0]);
    } else {
        lemma_best_some(g, i, m);
        lemma_best_props(g, i, m, n);
        match best(g, i, m, n) {
            Some(cn) => {
                let nx = cn.1;
                lemma_bit_ge(m, nx);
                lemma_clear_bit(m, nx);
                lemma_clear_keeps_valid(m, n, nx);
                lemma_bit_bound(m, n, nx);
                let m2 = m - pow2(nx as nat);
                lemma_opt_bounds(g, nx, m2);
                lemma_max_entry(g, i, nx);
                let p = popcnt(m) as int;
                assert(g[i][nx] >= 1);
                assert(opt_cost(g, i, m) == cn.0);
                assert((p + 1) * max_entry(g) == p * max_entry(g) + max_entry(g))
                    by (nonlinear_arith);
            },
            None => {},
        }
    }
}

/// The cost of the walk that starts at `from` and then visits the nodes of
/// `rest` in order.
pub open spec fn walk_cost(g: Seq<Seq<int>>, from: int, rest: Seq<int>) -> int
    decreases rest.len(),
{
    if rest.len() == 0 {
        0
    } else {
        g[from][rest[0]] + walk_cost(g, rest[0], rest.drop_first())
    }
}

/// The tail of the reconstructed tour: from `cur`, follow the recorded best
/// hops through the members of `m`, then close at node 0.
pub open spec fn rec_tail(g: Seq<Seq<int>>, cur: int, m: int) -> Seq<int>
    decreases popcnt(m)
        when m >= 0
        via rec_tail_decreases
{
    if m == 0 {
        seq![0int]
    } else {
        match best(g, cur, m, g.len() as int) {
            Some(cn) => seq![cn.1] + rec_tail(g, cn.1, m - pow2(cn.1 as nat)),
            None => seq![0int],
        }
    }
}

#[via_fn]
proof fn rec_tail_decreases(g: Seq<Seq<int>>, cur: int, m: int) {
    if m > 0 && g.len() >= 1 {
        lemma_best_props(g, cur, m, g.len() as int);
        match best(g, cur, m, g.len() as int) {
            Some(cn) => {
                lemma_clear_bit(m, cn.1);
            },
            None => {},
        }
    }
}

/// The whole optimal tour of the matrix: node 0, then the recorded best hops
/// through all of `{1 .. n-1}`, then node 0 again.
pub open spec fn tour_of(g: Seq<Seq<int>>) -> Seq<int> {
    match best(g, 0, full_mask(g.len() as int), g.len() as int) {
        Some(cn) => seq![0int, cn.1] + rec_tail(
            g,
            cn.1,
            full_mask(g.len() as int) - pow2(cn.1 as nat),
        ),
        None => seq![0int, 0int],
    }
}

/// Structure and cost of the reconstructed tail: it visits each member of
/// `m` exactly once (no repeats, none missing), closes at node 0, and its
/// walk cost is exactly the state value.
pub proof fn lemma_rec_tail(g: Seq<Seq<int>>, cur: int, m: int)
    requires
        mat_wf(g),
        valid_mask(m, g.len() as int),
    ensures
        rec_tail(g, cur, m).len() == popcnt(m) + 1,
        rec_tail(g, cur, m)[popcnt(m) as int] == 0,
        forall|p: int| 0 <= p < popcnt(m) ==> bit(m, #[trigger] rec_tail(g, cur, m)[p]),
        forall|p: int, q: int|
            0 <= p < q < popcnt(m) ==> rec_tail(g, cur, m)[p] != rec_tail(g, cur, m)[q],
        forall|x: int|
            #[trigger] bit(m, x) ==> exists|p: int|
                0 <= p < popcnt(m) && rec_tail(g, cur, m)[p] == x,
        walk_cost(g, cur, rec_tail(g, cur, m)) == opt_cost(g, cur, m),
    decreases popcnt(m),
{
    let n = g.len() as int;
    let t = rec_tail(g, cur, m);
    if m == 0 {
        assert(t =~= seq![0int]);
        assert(t.drop_first() =~= Seq::<int>::empty());
        assert forall|x: int| !(#[trigger] bit(m, x)) by {
            if x >= 0 {
                vstd::arithmetic::power2::lemma_pow2_pos(x as nat);
                vstd::arithmetic::div_mod::lemma_basic_div(0, pow2(x as nat) as int);
            }
        }
        assert(walk_cost(g, 0, t.drop_first()) == 0);
        assert(walk_cost(g, cur, t) == g[cur][0] + walk_cost(g, 0, t.drop_first()));
    } else {
        lemma_best_some(g, cur, m);
        lemma_best_props(g, cur, m, n);
        match best(g, cur, m, n) {
            Some(cn) => {
                let nx = cn.1;
                lemma_bit_ge(m, nx);
                lemma_clear_bit(m, nx);
                lemma_clear_keeps_valid(m, n, nx);
                let m2 = m - pow2(nx as nat);
                lemma_rec_tail(g, nx, m2);
                let t2 = rec_tail(g, nx, m2);
                assert(t == seq![nx] + t2);
                assert(t.drop_first() =~= t2);
                let pc = popcnt(m) as int;
                assert(t[0] == nx);
                assert(forall|p: int| 1 <= p < t.len() ==> t[p] == t2[p - 1]);
                assert forall|p: int| 0 <= p < pc implies bit(m, t[p]) by {
                    if p >= 1 {
                        assert(bit(m2, t2[p - 1]));
                    }
                }
                assert forall|p: int, q: int| 0 <= p < q < pc implies t[p] != t[q] by {
                    if p == 0 {
                        assert(bit(m2, t2[q - 1]));
                        assert(!bit(m2, nx));
                    }
                }
                assert forall|x: int| #[trigger] bit(m, x) implies exists|p: int|
                    0 <= p < pc && t[p] == x by {
                    if x == nx {
                        assert(t[0] == x);
                    } else {
                        assert(bit(m2, x));
                        let p2 = choose|p2: int| 0 <= p2 < popcnt(m2) && t2[p2] == x;
                        assert(t[p2 + 1] == x);
                    }
                }
                assert(walk_cost(g, cur, t) == g[cur][nx] + walk_cost(g, nx, t2));
                assert(opt_cost(g, cur, m) == cn.0);
            },
            None => {},
        }
    }
}

/// Minimality: the state value is a lower bound on the cost of every walk
/// that visits distinct members of `m`, one per member, and returns to 0.
pub proof fn lemma_opt_is_min(g: Seq<Seq<int>>, i: int, m: int, q: Seq<int>)
    requires
        mat_wf(g),
        valid_mask(m, g.len() as int),
        q.len() == popcnt(m),
        forall|p: int| 0 <= p < q.len() ==> bit(m, #[trigger] q[p]),
        forall|p: int, r: int| 0 <= p < r < q.len() ==> q[p] != q[r],
    ensures
        opt_cost(g, i, m) <= walk_cost(g, i, q.push(0)),
    decreases q.len(),
{
    let n = g.len() as int;
    if q.len() == 0 {
        lemma_popcnt_zero(m);
        assert(q.push(0) =~= seq![0int]);
        assert(q.push(0).drop_first() =~= Seq::<int>::empty());
        assert(walk_cost(g, 0, q.push(0).drop_first()) == 0);
        assert(walk_cost(g, i, q.push(0)) == g[i][0] + walk_cost(g, 0, q.push(0).drop_first()));
    } else {
        let x = q[0];
        assert(bit(m, x));
        lemma_bit_ge(m, x);
        lemma_bit_bound(m, n, x);
        lemma_bit0(m);
        lemma_clear_bit(m, x);
        lemma_clear_keeps_valid(m, n, x);
        let m2 = m - pow2(x as nat);
        let q2 = q.drop_first();
        assert forall|p: int| 0 <= p < q2.len() implies bit(m2, #[trigger] q2[p]) by {
            assert(q2[p] == q[p + 1]);
            assert(q[p + 1] != x);
            assert(bit(m, q[p + 1]));
        }
        lemma_opt_is_min(g, x, m2, q2);
        lemma_best_some(g, i, m);
        lemma_best_props(g, i, m, n);
        assert(q.push(0).drop_first() =~= q2.push(0));
        assert(walk_cost(g, i, q.push(0)) == g[i][x] + walk_cost(g, x, q2.push(0)));
        match best(g, i, m, n) {
            Some(cn) => {
                assert(cn.0 <= g[i][x] + opt_cost(g, x, m2));
                assert(opt_cost(g, i, m) == cn.0);
            },
            None => {},
        }
    }
}


/// A solver state: a node outside the mask, with node 0 allowed only as the
/// final combination state.
pub open spec fn valid_state(i: int, m: int, n: int) -> bool {
    &&& 0 <= i < n
    &&& valid_mask(m, n)
    &&& !bit(m, i)
    &&& i >= 1 || m > 0
}

/// The recorded best next hop of a state (meaningful for positive masks).
pub open spec fn hk_next(g: Seq<Seq<int>>, i: int, m: int) -> int {
    match best(g, i, m, g.len() as int) {
        Some(cn) => cn.1,
        None => -1,
    }
}

/// The machine bound under which the solver's arithmetic cannot overflow:
/// every walk through at most `n` edges costs less than `i32::MAX`.
pub open spec fn costs_fit(g: Seq<Seq<int>>) -> bool {
    (g.len() as int) * max_entry(g) < 0x7fff_ffff
}

/// Under `costs_fit`, every state value is positive and strictly below
/// `i32::MAX`, so it can be stored in an `i32` and compared against the
/// scanning sentinel.
pub proof fn lemma_opt_fits(g: Seq<Seq<int>>, i: int, m: int)
    requires
        mat_wf(g),
        mat_complete(g),
        costs_fit(g),
        valid_state(i, m, g.len() as int),
    ensures
        0 < opt_cost(g, i, m) < 0x7fff_ffff,
{
    let n = g.len() as int;
    lemma_opt_bounds(g, i, m);
    lemma_popcnt_bound(m, n);
    lemma_max_entry(g, 0, 0);
    let p = popcnt(m) as int;
    assert((p + 1) * max_entry(g) <= n * max_entry(g)) by (nonlinear_arith)
        requires
            p + 1 <= n,
            max_entry(g) >= 0,
    ;
}

/// The whole reconstructed tour: it has `n + 1` entries, starts and ends at
/// node 0, its interior visits each of `1 .. n-1` exactly once, and its walk
/// cost equals the final Held-Karp value.
pub proof fn lemma_tour(g: Seq<Seq<int>>)
    requires
        mat_wf(g),
        mat_complete(g),
    ensures
        tour_of(g).len() == g.len() + 1,
        tour_of(g)[0] == 0,
        tour_of(g)[g.len() as int] == 0,
        forall|p: int| 1 <= p < g.len() ==> 1 <= #[trigger] tour_of(g)[p] < g.len(),
        forall|p: int, q: int| 1 <= p < q < g.len() ==> tour_of(g)[p] != tour_of(g)[q],
        forall|x: int|
            1 <= x < g.len() ==> #[trigger] tour_of(g).subrange(1, g.len() as int).contains(x),
        walk_cost(g, 0, tour_of(g).drop_first()) == opt_cost(g, 0, full_mask(g.len() as int)),
{
    let n = g.len() as int;
    let full = full_mask(n);
    lemma_full_mask(n);
    assert(full >= 2) by {
        lemma_bit_ge(full, 1);
        vstd::arithmetic::power2::lemma2_to64();
    }
    lemma_best_some(g, 0, full);
    lemma_best_props(g, 0, full, n);
    let t = tour_of(g);
    match best(g, 0, full, n) {
        Some(cn) => {
            let k0 = cn.1;
            lemma_bit_ge(full, k0);
            lemma_clear_bit(full, k0);
            lemma_clear_keeps_valid(full, n, k0);
            let m2 = full - pow2(k0 as nat);
            lemma_rec_tail(g, k0, m2);
            let t2 = rec_tail(g, k0, m2);
            assert(t == seq![0int, k0] + t2);
            let pc = popcnt(m2) as int;
            assert(pc == n - 2);
            assert(t.len() == n + 1);
            assert(forall|p: int| 2 <= p < t.len() ==> t[p] == t2[p - 2]);
            assert forall|p: int| 1 <= p < n implies 1 <= #[trigger] t[p] < n by {
                if p == 1 {
                    lemma_bit_bound(full, n, k0);
                } else {
                    assert(bit(m2, t2[p - 2]));
                    lemma_bit_bound(m2, n, t2[p - 2]);
                    lemma_bit0(m2);
                }
            }
            assert forall|p: int, q: int| 1 <= p < q < n implies t[p] != t[q] by {
                if p == 1 {
                    assert(bit(m2, t2[q - 2]));
                    assert(!bit(m2, k0));
                }
            }
            let interior = t.subrange(1, n);
            assert(forall|p: int| 0 <= p < interior.len() ==> interior[p] == t[p + 1]);
            assert forall|x: int| 1 <= x < n implies #[trigger] interior.contains(x) by {
                assert(bit(full, x));
                if x == k0 {
                    assert(interior[0] == x);
                } else {
                    assert(bit(m2, x));
                    let p2 = choose|p2: int| 0 <= p2 < popcnt(m2) && t2[p2] == x;
                    assert(t[p2 + 2] == x);
                    assert(interior[p2 + 1] == x);
                }
            }
            assert(t.drop_first() =~= seq![k0] + t2);
            assert(walk_cost(g, 0, t.drop_first()) == g[0][k0] + walk_cost(g, k0, (seq![k0]
                + t2).drop_first()));
            assert((seq![k0] + t2).drop_first() =~= t2);
            assert(opt_cost(g, 0, full) == cn.0);
        },
        None => {},
    }
}

} // verus!
