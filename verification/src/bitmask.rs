//! Subsets of nodes encoded as bitmasks, handled with plain arithmetic:
//! bit `j` of a mask `m` is `(m / 2^j) % 2`. Node 0 is never a member, so
//! every mask in use is even.

use vstd::prelude::*;
use vstd::arithmetic::power2::{
    lemma2_to64, lemma_pow2_pos, lemma_pow2_strictly_increases, lemma_pow2_unfold, pow2,
};
use vstd::arithmetic::div_mod::{
    lemma_basic_div, lemma_div_denominator, lemma_div_is_ordered, lemma_div_pos_is_pos,
    lemma_div_multiples_vanish, lemma_fundamental_div_mod, lemma_fundamental_div_mod_converse,
    lemma_hoist_over_denominator, lemma_mod_multiples_basic,
};

verus! {

/// Whether bit `j` is set in the mask `m`.
pub open spec fn bit(m: int, j: int) -> bool {
    j >= 0 && (m / pow2(j as nat) as int) % 2 == 1
}

/// The number of set bits of a non-negative mask.
pub open spec fn popcnt(m: int) -> nat
    decreases m when m >= 0
{
    if m <= 0 {
        0
    } else {
        (m % 2) as nat + popcnt(m / 2)
    }
}

/// A mask only has set bits, and so a positive popcount, when it is positive.
pub proof fn lemma_popcnt_zero(m: int)
    requires
        m >= 0,
    ensures
        popcnt(m) == 0 <==> m == 0,
    decreases m,
{
    if m > 0 {
        if m % 2 == 0 {
            lemma_fundamental_div_mod(m, 2);
            lemma_popcnt_zero(m / 2);
        }
    }
}

/// A popcount never exceeds the mask itself.
pub proof fn lemma_popcnt_le_self(m: int)
    requires
        m >= 0,
    ensures
        popcnt(m) <= m,
    decreases m,
{
    if m > 0 {
        lemma_fundamental_div_mod(m, 2);
        lemma_popcnt_le_self(m / 2);
    }
}

/// Bit `k >= 1` of `m` is bit `k - 1` of `m / 2`.
pub proof fn lemma_bit_shift(m: int, k: int)
    requires
        m >= 0,
        k >= 1,
    ensures
        bit(m, k) == bit(m / 2, k - 1),
{
    lemma_pow2_unfold(k as nat);
    lemma_pow2_pos((k - 1) as nat);
    lemma_div_denominator(m, 2, pow2((k - 1) as nat) as int);
}

/// A mask with bit `j` set is at least `2^j`.
pub proof fn lemma_bit_ge(m: int, j: int)
    requires
        m >= 0,
        bit(m, j),
    ensures
        m >= pow2(j as nat),
{
    lemma_pow2_pos(j as nat);
    if m < pow2(j as nat) {
        lemma_basic_div(m, pow2(j as nat) as int);
    }
}

/// A mask below `2^n` only has bits below `n`.
pub proof fn lemma_bit_bound(m: int, n: int, j: int)
    requires
        0 <= m < pow2(n as nat),
        n >= 0,
        bit(m, j),
    ensures
        0 <= j < n,
    {
    lemma_bit_ge(m, j);
    if j >= n {
        if j > n {
            lemma_pow2_strictly_increases(n as nat, j as nat);
        }
    }
}

/// Bit 0 is the parity bit.
pub proof fn lemma_bit0(m: int)
    requires
        m >= 0,
    ensures
        bit(m, 0) <==> m % 2 == 1,
{
    lemma2_to64();
    lemma_fundamental_div_mod_converse(m, 1, m, 0);
}

/// Clearing the set bit `j` of `m` (by subtracting `2^j`) lowers the popcount
/// by one, clears exactly that bit, and leaves every other bit alone.
pub proof fn lemma_clear_bit(m: int, j: int)
    requires
        m >= 0,
        bit(m, j),
    ensures
        0 <= m - pow2(j as nat),
        popcnt(m - pow2(j as nat)) == popcnt(m) - 1,
        popcnt(m) >= 1,
        !bit(m - pow2(j as nat), j),
        forall|k: int| k != j ==> bit(m - pow2(j as nat), k) == bit(m, k),
    decreases j,
{
    lemma_bit_ge(m, j);
    let p = pow2(j as nat) as int;
    let m2 = m - p;
    lemma_fundamental_div_mod(m, 2);
    if j == 0 {
        lemma2_to64();
        lemma_bit0(m);
        // m is odd, so m - 1 has the same upper bits and an even parity bit.
        lemma_fundamental_div_mod_converse(m2, 2, m / 2, 0);
        lemma_bit0(m2);
        assert(popcnt(m) == 1 + popcnt(m / 2));
        assert(popcnt(m2) == popcnt(m / 2)) by {
            if m2 > 0 {
                lemma_fundamental_div_mod(m2, 2);
            }
        }
        assert forall|k: int| k != 0 implies bit(m2, k) == bit(m, k) by {
            if k >= 1 {
                lemma_bit_shift(m2, k);
                lemma_bit_shift(m, k);
            }
        }
    } else {
        lemma_pow2_unfold(j as nat);
        let ph = pow2((j - 1) as nat) as int;
        lemma_pow2_pos((j - 1) as nat);
        // m - 2^j keeps the parity of m and halves to m/2 - 2^(j-1).
        lemma_fundamental_div_mod_converse(m2, 2, m / 2 - ph, m % 2);
        lemma_bit_shift(m, j);
        lemma_div_pos_is_pos(m, 2);
        lemma_clear_bit(m / 2, j - 1);
        assert(popcnt(m2) == (m2 % 2) as nat + popcnt(m2 / 2)) by {
            lemma_popcnt_zero(m / 2);
        }
        lemma_bit_shift(m2, j);
        lemma_bit0(m);
        lemma_bit0(m2);
        assert forall|k: int| k != j implies bit(m2, k) == bit(m, k) by {
            if k >= 1 {
                lemma_bit_shift(m2, k);
                lemma_bit_shift(m, k);
            }
        }
    }
}

/// A mask below `2^n` has at most `n` set bits; an even one at most `n - 1`.
pub proof fn lemma_popcnt_bound(m: int, n: int)
    requires
        0 <= m < pow2(n as nat),
        n >= 0,
    ensures
        popcnt(m) <= n,
        m % 2 == 0 && n >= 1 ==> popcnt(m) <= n - 1,
    decreases n,
{
    if m > 0 {
        lemma_pow2_pos(0);
        if n == 0 {
            // impossible: m < pow2(0) == 1
            lemma2_to64();
        } else {
            lemma_pow2_unfold(n as nat);
            let ph = pow2((n - 1) as nat) as int;
            // m / 2 < 2^(n-1)
            lemma_div_is_ordered(m, 2 * ph - 1, 2);
            lemma_fundamental_div_mod_converse(2 * ph - 1, 2, ph - 1, 1);
            lemma_div_pos_is_pos(m, 2);
            lemma_popcnt_bound(m / 2, n - 1);
        }
    }
}

/// The bits of the all-ones mask `2^n - 1` are exactly `0 .. n`, so its
/// popcount is `n`.
pub proof fn lemma_ones_mask(n: int)
    requires
        n >= 0,
    ensures
        popcnt(pow2(n as nat) - 1) == n,
        forall|k: int| #[trigger] bit(pow2(n as nat) - 1, k) <==> 0 <= k < n,
    decreases n,
{
    lemma_pow2_pos(n as nat);
    let m = pow2(n as nat) - 1;
    if n == 0 {
        lemma2_to64();
        assert forall|k: int| bit(m, k) <==> 0 <= k < n by {
            if k >= 0 {
                lemma_pow2_pos(k as nat);
                lemma_basic_div(0, pow2(k as nat) as int);
            }
        }
    } else {
        lemma_pow2_unfold(n as nat);
        let ph = pow2((n - 1) as nat) as int;
        lemma_pow2_pos((n - 1) as nat);
        lemma_fundamental_div_mod_converse(m, 2, ph - 1, 1);
        lemma_ones_mask(n - 1);
        lemma_bit0(m);
        assert forall|k: int| bit(m, k) <==> 0 <= k < n by {
            if k >= 1 {
                lemma_bit_shift(m, k);
            }
        }
    }
}

/// The mask `2^n - 2` holds exactly the bits `1 .. n`: it is even, its
/// popcount is `n - 1`, and clearing any of its bits keeps a valid mask.
pub proof fn lemma_full_mask(n: int)
    requires
        n >= 1,
    ensures
        (pow2(n as nat) - 2) % 2 == 0,
        0 <= pow2(n as nat) - 2 < pow2(n as nat),
        popcnt(pow2(n as nat) - 2) == n - 1,
        forall|k: int| #[trigger] bit(pow2(n as nat) - 2, k) <==> 1 <= k < n,
{
    lemma_pow2_unfold(n as nat);
    let ph = pow2((n - 1) as nat) as int;
    lemma_pow2_pos((n - 1) as nat);
    let m = pow2(n as nat) - 2;
    lemma_fundamental_div_mod_converse(m, 2, ph - 1, 0);
    lemma_ones_mask(n - 1);
    lemma_bit0(m);
    assert(popcnt(m) == popcnt(ph - 1)) by {
        if m > 0 {
            lemma_fundamental_div_mod(m, 2);
        } else {
            lemma_popcnt_zero(ph - 1);
        }
    }
    assert forall|k: int| bit(m, k) <==> 1 <= k < n by {
        if k >= 1 {
            lemma_bit_shift(m, k);
        }
    }
}

/// Computes `2^e`.
pub fn two_to(e: usize) -> (r: usize)
    requires
        pow2(e as nat) <= usize::MAX,
    ensures
        r == pow2(e as nat),
{
    let mut r: usize = 1;
    let mut i: usize = 0;
    proof {
        lemma2_to64();
    }
    while i < e
        invariant
            i <= e,
            r == pow2(i as nat),
            pow2(e as nat) <= usize::MAX,
        decreases e - i,
    {
        proof {
            lemma_pow2_unfold((i + 1) as nat);
            if i + 1 < e {
                lemma_pow2_strictly_increases((i + 1) as nat, e as nat);
            }
        }
        r = r * 2;
        i += 1;
    }
    r
}

/// Tests bit `j` of the mask `m`.
pub fn mask_bit(m: usize, j: usize) -> (r: bool)
    requires
        pow2(j as nat) <= usize::MAX,
    ensures
        r == bit(m as int, j as int),
{
    let p = two_to(j);
    proof {
        lemma_pow2_pos(j as nat);
    }
    (m / p) % 2 == 1
}

/// Counts the set bits of the mask `m`.
pub fn popcount(m: usize) -> (r: usize)
    ensures
        r == popcnt(m as int),
{
    let mut r: usize = 0;
    let mut x: usize = m;
    proof {
        lemma_popcnt_le_self(m as int);
    }
    while x > 0
        invariant
            r + popcnt(x as int) == popcnt(m as int),
            popcnt(m as int) <= m,
        decreases x,
    {
        proof {
            lemma_popcnt_zero(x as int);
            lemma_fundamental_div_mod(x as int, 2);
        }
        if x % 2 == 1 {
            r += 1;
        }
        x = x / 2;
    }
    proof {
        lemma_popcnt_zero(0);
    }
    r
}


/// A valid (even) mask below `2^n` is twice its half, and the half lies
/// below `2^(n-1)`: the memo can be indexed densely by `m / 2`.
pub proof fn lemma_mask_half(m: int, n: int)
    requires
        0 <= m < pow2(n as nat),
        m % 2 == 0,
        n >= 1,
    ensures
        0 <= m / 2 < pow2((n - 1) as nat),
        m == 2 * (m / 2),
{
    lemma_pow2_unfold(n as nat);
    let ph = pow2((n - 1) as nat) as int;
    lemma_pow2_pos((n - 1) as nat);
    lemma_div_is_ordered(m, 2 * ph - 2, 2);
    lemma_fundamental_div_mod_converse(2 * ph - 2, 2, ph - 1, 0);
    lemma_fundamental_div_mod(m, 2);
    lemma_div_pos_is_pos(m, 2);
}


/// The zero mask has no set bits.
pub proof fn lemma_bit_zero()
    ensures
        forall|j: int| !(#[trigger] bit(0, j)),
{
    assert forall|j: int| !(#[trigger] bit(0, j)) by {
        if j >= 0 {
            lemma_pow2_pos(j as nat);
            lemma_basic_div(0, pow2(j as nat) as int);
        }
    }
}


/// The number of integers below `k` whose bit `j` is set.
pub open spec fn bitcount(j: int, k: int) -> nat
    decreases k,
{
    if k <= 0 {
        0
    } else {
        bitcount(j, k - 1) + if bit(k - 1, j) {
            1nat
        } else {
            0nat
        }
    }
}

/// At most every integer below `u` has the bit set.
pub proof fn lemma_bitcount_le(j: int, u: int)
    requires
        u >= 0,
    ensures
        bitcount(j, u) <= u,
    decreases u,
{
    if u > 0 {
        lemma_bitcount_le(j, u - 1);
    }
}

/// Below `2^j` the bit `j` is never set.
pub proof fn lemma_bitcount_small(j: int, u: int)
    requires
        0 <= j,
        0 <= u <= pow2(j as nat),
    ensures
        bitcount(j, u) == 0,
    decreases u,
{
    if u > 0 {
        lemma_bitcount_small(j, u - 1);
        if bit(u - 1, j) {
            lemma_bit_ge(u - 1, j);
        }
    }
}

/// In the window `[2^t, 2^t + u)` bit `t` is set everywhere, and every other
/// bit behaves as over `[0, u)`.
pub proof fn lemma_bitcount_window(j: int, t: int, u: int)
    requires
        0 <= j,
        0 <= t,
        0 <= u <= pow2(t as nat),
    ensures
        bitcount(j, pow2(t as nat) + u) == bitcount(j, pow2(t as nat) as int) + if j == t {
            u as nat
        } else {
            bitcount(j, u)
        },
    decreases u,
{
    if u > 0 {
        lemma_bitcount_window(j, t, u - 1);
        let p = pow2(t as nat) as int;
        let x = p + u - 1;
        lemma_pow2_pos(t as nat);
        assert(x / p == 1) by {
            lemma_hoist_over_denominator(u - 1, 1, pow2(t as nat));
            lemma_basic_div(u - 1, p);
        }
        assert(bit(x, t));
        lemma_clear_bit(x, t);
        assert(forall|k: int| k != t ==> bit(u - 1, k) == bit(x, k));
    }
}

/// Below `2^k`, a bit `j < k` is set in exactly half the integers.
pub proof fn lemma_bitcount_pow2(j: int, k: int)
    requires
        0 <= j < k,
    ensures
        bitcount(j, pow2(k as nat) as int) == pow2((k - 1) as nat),
    decreases k,
{
    lemma_pow2_unfold(k as nat);
    lemma_pow2_pos((k - 1) as nat);
    lemma_bitcount_window(j, k - 1, pow2((k - 1) as nat) as int);
    if j == k - 1 {
        lemma_bitcount_small(j, pow2((k - 1) as nat) as int);
    } else {
        lemma_bitcount_pow2(j, k - 1);
        lemma_pow2_unfold((k - 1) as nat);
    }
}

/// Only the all-ones value can have `k` set bits below `2^k`.
pub proof fn lemma_ones_of_popcnt(h: int, k: int)
    requires
        k >= 0,
        0 <= h < pow2(k as nat),
        popcnt(h) >= k,
    ensures
        h == pow2(k as nat) - 1,
    decreases k,
{
    lemma2_to64();
    if k > 0 {
        lemma_pow2_unfold(k as nat);
        let ph = pow2((k - 1) as nat) as int;
        lemma_pow2_pos((k - 1) as nat);
        lemma_fundamental_div_mod(h, 2);
        lemma_div_pos_is_pos(h, 2);
        assert(h / 2 <= ph - 1) by {
            lemma_div_is_ordered(h, 2 * ph - 1, 2);
            lemma_fundamental_div_mod_converse(2 * ph - 1, 2, ph - 1, 1);
        }
        lemma_popcnt_bound(h / 2, k - 1);
        lemma_ones_of_popcnt(h / 2, k - 1);
    }
}


/// Doubling shifts the bits up and keeps the popcount.
pub proof fn lemma_popcnt_double(h: int)
    requires
        h >= 0,
    ensures
        popcnt(2 * h) == popcnt(h),
{
    if h > 0 {
        lemma_mod_multiples_basic(h, 2);
        lemma_div_multiples_vanish(h, 2);
    }
}

} // verus!
