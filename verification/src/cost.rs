//! Read-distance pricing for the Bill Dally 2D Manhattan model.
//!
//! The cell at 1-based address `idx` sits at Manhattan distance
//! `ceil(sqrt(idx))` from the processor; reading it costs that distance.

use vstd::arithmetic::power2::{
    lemma2_to64, lemma_pow2_adds, lemma_pow2_pos, lemma_pow2_strictly_increases, pow2,
};
use vstd::bits::{lemma_u64_shl_is_mul, lemma_u64_shr_is_div};
use vstd::prelude::*;
use vstd::std_specs::bits::axiom_u64_leading_zeros;

verus! {

/// `c` is the square root of `idx`, rounded up.
pub open spec fn is_distance(idx: nat, c: nat) -> bool {
    &&& idx <= c * c
    &&& c > 0 ==> (c - 1) * (c - 1) < idx
}

/// Distance of cell `idx` from the processor: `ceil(sqrt(idx))`.
pub open spec fn distance(idx: nat) -> nat {
    choose|c: nat| #[trigger] is_distance(idx, c)
}

/// At most one number is the rounded-up square root of `idx`.
pub proof fn lemma_distance_is(idx: nat, c: nat)
    requires
        is_distance(idx, c),
    ensures
        distance(idx) == c,
{
    let d = distance(idx);
    assert(is_distance(idx, d));
    if d < c {
        assert(d * d <= (c - 1) * (c - 1)) by (nonlinear_arith)
            requires
                0 <= d <= c - 1,
        ;
    } else if c < d {
        assert(c * c <= (d - 1) * (d - 1)) by (nonlinear_arith)
            requires
                0 <= c <= d - 1,
        ;
    }
}

/// Every number has a rounded-up square root.
pub proof fn lemma_distance_exists(idx: nat)
    ensures
        is_distance(idx, distance(idx)),
    decreases idx,
{
    if idx == 0 {
        assert(is_distance(0, 0));
    } else {
        let below = (idx - 1) as nat;
        lemma_distance_exists(below);
        let d = distance(below);
        if idx <= d * d {
            assert(is_distance(idx, d));
        } else {
            assert(d * d == below);
            assert((d + 1) * (d + 1) >= d * d + 1) by (nonlinear_arith);
            assert(is_distance(idx, d + 1));
        }
    }
}

/// The distance of a cell is the one whole number whose square reaches
/// its address while the square of the number before does not: cell
/// `c * c` is the last one at distance `c`.
pub proof fn law_distance_is_rounded_up_root(idx: nat, c: nat)
    requires
        idx >= 1,
    ensures
        distance(idx) >= 1,
        idx <= distance(idx) * distance(idx),
        (distance(idx) - 1) * (distance(idx) - 1) < idx,
        c >= 1 && (c - 1) * (c - 1) < idx <= c * c ==> distance(idx) == c,
        c >= 1 ==> distance(c * c) == c,
        c >= 1 ==> distance(c * c + 1) == c + 1,
{
    lemma_distance_exists(idx);
    if distance(idx) == 0 {
        assert(0nat * 0nat == 0);
    }
    if c >= 1 && (c - 1) * (c - 1) < idx <= c * c {
        lemma_distance_is(idx, c);
    }
    if c >= 1 {
        assert((c - 1) * (c - 1) < c * c < (c + 1) * (c + 1)) by (nonlinear_arith)
            requires
                c >= 1,
        ;
        lemma_distance_is(c * c, c);
        lemma_distance_is(c * c + 1, c + 1);
    }
}

/// A nearer cell never costs more than a farther one.
pub proof fn law_cost_grows_with_distance(near: nat, far: nat)
    requires
        near <= far,
    ensures
        distance(near) <= distance(far),
{
    lemma_distance_exists(near);
    lemma_distance_exists(far);
    let n = distance(near);
    let f = distance(far);
    if f < n {
        assert(f * f <= (n - 1) * (n - 1)) by (nonlinear_arith)
            requires
                0 <= f <= n - 1,
        ;
    }
}

/// One Newton step from an overestimate of the root of `n` yields an
/// overestimate again, up to rounding.
proof fn lemma_newton_step(n: nat, x: nat, y: nat)
    requires
        x > 0,
        n < (x + 1) * (x + 1),
        y == (x + n / x) / 2,
    ensures
        n / x <= x + 2,
        n < (y + 1) * (y + 1),
        y >= x ==> x * x <= n,
{
    let q = n / x;
    assert(q * x <= n < (q + 1) * x) by (nonlinear_arith)
        requires
            x > 0,
            q == n / x,
    ;
    assert(q <= x + 2) by (nonlinear_arith)
        requires
            x > 0,
            q * x <= n,
            n < (x + 1) * (x + 1),
    ;
    assert(2 * (y + 1) >= x + q + 1);
    assert((x + q + 1) * (x + q + 1) >= 4 * (x * (q + 1))) by (nonlinear_arith);
    assert(4 * ((y + 1) * (y + 1)) >= (x + q + 1) * (x + q + 1)) by (nonlinear_arith)
        requires
            2 * (y + 1) >= x + q + 1,
    ;
    assert((q + 1) * x == x * (q + 1)) by (nonlinear_arith);
    if y >= x {
        assert(q >= x);
        assert(x * x <= q * x) by (nonlinear_arith)
            requires
                q >= x,
        ;
    }
}

/// The power of two with half the bit length of `n`, rounded up, is an
/// overestimate of the root of `n`.
proof fn lemma_newton_seed(n: u64, bits: u32, half: u32)
    requires
        n >= 2,
        bits == 64 - vstd::std_specs::bits::u64_leading_zeros(n),
        half == (bits + 1) / 2,
    ensures
        0 < half <= 32,
        (1u64 << (half as u64)) == pow2(half as nat),
        pow2(half as nat) <= 0x1_0000_0000,
        n < pow2(half as nat) * pow2(half as nat),
{
    axiom_u64_leading_zeros(n);
    lemma2_to64();
    if bits == 64 {
        assert(n < pow2(64));
    } else {
        assert(n >> (bits as u64) == 0);
        lemma_u64_shr_is_div(n, bits as u64);
        lemma_pow2_pos(bits as nat);
        if bits == 0 {
            assert(n >> 0u64 == n) by (bit_vector);
        }
        assert(n < pow2(bits as nat)) by (nonlinear_arith)
            requires
                n as nat / pow2(bits as nat) == 0,
                pow2(bits as nat) > 0,
        ;
    }
    if half < 32 {
        lemma_pow2_strictly_increases(half as nat, 32);
    }
    assert(1 * pow2(half as nat) == pow2(half as nat));
    lemma_u64_shl_is_mul(1, half as u64);
    lemma_pow2_adds(half as nat, half as nat);
    if bits < 2 * half {
        lemma_pow2_strictly_increases(bits as nat, (2 * half) as nat);
    }
}

/// Exact integer square root, rounded down.
fn isqrt(n: u64) -> (r: u64)
    ensures
        r * r <= n < (r + 1) * (r + 1),
        r <= 0x1_0000_0000,
{
    if n < 2 {
        assert(n * n <= n < (n + 1) * (n + 1)) by (nonlinear_arith)
            requires
                0 <= n < 2,
        ;
        return n;
    }
    // Integer Newton from a power-of-two seed (bit length halved).
    let bits: u32 = 64 - n.leading_zeros();
    let half: u32 = (bits + 1) / 2;
    proof {
        lemma_newton_seed(n, bits, half);
    }
    let mut x: u64 = 1u64 << (half as u64);
    assert(n < (x + 1) * (x + 1)) by (nonlinear_arith)
        requires
            n < x * x,
            x >= 0,
    ;
    loop
        invariant
            0 < x <= 0x1_0000_0000,
            n >= 2,
            n < (x + 1) * (x + 1),
        ensures
            x * x <= n < (x + 1) * (x + 1),
            0 < x <= 0x1_0000_0000,
        decreases x,
    {
        proof {
            lemma_newton_step(n as nat, x as nat, ((x + n / x) / 2) as nat);
        }
        let y: u64 = (x + n / x) / 2;
        if y >= x {
            break;
        }
        assert(y > 0) by (nonlinear_arith)
            requires
                n >= 2,
                n < (y + 1) * (y + 1),
                y >= 0,
        ;
        x = y;
    }
    x
}

/// Cost of reading the cell at 1-based address `idx`:
/// `ceil(sqrt(idx))`, computed exactly as `isqrt(idx - 1) + 1`.
pub fn cost(idx: u32) -> (c: u64)
    requires
        idx >= 1,
    ensures
        c == distance(idx as nat),
        is_distance(idx as nat, c as nat),
        idx <= c * c,
        (c - 1) * (c - 1) < idx,
        1 <= c <= 65536,
        idx <= 65536 ==> c <= 256,
{
    let a: u64 = (idx - 1) as u64;
    let r: u64 = isqrt(a);
    assert(r <= 65535) by (nonlinear_arith)
        requires
            r * r <= a,
            a <= 0xffff_fffe,
            r >= 0,
    ;
    proof {
        if idx <= 65536 {
            assert(r <= 255) by (nonlinear_arith)
                requires
                    r * r <= a,
                    a <= 65535,
                    r >= 0,
            ;
        }
        lemma_distance_is(idx as nat, (r + 1) as nat);
    }
    r + 1
}

} // verus!
