//! The hexagonal spiral along which pages are laid out: the origin, then
//! ring 1 (six points), ring 2 (twelve points), and so on, each ring walked
//! from its East-most point `(k, 0)` through the corners `(0, k)`, `(-k, k)`,
//! `(-k, 0)`, `(0, -k)`, `(k, -k)`.

use vstd::prelude::*;
use crate::lattice::{HexCoord, hex_norm, abs};

verus! {

/// The number of points within hex distance `k` of the origin.
pub open spec fn ring_total(k: int) -> int {
    1 + 3 * k * (k + 1)
}

/// The first ring `k' >= k` whose points reach beyond index `n`.
pub open spec fn ring_from(n: int, k: int) -> int
    decreases n - k,
{
    if k < 1 || n <= k || ring_total(k) > n {
        k
    } else {
        ring_from(n, k + 1)
    }
}

/// The ring of the `n`-th spiral point.
pub open spec fn spiral_ring(n: int) -> int {
    if n <= 0 {
        0
    } else {
        ring_from(n, 1)
    }
}

/// The point at step `t` of side `side` of ring `k`.
pub open spec fn ring_point(k: int, side: int, t: int) -> (int, int) {
    if side == 0 {
        (k - t, t)
    } else if side == 1 {
        (-t, k)
    } else if side == 2 {
        (-k, k - t)
    } else if side == 3 {
        (-k + t, -t)
    } else if side == 4 {
        (t, -k)
    } else {
        (k, -k + t)
    }
}

/// The coordinates of the `n`-th point of the spiral.
pub open spec fn spiral_point(n: int) -> (int, int) {
    if n <= 0 {
        (0, 0)
    } else {
        let k = spiral_ring(n);
        let idx = n - ring_total(k - 1);
        ring_point(k, idx / k, idx % k)
    }
}

/// The `n`-th point of the spiral as a lattice point.
pub open spec fn spiral_position(n: int) -> HexCoord {
    HexCoord { a: spiral_point(n).0 as i32, b: spiral_point(n).1 as i32 }
}

/// Spiral indices whose ring fits in `i32` (the positions are then exact).
pub open spec fn spiral_index_ok(n: int) -> bool {
    0 <= n < ring_total(i32::MAX as int)
}

proof fn lemma_ring_total_step(k: int)
    requires
        k >= 1,
    ensures
        ring_total(k) == ring_total(k - 1) + 6 * k,
        ring_total(k) > k,
{
    assert(3 * k * (k + 1) == 3 * (k - 1) * k + 6 * k) by (nonlinear_arith);
    assert(3 * k * (k + 1) >= 0) by (nonlinear_arith)
        requires
            k >= 1,
    ;
}

proof fn lemma_ring_total_monotone(j: int, k: int)
    requires
        0 <= j <= k,
    ensures
        ring_total(j) <= ring_total(k),
    decreases k - j,
{
    if j < k {
        lemma_ring_total_step(k);
        lemma_ring_total_monotone(j, k - 1);
    }
}

/// The search finds the ring that holds index `n`.
proof fn lemma_ring_from(n: int, k: int)
    requires
        k >= 1,
        ring_total(k - 1) <= n,
    ensures
        ring_from(n, k) >= k,
        ring_total(ring_from(n, k) - 1) <= n < ring_total(ring_from(n, k)),
    decreases n - k,
{
    lemma_ring_total_step(k);
    if ring_total(k) > n {
    } else {
        assert(n >= k);
        lemma_ring_from(n, k + 1);
    }
}

/// The ring of spiral index `n >= 1` is the `k >= 1` with
/// `ring_total(k - 1) <= n < ring_total(k)`; it is the only such ring.
pub proof fn lemma_spiral_ring(n: int)
    requires
        n >= 1,
    ensures
        spiral_ring(n) >= 1,
        ring_total(spiral_ring(n) - 1) <= n < ring_total(spiral_ring(n)),
        forall|k: int|
            k >= 1 && ring_total(k - 1) <= n < #[trigger] ring_total(k) ==> k == spiral_ring(n),
{
    assert(ring_total(0) == 1);
    lemma_ring_from(n, 1);
    let r = spiral_ring(n);
    assert forall|k: int| k >= 1 && ring_total(k - 1) <= n < #[trigger] ring_total(k) implies k == r by {
        if k < r {
            lemma_ring_total_monotone(k, r - 1);
        } else if k > r {
            lemma_ring_total_monotone(r, k - 1);
        }
    }
}

/// The position of index `n` within its ring: a side in `0..6` and a step
/// in `0..k`.
proof fn lemma_spiral_index(n: int)
    requires
        n >= 1,
    ensures
        ({
            let k = spiral_ring(n);
            let idx = n - ring_total(k - 1);
            &&& 0 <= idx < 6 * k
            &&& 0 <= idx / k < 6
            &&& 0 <= idx % k < k
            &&& idx == (idx / k) * k + idx % k
        }),
{
    lemma_spiral_ring(n);
    let k = spiral_ring(n);
    lemma_ring_total_step(k);
    let idx = n - ring_total(k - 1);
    assert(0 <= idx / k < 6 && 0 <= idx % k < k && idx == (idx / k) * k + idx % k)
        by (nonlinear_arith)
        requires
            0 <= idx < 6 * k,
            k >= 1,
    ;
}

/// Every spiral point of ring `k` lies at hex distance `k` from the origin.
pub proof fn lemma_spiral_on_ring(n: int)
    requires
        n >= 0,
    ensures
        hex_norm(spiral_point(n).0, spiral_point(n).1) == spiral_ring(n),
{
    if n >= 1 {
        lemma_spiral_index(n);
    }
}

/// Distinct spiral indices give distinct points: no two pages laid out on
/// the spiral share a position.
pub proof fn lemma_spiral_injective(n1: int, n2: int)
    requires
        0 <= n1,
        0 <= n2,
        n1 != n2,
    ensures
        spiral_point(n1) != spiral_point(n2),
{
    lemma_spiral_on_ring(n1);
    lemma_spiral_on_ring(n2);
    if spiral_ring(n1) == spiral_ring(n2) && n1 >= 1 && n2 >= 1 {
        lemma_spiral_index(n1);
        lemma_spiral_index(n2);
        let k = spiral_ring(n1);
        let i1 = n1 - ring_total(k - 1);
        let i2 = n2 - ring_total(k - 1);
        let s1 = i1 / k;
        let s2 = i2 / k;
        let t1 = i1 % k;
        let t2 = i2 % k;
        assert(s1 != s2 || t1 != t2);
    } else if n1 == 0 || n2 == 0 {
        if n1 >= 1 {
            lemma_spiral_ring(n1);
        }
        if n2 >= 1 {
            lemma_spiral_ring(n2);
        }
    }
}

/// Consecutive spiral points within a ring (and from the origin into ring
/// 1) are neighbours: one unit step apart.
pub proof fn lemma_spiral_steps_within_ring(n: int)
    requires
        n >= 0,
        n == 0 || spiral_ring(n + 1) == spiral_ring(n),
    ensures
        hex_norm(spiral_point(n + 1).0 - spiral_point(n).0, spiral_point(n + 1).1 - spiral_point(
            n,
        ).1) == 1,
{
    if n == 0 {
        lemma_spiral_ring(1);
        assert(ring_total(1) == 7);
        assert(spiral_ring(1) == 1) by {
            assert(ring_total(0) <= 1 < ring_total(1));
        }
    } else {
        lemma_spiral_index(n);
        lemma_spiral_index(n + 1);
        let k = spiral_ring(n);
        let i1 = n - ring_total(k - 1);
        let i2 = i1 + 1;
        let s1 = i1 / k;
        let t1 = i1 % k;
        if t1 + 1 < k {
            assert(i2 / k == s1 && i2 % k == t1 + 1) by (nonlinear_arith)
                requires
                    i1 == s1 * k + t1,
                    i2 == i1 + 1,
                    0 <= t1,
                    t1 + 1 < k,
            ;
        } else {
            assert(i2 / k == s1 + 1 && i2 % k == 0) by (nonlinear_arith)
                requires
                    i1 == s1 * k + t1,
                    i2 == i1 + 1,
                    t1 + 1 == k,
                    k >= 1,
            ;
        }
    }
}

/// The spiral index's position lies in the `i32` range of its ring.
proof fn lemma_spiral_point_bounds(n: int)
    requires
        n >= 0,
    ensures
        abs(spiral_point(n).0) <= spiral_ring(n),
        abs(spiral_point(n).1) <= spiral_ring(n),
{
    if n >= 1 {
        lemma_spiral_index(n);
    }
}

/// The corner `s` (taken modulo 6) of the ring of radius 1, in walking
/// order: `(1, 0)`, `(0, 1)`, `(-1, 1)`, `(-1, 0)`, `(0, -1)`, `(1, -1)`.
/// Ring `k` has the corners `k` times these.
pub open spec fn unit_corner(s: int) -> (int, int) {
    let m = s % 6;
    if m == 0 {
        (1, 0)
    } else if m == 1 {
        (0, 1)
    } else if m == 2 {
        (-1, 1)
    } else if m == 3 {
        (-1, 0)
    } else if m == 4 {
        (0, -1)
    } else {
        (1, -1)
    }
}

/// The spiral index of step `t` on side `s` of ring `k`: the points of the
/// rings inside it come first, then `k` points per side.
pub open spec fn ring_index(k: int, s: int, t: int) -> int {
    ring_total(k - 1) + s * k + t
}

/// Step `t` of side `s` of ring `k` lies on the segment from corner `s` to
/// corner `s + 1`.
proof fn lemma_ring_point_corners(k: int, s: int, t: int)
    requires
        0 <= s < 6,
    ensures
        ring_point(k, s, t) == (
            k * unit_corner(s).0 + t * (unit_corner(s + 1).0 - unit_corner(s).0),
            k * unit_corner(s).1 + t * (unit_corner(s + 1).1 - unit_corner(s).1),
        ),
{
    let (a0, b0) = unit_corner(s);
    let (a1, b1) = unit_corner(s + 1);
    if s == 0 {
        assert(s % 6 == 0 && (s + 1) % 6 == 1);
        assert(k * a0 + t * (a1 - a0) == k - t && k * b0 + t * (b1 - b0) == t) by (nonlinear_arith)
            requires
                a0 == 1,
                b0 == 0,
                a1 == 0,
                b1 == 1,
        ;
    } else if s == 1 {
        assert(s % 6 == 1 && (s + 1) % 6 == 2);
        assert(k * a0 + t * (a1 - a0) == -t && k * b0 + t * (b1 - b0) == k) by (nonlinear_arith)
            requires
                a0 == 0,
                b0 == 1,
                a1 == -1,
                b1 == 1,
        ;
    } else if s == 2 {
        assert(s % 6 == 2 && (s + 1) % 6 == 3);
        assert(k * a0 + t * (a1 - a0) == -k && k * b0 + t * (b1 - b0) == k - t) by (nonlinear_arith)
            requires
                a0 == -1,
                b0 == 1,
                a1 == -1,
                b1 == 0,
        ;
    } else if s == 3 {
        assert(s % 6 == 3 && (s + 1) % 6 == 4);
        assert(k * a0 + t * (a1 - a0) == -k + t && k * b0 + t * (b1 - b0) == -t) by (nonlinear_arith)
            requires
                a0 == -1,
                b0 == 0,
                a1 == 0,
                b1 == -1,
        ;
    } else if s == 4 {
        assert(s % 6 == 4 && (s + 1) % 6 == 5);
        assert(k * a0 + t * (a1 - a0) == t && k * b0 + t * (b1 - b0) == -k) by (nonlinear_arith)
            requires
                a0 == 0,
                b0 == -1,
                a1 == 1,
                b1 == -1,
        ;
    } else {
        assert(s % 6 == 5 && (s + 1) % 6 == 0);
        assert(k * a0 + t * (a1 - a0) == k && k * b0 + t * (b1 - b0) == -k + t) by (nonlinear_arith)
            requires
                a0 == 1,
                b0 == -1,
                a1 == 1,
                b1 == 0,
        ;
    }
}

/// Every ring `k >= 1` is walked the same way: it starts right after the
/// `ring_total(k - 1)` points inside it, and its side `s` runs from corner
/// `C_s = k * unit_corner(s)` toward `C_{s+1}`, one unit step at a time, so
/// that step `t` of side `s` lies at `C_s + t * (C_{s+1} - C_s) / k`.
pub proof fn lemma_spiral_ring_walk(k: int, s: int, t: int)
    requires
        k >= 1,
        0 <= s < 6,
        0 <= t < k,
    ensures
        spiral_point(ring_index(k, s, t)) == (
            k * unit_corner(s).0 + t * (unit_corner(s + 1).0 - unit_corner(s).0),
            k * unit_corner(s).1 + t * (unit_corner(s + 1).1 - unit_corner(s).1),
        ),
{
    let n = ring_total(k - 1) + s * k + t;
    let idx = s * k + t;
    assert(0 <= idx < 6 * k) by (nonlinear_arith)
        requires
            0 <= s < 6,
            0 <= t < k,
            idx == s * k + t,
    ;
    lemma_ring_total_step(k);
    assert(ring_total(k - 1) >= 1) by (nonlinear_arith)
        requires
            k >= 1,
    ;
    lemma_spiral_ring(n);
    assert(spiral_ring(n) == k);
    vstd::arithmetic::div_mod::lemma_fundamental_div_mod_converse(idx, k, s, t);
    assert(idx / k == s && idx % k == t);
    assert(spiral_point(n) == ring_point(k, s, t));
    lemma_ring_point_corners(k, s, t);
}

/// The `n`-th point of the spiral, found by walking the ring sizes.
pub fn spiral_at(n: usize) -> (p: HexCoord)
    requires
        spiral_index_ok(n as int),
    ensures
        p == spiral_position(n as int),
        p.a == spiral_point(n as int).0,
        p.b == spiral_point(n as int).1,
        n == 0 ==> p == (HexCoord { a: 0, b: 0 }),
        forall|k: int, s: int, t: int|
            k >= 1 && 0 <= s < 6 && 0 <= t < k && n == #[trigger] ring_index(k, s, t) ==> p.a == k
                * unit_corner(s).0 + t * (unit_corner(s + 1).0 - unit_corner(s).0) && p.b == k
                * unit_corner(s).1 + t * (unit_corner(s + 1).1 - unit_corner(s).1),
{
    proof {
        assert forall|k: int, s: int, t: int|
            k >= 1 && 0 <= s < 6 && 0 <= t < k && n == #[trigger] ring_index(k, s, t) implies
            spiral_point(n as int) == (
                k * unit_corner(s).0 + t * (unit_corner(s + 1).0 - unit_corner(s).0),
                k * unit_corner(s).1 + t * (unit_corner(s + 1).1 - unit_corner(s).1),
            ) by {
            lemma_spiral_ring_walk(k, s, t);
        }
    }
    if n == 0 {
        return HexCoord { a: 0, b: 0 };
    }
    proof {
        lemma_spiral_ring(n as int);
        lemma_spiral_index(n as int);
        lemma_spiral_point_bounds(n as int);
        let r = spiral_ring(n as int);
        if r > i32::MAX {
            lemma_ring_total_monotone(i32::MAX as int, r - 1);
        }
    }
    let mut k: u64 = 1;
    let mut prev_total: u64 = 1;
    loop
        invariant
            1 <= k <= spiral_ring(n as int),
            spiral_ring(n as int) <= i32::MAX,
            prev_total == ring_total(k - 1),
            prev_total <= n,
            n >= 1,
            ring_from(n as int, k as int) == spiral_ring(n as int),
        ensures
            k == spiral_ring(n as int),
            prev_total == ring_total(k - 1),
        decreases spiral_ring(n as int) - k,
    {
        proof {
            lemma_ring_total_step(k as int);
            lemma_ring_total_monotone(k as int, i32::MAX as int);
            assert(ring_total(i32::MAX as int) < u64::MAX);
        }
        let total = prev_total + 6 * k;
        if total > n as u64 {
            break;
        }
        proof {
            lemma_ring_from(n as int, k as int + 1);
        }
        prev_total = total;
        k = k + 1;
    }
    proof {
        lemma_ring_total_step(k as int);
    }
    let idx = n as u64 - prev_total;
    let side = idx / k;
    let step = (idx % k) as i32;
    let kk = k as i32;
    let (a, b) = if side == 0 {
        (kk - step, step)
    } else if side == 1 {
        (-step, kk)
    } else if side == 2 {
        (-kk, kk - step)
    } else if side == 3 {
        (-kk + step, -step)
    } else if side == 4 {
        (step, -kk)
    } else {
        (kk, -kk + step)
    };
    HexCoord { a, b }
}

} // verus!
