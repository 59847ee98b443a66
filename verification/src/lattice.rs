//! Points of the hexagonal (A₂) lattice as Eisenstein integers `a + bω`,
//! and the lattice operations that the `eisenstein` crate provides.

use vstd::prelude::*;
use eisenstein::{E12, HexDisk};

verus! {

/// A point `a + bω` of the Eisenstein lattice, in axial hex coordinates.
#[derive(Debug, Clone, Copy, PartialEq, Eq, Structural, Hash)]
pub struct HexCoord {
    pub a: i32,
    pub b: i32,
}

pub open spec fn abs(x: int) -> int {
    if x < 0 {
        -x
    } else {
        x
    }
}

/// The hex distance of `a + bω` from the origin: the number of unit steps
/// between them, `(|a| + |b| + |a + b|) / 2`.
pub open spec fn hex_norm(a: int, b: int) -> int {
    (abs(a) + abs(b) + abs(a + b)) / 2
}

/// The hex distance of `a + bω` can be computed in `i32`.
pub open spec fn hex_norm_fits(a: int, b: int) -> bool {
    abs(a) + abs(b) + abs(a + b) <= i32::MAX
}

/// The difference of two points can be computed in `i32`.
pub open spec fn difference_fits(p: HexCoord, q: HexCoord) -> bool {
    i32::MIN <= p.a - q.a <= i32::MAX && i32::MIN <= p.b - q.b <= i32::MAX
}

/// The hex distance between two points does not depend on the order in
/// which they are taken.
pub proof fn lemma_hex_norm_symmetric(a: int, b: int)
    ensures
        hex_norm(a, b) == hex_norm(-a, -b),
        hex_norm_fits(a, b) == hex_norm_fits(-a, -b),
{
}

/// `E12::hex_distance`: `(|a| + |b| + |a + b|) / 2` computed in `i32`, as
/// the crate documents it and its source computes it.
#[verifier::external_body]
fn e12_hex_distance(a: i32, b: i32) -> (d: u32)
    requires
        hex_norm_fits(a as int, b as int),
    ensures
        d == hex_norm(a as int, b as int),
{
    E12::new(a, b).hex_distance()
}

/// `E12 - E12`: the componentwise difference, computed in `i32`.
#[verifier::external_body]
fn e12_sub(a1: i32, b1: i32, a2: i32, b2: i32) -> (r: (i32, i32))
    requires
        i32::MIN <= a1 - a2 <= i32::MAX,
        i32::MIN <= b1 - b2 <= i32::MAX,
    ensures
        r.0 == a1 - a2,
        r.1 == b1 - b2,
{
    let d = E12::new(a1, b1) - E12::new(a2, b2);
    (d.a(), d.b())
}

impl HexCoord {
    /// The point `a + bω`.
    pub fn new(a: i32, b: i32) -> (p: HexCoord)
        ensures
            p == (HexCoord { a, b }),
    {
        HexCoord { a, b }
    }

    /// The real coefficient.
    pub fn a(&self) -> (r: i32)
        ensures
            r == self.a,
    {
        self.a
    }

    /// The ω coefficient.
    pub fn b(&self) -> (r: i32)
        ensures
            r == self.b,
    {
        self.b
    }

    /// The hex distance from the origin.
    pub fn hex_distance(&self) -> (d: u32)
        requires
            hex_norm_fits(self.a as int, self.b as int),
        ensures
            d == hex_norm(self.a as int, self.b as int),
    {
        e12_hex_distance(self.a, self.b)
    }

    /// The difference `self - other`.
    pub fn minus(&self, other: &HexCoord) -> (d: HexCoord)
        requires
            difference_fits(*self, *other),
        ensures
            d.a == self.a - other.a,
            d.b == self.b - other.b,
    {
        let (a, b) = e12_sub(self.a, self.b, other.a, other.b);
        HexCoord { a, b }
    }
}

// ---------------------------------------------------------------------------
// Hex disks
// ---------------------------------------------------------------------------

/// The `k`-th point of the square `[-r, r]²` walked row by row (`a` outer,
/// `b` inner).
pub open spec fn square_point(r: int, k: int) -> HexCoord {
    let w = 2 * r + 1;
    HexCoord { a: (k / w - r) as i32, b: (k % w - r) as i32 }
}

/// Points within hex distance `r` of the origin.
pub open spec fn in_disk(r: int) -> spec_fn(HexCoord) -> bool {
    |p: HexCoord| hex_norm(p.a as int, p.b as int) <= r
}

/// The points of the disk of radius `r` in the order the crate walks them:
/// `a` from `-r` to `r`, and for each `a`, `b` from `-r` to `r`, keeping the
/// points within hex distance `r`.
pub open spec fn disk_scan(r: int) -> Seq<HexCoord> {
    Seq::new(((2 * r + 1) * (2 * r + 1)) as nat, |k: int| square_point(r, k)).filter(in_disk(r))
}

/// Radii whose disk the crate can walk without `i32` overflow.
pub open spec fn disk_radius_ok(r: int) -> bool {
    0 <= r <= 536_870_911
}

/// `HexDisk::radius(r).iter()`, each point taken as a `HexCoord`: the points
/// of the disk in the crate's walking order.
#[verifier::external_body]
pub(crate) fn hex_disk_points(radius: u32) -> (v: Vec<HexCoord>)
    requires
        disk_radius_ok(radius as int),
    ensures
        v@ == disk_scan(radius as int),
{
    HexDisk::radius(radius).iter().map(|e| HexCoord { a: e.a(), b: e.b() }).collect()
}

/// `HexDisk::radius(r).count()`: `3r² + 3r + 1`, computed in `u64`.
#[verifier::external_body]
pub(crate) fn hex_disk_count(radius: u32) -> (n: u64)
    requires
        3 * radius * radius + 3 * radius + 1 <= u64::MAX,
    ensures
        n == 3 * radius * radius + 3 * radius + 1,
{
    HexDisk::radius(radius).count()
}


// ---------------------------------------------------------------------------
// The size of a disk
// ---------------------------------------------------------------------------

/// Filtering keeps exactly the elements of an index interval when the
/// predicate holds there and nowhere else.
proof fn lemma_filter_interval<A>(s: Seq<A>, pred: spec_fn(A) -> bool, lo: int, hi: int)
    requires
        0 <= lo <= hi <= s.len(),
        forall|i: int| 0 <= i < s.len() ==> pred(#[trigger] s[i]) == (lo <= i < hi),
    ensures
        s.filter(pred).len() == hi - lo,
    decreases s.len(),
{
    reveal(Seq::filter);
    if s.len() > 0 {
        let l = s.len() - 1;
        let t = s.drop_last();
        let lo2 = if lo < l {
            lo
        } else {
            l
        };
        let hi2 = if hi < l {
            hi
        } else {
            l
        };
        assert forall|i: int| 0 <= i < t.len() implies pred(#[trigger] t[i]) == (lo2 <= i < hi2) by {
            assert(t[i] == s[i]);
        }
        lemma_filter_interval(t, pred, lo2, hi2);
        assert(pred(s[l]) == (lo <= l < hi));
    }
}

/// Row `a` of the square walk: the points `(a - r, j - r)` for `j` in
/// `0..2r+1`.
pub open spec fn square_row(r: int, a: int) -> Seq<HexCoord> {
    Seq::new((2 * r + 1) as nat, |j: int| square_point(r, a * (2 * r + 1) + j))
}

/// The sum of the row counts `2r + 1 - |a - r|` over the first `m` rows.
pub open spec fn row_total(r: int, m: int) -> int
    decreases m,
{
    if m <= 0 {
        0
    } else {
        row_total(r, m - 1) + (2 * r + 1 - abs(m - 1 - r))
    }
}

/// The square point of row `a`, column `j` is `(a - r, j - r)`.
proof fn lemma_square_point(r: int, a: int, j: int)
    requires
        disk_radius_ok(r),
        0 <= a < 2 * r + 1,
        0 <= j < 2 * r + 1,
    ensures
        square_point(r, a * (2 * r + 1) + j).a == a - r,
        square_point(r, a * (2 * r + 1) + j).b == j - r,
{
    let w = 2 * r + 1;
    let k = a * w + j;
    assert(k / w == a && k % w == j) by (nonlinear_arith)
        requires
            k == a * w + j,
            0 <= j < w,
            w > 0,
    ;
}

/// Row `a` holds `2r + 1 - |a - r|` points of the disk.
proof fn lemma_row_count(r: int, a: int)
    requires
        disk_radius_ok(r),
        0 <= a < 2 * r + 1,
    ensures
        square_row(r, a).filter(in_disk(r)).len() == 2 * r + 1 - abs(a - r),
{
    let w = 2 * r + 1;
    let q = a - r;
    let row = square_row(r, a);
    let lo = if q < 0 {
        -q
    } else {
        0
    };
    let hi = if q < 0 {
        w
    } else {
        w - q
    };
    assert forall|j: int| 0 <= j < row.len() implies in_disk(r)(#[trigger] row[j]) == (lo <= j
        < hi) by {
        lemma_square_point(r, a, j);
        let s = j - r;
        assert(row[j].a == q && row[j].b == s);
        assert(hex_norm(q, s) <= r <==> (lo <= j < hi));
    }
    lemma_filter_interval(row, in_disk(r), lo, hi);
}

/// The first `m` rows of the square walk, as one sequence.
proof fn lemma_square_rows(r: int, m: int)
    requires
        disk_radius_ok(r),
        0 <= m < 2 * r + 1,
    ensures
        Seq::new(((m + 1) * (2 * r + 1)) as nat, |k: int| square_point(r, k)) =~= Seq::new(
            (m * (2 * r + 1)) as nat,
            |k: int| square_point(r, k),
        ) + square_row(r, m),
{
    let w = 2 * r + 1;
    assert((m + 1) * w == m * w + w) by (nonlinear_arith);
    assert(m * w >= 0) by (nonlinear_arith)
        requires
            m >= 0,
            w > 0,
    ;
}

/// The first `m` rows hold `row_total(r, m)` points of the disk.
proof fn lemma_prefix_count(r: int, m: int)
    requires
        disk_radius_ok(r),
        0 <= m <= 2 * r + 1,
    ensures
        Seq::new((m * (2 * r + 1)) as nat, |k: int| square_point(r, k)).filter(in_disk(r)).len()
            == row_total(r, m),
    decreases m,
{
    let w = 2 * r + 1;
    if m == 0 {
        assert(Seq::new((m * w) as nat, |k: int| square_point(r, k)) =~= Seq::<HexCoord>::empty());
        reveal(Seq::filter);
    } else {
        lemma_prefix_count(r, m - 1);
        lemma_square_rows(r, m - 1);
        lemma_row_count(r, m - 1);
        let prev = Seq::new(((m - 1) * w) as nat, |k: int| square_point(r, k));
        Seq::filter_distributes_over_add(prev, square_row(r, m - 1), in_disk(r));
        assert((m - 1 + 1) * w == m * w);
    }
}

/// Twice the row total over the first `m <= r + 1` rows.
proof fn lemma_row_total_rising(r: int, m: int)
    requires
        r >= 0,
        0 <= m <= r + 1,
    ensures
        2 * row_total(r, m) == m * (2 * r + 2) + m * (m - 1),
    decreases m,
{
    if m > 0 {
        lemma_row_total_rising(r, m - 1);
        assert(2 * row_total(r, m) == 2 * row_total(r, m - 1) + 2 * (r + m));
        let x = 2 * row_total(r, m);
        let y = 2 * row_total(r, m - 1);
        assert(x == m * (2 * r + 2) + m * (m - 1)) by (nonlinear_arith)
            requires
                x == y + 2 * (r + m),
                y == (m - 1) * (2 * r + 2) + (m - 1) * (m - 2),
        ;
    } else {
        assert(m * (2 * r + 2) + m * (m - 1) == 0) by (nonlinear_arith)
            requires
                m == 0,
        ;
    }
}

/// Twice the row total over the first `r + 1 + t` rows, `t <= r`.
proof fn lemma_row_total_falling(r: int, t: int)
    requires
        r >= 0,
        0 <= t <= r,
    ensures
        2 * row_total(r, r + 1 + t) == 2 * row_total(r, r + 1) + 4 * r * t - t * (t - 1),
    decreases t,
{
    if t > 0 {
        lemma_row_total_falling(r, t - 1);
        assert(2 * row_total(r, r + 1 + t) == 2 * row_total(r, r + t) + 2 * (2 * r - (t - 1)));
        let x = 2 * row_total(r, r + 1 + t);
        let y = 2 * row_total(r, r + t);
        let z = 2 * row_total(r, r + 1);
        assert(x == z + 4 * r * t - t * (t - 1)) by (nonlinear_arith)
            requires
                x == y + 2 * (2 * r - (t - 1)),
                y == z + 4 * r * (t - 1) - (t - 1) * (t - 2),
        ;
    } else {
        assert(4 * r * t - t * (t - 1) == 0) by (nonlinear_arith)
            requires
                t == 0,
        ;
    }
}

/// The disk of radius `r` holds `3r² + 3r + 1` points: the walk the crate
/// iterates and the count it reports agree.
pub proof fn lemma_disk_size(r: int)
    requires
        disk_radius_ok(r),
    ensures
        disk_scan(r).len() == 3 * r * r + 3 * r + 1,
{
    lemma_prefix_count(r, 2 * r + 1);
    lemma_row_total_rising(r, r + 1);
    lemma_row_total_falling(r, r);
    let whole = Seq::new(((2 * r + 1) * (2 * r + 1)) as nat, |k: int| square_point(r, k));
    assert(disk_scan(r) == whole.filter(in_disk(r)));
    let x = 2 * row_total(r, 2 * r + 1);
    let z = 2 * row_total(r, r + 1);
    assert(r + 1 + r == 2 * r + 1);
    assert(x == 6 * r * r + 6 * r + 2) by (nonlinear_arith)
        requires
            z == (r + 1) * (2 * r + 2) + (r + 1) * r,
            x == z + 4 * r * r - r * (r - 1),
    ;
    let y = row_total(r, 2 * r + 1);
    assert(y == 3 * r * r + 3 * r + 1) by (nonlinear_arith)
        requires
            x == 2 * y,
            x == 6 * r * r + 6 * r + 2,
    ;
}

} // verus!
