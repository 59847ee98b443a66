//! Sweep cuts of a graph: the prefix cuts of a vertex order, each with its
//! boundary and the volume of its smaller side, and the one of least
//! conductance (boundary over smaller volume).  Sweeping the vertices in the
//! order of the Fiedler vector gives the Cheeger estimate of the layout
//! analysis.

use vstd::prelude::*;
use crate::structure::{compute_degrees, is_square, lemma_trues_bound, trues};

verus! {

// ---------------------------------------------------------------------------
// Prefix cuts
// ---------------------------------------------------------------------------

/// The vertices among the first `k` of `order`, as marks over `n` vertices.
pub open spec fn prefix_marks(order: Seq<usize>, n: int, k: int) -> Seq<bool>
    decreases k,
{
    if k <= 0 {
        Seq::new(n as nat, |w: int| false)
    } else {
        prefix_marks(order, n, k - 1).update(order[k - 1] as int, true)
    }
}

/// The entries `w < j` that are set in `row` and whose vertex is not marked
/// in `inside`.
pub open spec fn outside_count(row: Seq<bool>, inside: Seq<bool>, j: int) -> int
    decreases j,
{
    if j <= 0 {
        0
    } else {
        outside_count(row, inside, j - 1) + if row[j - 1] && !inside[j - 1] {
            1int
        } else {
            0
        }
    }
}

/// The edges from the first `i` vertices of `order` to vertices that are
/// not marked in `inside`.
pub open spec fn boundary_from(
    adj: Seq<Vec<bool>>,
    order: Seq<usize>,
    inside: Seq<bool>,
    i: int,
) -> int
    decreases i,
{
    if i <= 0 {
        0
    } else {
        boundary_from(adj, order, inside, i - 1) + outside_count(
            adj[order[i - 1] as int]@,
            inside,
            adj.len() as int,
        )
    }
}

/// The boundary of the prefix cut of size `k`: the edges that leave its
/// first `k` vertices.
pub open spec fn cut_boundary(adj: Seq<Vec<bool>>, order: Seq<usize>, k: int) -> int {
    boundary_from(adj, order, prefix_marks(order, adj.len() as int, k), k)
}

/// The volume of the first `k` vertices of `order`: the sum of their
/// degrees.
pub open spec fn cut_volume(adj: Seq<Vec<bool>>, order: Seq<usize>, k: int) -> int
    decreases k,
{
    if k <= 0 {
        0
    } else {
        cut_volume(adj, order, k - 1) + trues(adj[order[k - 1] as int]@)
    }
}

/// The sum of the degrees of the first `m` vertices.
pub open spec fn total_volume(adj: Seq<Vec<bool>>, m: int) -> int
    decreases m,
{
    if m <= 0 {
        0
    } else {
        total_volume(adj, m - 1) + trues(adj[m - 1]@)
    }
}

/// The smaller of the volumes on the two sides of the prefix cut of size
/// `k`.
pub open spec fn cut_min_volume(adj: Seq<Vec<bool>>, order: Seq<usize>, k: int) -> int {
    let v = cut_volume(adj, order, k);
    let c = total_volume(adj, adj.len() as int) - v;
    if v <= c {
        v
    } else {
        c
    }
}

/// A prefix cut that leaves vertices on both sides and volume on both
/// sides, so that its conductance is defined.
pub open spec fn is_scored_cut(adj: Seq<Vec<bool>>, order: Seq<usize>, k: int) -> bool {
    1 <= k < adj.len() && cut_min_volume(adj, order, k) > 0
}

/// The conductance of cut `k` is below that of cut `j` (the ratios compared
/// by cross-multiplication).
pub open spec fn conducts_less(adj: Seq<Vec<bool>>, order: Seq<usize>, k: int, j: int) -> bool {
    cut_boundary(adj, order, k) * cut_min_volume(adj, order, j) < cut_boundary(adj, order, j)
        * cut_min_volume(adj, order, k)
}

/// A prefix cut: how many vertices it takes, its boundary and the volume
/// of its smaller side.
#[derive(Debug, Clone, Copy, PartialEq, Eq, Structural)]
pub struct SweepCut {
    pub size: usize,
    pub boundary: u64,
    pub volume: u64,
}

/// `r` is the first cut of least conductance among the prefix cuts of
/// sizes below `k`, or none when none of them is scored.
pub open spec fn is_best_cut_below(
    r: Option<SweepCut>,
    adj: Seq<Vec<bool>>,
    order: Seq<usize>,
    k: int,
) -> bool {
    match r {
        None => forall|j: int| 1 <= j < k ==> !is_scored_cut(adj, order, j),
        Some(c) => {
            &&& 1 <= c.size < k
            &&& is_scored_cut(adj, order, c.size as int)
            &&& c.boundary == cut_boundary(adj, order, c.size as int)
            &&& c.volume == cut_min_volume(adj, order, c.size as int)
            &&& forall|j: int|
                1 <= j < k && #[trigger] is_scored_cut(adj, order, j) ==> !conducts_less(
                    adj,
                    order,
                    j,
                    c.size as int,
                )
            &&& forall|j: int|
                1 <= j < c.size && #[trigger] is_scored_cut(adj, order, j) ==> conducts_less(
                    adj,
                    order,
                    c.size as int,
                    j,
                )
        },
    }
}

// ---------------------------------------------------------------------------
// Bounds
// ---------------------------------------------------------------------------

proof fn lemma_outside_count_bound(row: Seq<bool>, inside: Seq<bool>, j: int)
    requires
        j >= 0,
    ensures
        0 <= outside_count(row, inside, j) <= j,
    decreases j,
{
    if j > 0 {
        lemma_outside_count_bound(row, inside, j - 1);
    }
}

proof fn lemma_degree_bound(adj: Seq<Vec<bool>>, v: int)
    requires
        is_square(adj),
        0 <= v < adj.len(),
    ensures
        0 <= trues(adj[v]@) <= adj.len(),
{
    lemma_trues_bound(adj[v]@);
}

proof fn lemma_prefix_marks_len(order: Seq<usize>, n: int, k: int)
    requires
        n >= 0,
        k <= order.len(),
        forall|i: int| 0 <= i < order.len() ==> order[i] < n,
    ensures
        prefix_marks(order, n, k).len() == n,
    decreases k,
{
    if k > 0 {
        lemma_prefix_marks_len(order, n, k - 1);
    }
}

/// Ratios of positive denominators compare transitively.
proof fn lemma_ratio_chain(a: int, b: int, c: int, d: int, e: int, f: int)
    requires
        b > 0,
        d > 0,
        f > 0,
        a * d < c * b,
        c * f <= e * d,
    ensures
        a * f < e * b,
{
    assert(a * d * f < c * b * f) by (nonlinear_arith)
        requires
            a * d < c * b,
            f > 0,
    ;
    assert(c * f * b <= e * d * b) by (nonlinear_arith)
        requires
            c * f <= e * d,
            b > 0,
    ;
    assert(a * f * d < e * b * d) by (nonlinear_arith)
        requires
            a * d * f < c * b * f,
            c * f * b <= e * d * b,
    ;
    assert(a * f < e * b) by (nonlinear_arith)
        requires
            a * f * d < e * b * d,
            d > 0,
    ;
}

// ---------------------------------------------------------------------------
// The sweep
// ---------------------------------------------------------------------------

/// Edges from vertex `u` to vertices not marked in `inside`.
fn outside_edges(row: &Vec<bool>, inside: &Vec<bool>) -> (c: u64)
    requires
        row@.len() == inside@.len(),
        row@.len() <= u32::MAX,
    ensures
        c == outside_count(row@, inside@, row@.len() as int),
{
    let n = row.len();
    let mut c: u64 = 0;
    let mut w: usize = 0;
    while w < n
        invariant
            n == row@.len() == inside@.len(),
            n <= u32::MAX,
            w <= n,
            c == outside_count(row@, inside@, w as int),
            c <= w,
        decreases n - w,
    {
        if row[w] && !inside[w] {
            c = c + 1;
        }
        w = w + 1;
    }
    c
}

/// The sum of all degrees.
fn degree_sum(adj: &[Vec<bool>], degs: &Vec<usize>) -> (t: u64)
    requires
        is_square(adj@),
        adj@.len() <= u32::MAX,
        degs@.len() == adj@.len(),
        forall|i: int| 0 <= i < adj@.len() ==> #[trigger] degs@[i] == trues(adj@[i]@),
    ensures
        t == total_volume(adj@, adj@.len() as int),
        t <= adj@.len() * adj@.len(),
{
    let n = adj.len();
    let mut t: u64 = 0;
    let mut v: usize = 0;
    while v < n
        invariant
            n == adj@.len() <= u32::MAX,
            is_square(adj@),
            degs@.len() == n,
            forall|i: int| 0 <= i < adj@.len() ==> #[trigger] degs@[i] == trues(adj@[i]@),
            v <= n,
            t == total_volume(adj@, v as int),
            t <= v * n,
        decreases n - v,
    {
        proof {
            lemma_degree_bound(adj@, v as int);
            assert(v * n + n == (v + 1) * n) by (nonlinear_arith);
            assert((v + 1) * n <= n * n) by (nonlinear_arith)
                requires
                    v < n,
            ;
            assert(n * n <= 0xffff_fffe_0000_0001) by (nonlinear_arith)
                requires
                    n <= 0xffff_ffff,
            ;
        }
        t = t + degs[v] as u64;
        v = v + 1;
    }
    t
}

/// The edges that leave the first `k` vertices of `order`, `inside` marking
/// exactly those vertices.
fn boundary_of(adj: &[Vec<bool>], order: &Vec<usize>, inside: &Vec<bool>, k: usize) -> (b: u64)
    requires
        is_square(adj@),
        adj@.len() <= u32::MAX,
        inside@.len() == adj@.len(),
        k <= order@.len() == adj@.len(),
        forall|i: int| 0 <= i < order@.len() ==> order@[i] < adj@.len(),
    ensures
        b == boundary_from(adj@, order@, inside@, k as int),
        b <= k * adj@.len(),
{
    let n = adj.len();
    let mut b: u64 = 0;
    let mut i: usize = 0;
    while i < k
        invariant
            n == adj@.len() <= u32::MAX,
            is_square(adj@),
            inside@.len() == n,
            k <= order@.len() == n,
            forall|j: int| 0 <= j < order@.len() ==> order@[j] < adj@.len(),
            i <= k,
            b == boundary_from(adj@, order@, inside@, i as int),
            b <= i * n,
        decreases k - i,
    {
        let u = order[i];
        assert(adj@[u as int]@.len() == n);
        let c = outside_edges(&adj[u], inside);
        proof {
            lemma_outside_count_bound(adj@[u as int]@, inside@, n as int);
            assert(i * n + n == (i + 1) * n) by (nonlinear_arith);
            assert((i + 1) * n <= n * n) by (nonlinear_arith)
                requires
                    i < n,
            ;
            assert(n * n <= 0xffff_fffe_0000_0001) by (nonlinear_arith)
                requires
                    n <= 0xffff_ffff,
            ;
        }
        b = b + c;
        i = i + 1;
    }
    b
}

/// The prefix cut of least conductance when the vertices are taken in the
/// order `order` (normally a permutation of the vertices): for each size `k`
/// from 1 to `n - 1`, the cut between the first `k` vertices and the rest,
/// scored by its boundary over the volume of its smaller side where that
/// volume is positive.  Of several cuts of least conductance the smallest
/// is returned.  There is none below four vertices, or when no cut has
/// volume on both sides.  The matrix must be square; its size is bounded by
/// what memory can hold.
pub fn best_sweep_cut(adj: &[Vec<bool>], order: &Vec<usize>) -> (r: Option<SweepCut>)
    requires
        is_square(adj@),
        adj@.len() <= u32::MAX,
        order@.len() == adj@.len(),
        forall|i: int| 0 <= i < order@.len() ==> order@[i] < adj@.len(),
    ensures
        adj@.len() < 4 ==> r is None,
        adj@.len() >= 4 ==> is_best_cut_below(r, adj@, order@, adj@.len() as int),
{
    let n = adj.len();
    if n < 4 {
        return None;
    }
    let degs = compute_degrees(adj);
    let total = degree_sum(adj, &degs);
    let mut inside: Vec<bool> = Vec::new();
    let mut j: usize = 0;
    while j < n
        invariant
            j <= n,
            inside@ =~= Seq::new(j as nat, |w: int| false),
        decreases n - j,
    {
        inside.push(false);
        j = j + 1;
    }
    assert(inside@ =~= prefix_marks(order@, n as int, 0));
    let mut best: Option<SweepCut> = None;
    let mut vol: u64 = 0;
    let mut k: usize = 1;
    while k < n
        invariant
            4 <= n == adj@.len() <= u32::MAX,
            is_square(adj@),
            order@.len() == n,
            forall|i: int| 0 <= i < order@.len() ==> order@[i] < adj@.len(),
            degs@.len() == n,
            forall|i: int| 0 <= i < adj@.len() ==> #[trigger] degs@[i] == trues(adj@[i]@),
            total == total_volume(adj@, n as int),
            total <= n * n,
            1 <= k <= n,
            inside@ == prefix_marks(order@, n as int, k - 1),
            vol == cut_volume(adj@, order@, k - 1),
            vol <= (k - 1) * n,
            is_best_cut_below(best, adj@, order@, k as int),
        decreases n - k,
    {
        let v = order[k - 1];
        proof {
            lemma_prefix_marks_len(order@, n as int, k - 1);
            lemma_degree_bound(adj@, v as int);
            assert((k - 1) * n + n == k * n) by (nonlinear_arith);
            assert(k * n <= n * n) by (nonlinear_arith)
                requires
                    k < n,
            ;
            assert(n * n <= 0xffff_fffe_0000_0001) by (nonlinear_arith)
                requires
                    n <= 0xffff_ffff,
            ;
        }
        inside.set(v, true);
        vol = vol + degs[v] as u64;
        assert(inside@ == prefix_marks(order@, n as int, k as int));
        let b = boundary_of(adj, order, &inside, k);
        assert(b == cut_boundary(adj@, order@, k as int));
        let ghost old_best = best;
        if vol <= total {
            let rest = total - vol;
            let mv: u64 = if vol <= rest {
                vol
            } else {
                rest
            };
            assert(mv == cut_min_volume(adj@, order@, k as int));
            if mv > 0 {
                match best {
                    None => {
                        best = Some(SweepCut { size: k, boundary: b, volume: mv });
                    },
                    Some(c) => {
                        assert((b as u128) * (c.volume as u128) <= 0xffff_ffff_ffff_fffe_0000_0000_0000_0001)
                            by (nonlinear_arith)
                            requires
                                b <= 0xffff_ffff_ffff_ffff,
                                c.volume <= 0xffff_ffff_ffff_ffff,
                        ;
                        assert((c.boundary as u128) * (mv as u128) <= 0xffff_ffff_ffff_fffe_0000_0000_0000_0001)
                            by (nonlinear_arith)
                            requires
                                mv <= 0xffff_ffff_ffff_ffff,
                                c.boundary <= 0xffff_ffff_ffff_ffff,
                        ;
                        if (b as u128) * (c.volume as u128) < (c.boundary as u128) * (mv as u128) {
                            proof {
                                assert forall|j: int|
                                    1 <= j < k && #[trigger] is_scored_cut(
                                        adj@,
                                        order@,
                                        j,
                                    ) implies conducts_less(adj@, order@, k as int, j) by {
                                    lemma_ratio_chain(
                                        b as int,
                                        mv as int,
                                        c.boundary as int,
                                        c.volume as int,
                                        cut_boundary(adj@, order@, j),
                                        cut_min_volume(adj@, order@, j),
                                    );
                                }
                            }
                            best = Some(SweepCut { size: k, boundary: b, volume: mv });
                        }
                    },
                }
            }
        }
        assert(is_best_cut_below(best, adj@, order@, k + 1)) by {
            assert(!is_scored_cut(adj@, order@, k as int) ==> best == old_best);
        }
        k = k + 1;
    }
    best
}

} // verus!
