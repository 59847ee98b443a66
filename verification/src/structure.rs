//! The integer side of the spectral structure analysis of a page graph:
//! the symmetric adjacency matrix, degrees, connected components with one
//! page left out, and the bridge pages whose removal splits the document.

use vstd::prelude::*;
use crate::page_graph::{
    PageGraph, PageNode, degree_upto, lemma_linked_before_all, lemma_linked_before_empty_slot,
    lemma_linked_before_next_ref, lemma_linked_before_next_slot, lemma_linked_before_start, linked,
    linked_before, refs_len, slot,
};

verus! {

// ---------------------------------------------------------------------------
// Graphs given by adjacency matrices
// ---------------------------------------------------------------------------

/// Every row of `adj` has one entry per vertex.
pub open spec fn is_square(adj: Seq<Vec<bool>>) -> bool {
    forall|i: int| 0 <= i < adj.len() ==> #[trigger] adj[i]@.len() == adj.len()
}

/// The matrix is symmetric.
pub open spec fn is_symmetric(adj: Seq<Vec<bool>>) -> bool {
    forall|i: int, j: int|
        0 <= i < adj.len() && 0 <= j < adj.len() ==> #[trigger] adj[i]@[j] == #[trigger] adj[j]@[i]
}

/// An edge from `u` to `v`.
pub open spec fn edge(adj: Seq<Vec<bool>>, u: int, v: int) -> bool {
    adj[u]@[v]
}

/// Step `k` of the vertex sequence `p` follows an edge.
pub open spec fn step_ok(adj: Seq<Vec<bool>>, p: Seq<int>, k: int) -> bool {
    edge(adj, p[k], p[k + 1])
}

/// `p` is a path of `adj` that avoids the blocked vertices.
pub open spec fn is_path(adj: Seq<Vec<bool>>, blocked: Seq<bool>, p: Seq<int>) -> bool {
    &&& p.len() >= 1
    &&& forall|k: int| 0 <= k < p.len() ==> 0 <= #[trigger] p[k] < adj.len() && !blocked[p[k]]
    &&& forall|k: int| 0 <= k < p.len() - 1 ==> #[trigger] step_ok(adj, p, k)
}

/// `v` can be reached from `u` along a path avoiding the blocked vertices
/// (`u` itself must not be blocked).
pub open spec fn reach(adj: Seq<Vec<bool>>, blocked: Seq<bool>, u: int, v: int) -> bool {
    exists|p: Seq<int>| #[trigger] is_path(adj, blocked, p) && p[0] == u && p.last() == v
}

/// Blocks exactly the vertex `ex` (nothing when `ex` is not a vertex).
pub open spec fn only(n: int, ex: int) -> Seq<bool> {
    Seq::new(n as nat, |i: int| i == ex)
}

/// Vertex `i` starts a new component once `ex` is removed: no earlier
/// vertex reaches it.
pub open spec fn is_first_of_component(adj: Seq<Vec<bool>>, ex: int, i: int) -> bool {
    &&& 0 <= i < adj.len()
    &&& i != ex
    &&& forall|j: int| 0 <= j < i && j != ex ==> !#[trigger] reach(adj, only(adj.len() as int, ex), j, i)
}

/// The number of component starts below `m`.
pub open spec fn firsts_below(adj: Seq<Vec<bool>>, ex: int, m: int) -> int
    decreases m,
{
    if m <= 0 {
        0
    } else {
        firsts_below(adj, ex, m - 1) + if is_first_of_component(adj, ex, m - 1) {
            1int
        } else {
            0
        }
    }
}

/// The number of connected components of the graph without vertex `ex`
/// (of the whole graph when `ex` is not a vertex): each component counted
/// at its lowest vertex.
pub open spec fn component_count(adj: Seq<Vec<bool>>, ex: int) -> int {
    firsts_below(adj, ex, adj.len() as int)
}

/// The number of `false` entries.
pub open spec fn falses(s: Seq<bool>) -> int
    decreases s.len(),
{
    if s.len() == 0 {
        0
    } else {
        falses(s.drop_last()) + if s.last() {
            0int
        } else {
            1
        }
    }
}

// ---------------------------------------------------------------------------
// Path lemmas
// ---------------------------------------------------------------------------

proof fn lemma_falses_set(s: Seq<bool>, i: int)
    requires
        0 <= i < s.len(),
        !s[i],
    ensures
        falses(s.update(i, true)) == falses(s) - 1,
        falses(s) >= 1,
    decreases s.len(),
{
    let t = s.update(i, true);
    if i == s.len() - 1 {
        assert(t.drop_last() =~= s.drop_last());
        lemma_falses_nonneg(s.drop_last());
    } else {
        assert(t.drop_last() =~= s.drop_last().update(i, true));
        lemma_falses_set(s.drop_last(), i);
    }
}

proof fn lemma_falses_nonneg(s: Seq<bool>)
    ensures
        falses(s) >= 0,
    decreases s.len(),
{
    if s.len() > 0 {
        lemma_falses_nonneg(s.drop_last());
    }
}

/// A single vertex is a path.
proof fn lemma_reach_self(adj: Seq<Vec<bool>>, blocked: Seq<bool>, u: int)
    requires
        0 <= u < adj.len(),
        !blocked[u],
    ensures
        reach(adj, blocked, u, u),
{
    let p = seq![u];
    assert(is_path(adj, blocked, p));
}

/// A path extended by one edge.
proof fn lemma_reach_step(adj: Seq<Vec<bool>>, blocked: Seq<bool>, u: int, v: int, w: int)
    requires
        reach(adj, blocked, u, v),
        0 <= w < adj.len(),
        !blocked[w],
        edge(adj, v, w),
    ensures
        reach(adj, blocked, u, w),
{
    let p = choose|p: Seq<int>| #[trigger] is_path(adj, blocked, p) && p[0] == u && p.last() == v;
    let q = p.push(w);
    assert forall|k: int| 0 <= k < q.len() - 1 implies #[trigger] step_ok(adj, q, k) by {
        if k < p.len() - 1 {
            assert(step_ok(adj, p, k));
        }
    }
    assert forall|k: int| 0 <= k < q.len() implies 0 <= #[trigger] q[k] < adj.len() && !blocked[q[k]] by {
        if k < p.len() {
            assert(q[k] == p[k]);
        }
    }
    assert(is_path(adj, blocked, q));
}

/// Paths compose.
proof fn lemma_reach_trans(adj: Seq<Vec<bool>>, blocked: Seq<bool>, u: int, v: int, w: int)
    requires
        reach(adj, blocked, u, v),
        reach(adj, blocked, v, w),
    ensures
        reach(adj, blocked, u, w),
{
    let p = choose|p: Seq<int>| #[trigger] is_path(adj, blocked, p) && p[0] == u && p.last() == v;
    let q = choose|q: Seq<int>| #[trigger] is_path(adj, blocked, q) && q[0] == v && q.last() == w;
    let r = p + q.drop_first();
    assert forall|k: int| 0 <= k < r.len() implies 0 <= #[trigger] r[k] < adj.len() && !blocked[r[k]] by {
        if k < p.len() {
            assert(r[k] == p[k]);
        } else {
            assert(r[k] == q[k - p.len() + 1]);
        }
    }
    assert forall|k: int| 0 <= k < r.len() - 1 implies #[trigger] step_ok(adj, r, k) by {
        if k < p.len() - 1 {
            assert(step_ok(adj, p, k));
        } else if k == p.len() - 1 {
            assert(r[k] == v);
            assert(r[k + 1] == q[1]);
            assert(step_ok(adj, q, 0));
        } else {
            assert(r[k] == q[k - p.len() + 1]);
            assert(r[k + 1] == q[k - p.len() + 2]);
            assert(step_ok(adj, q, k - p.len() + 1));
        }
    }
    if q.len() == 1 {
        assert(r =~= p);
    }
    assert(is_path(adj, blocked, r));
}

/// Blocking more vertices never adds paths.
proof fn lemma_reach_fewer_blocked(
    adj: Seq<Vec<bool>>,
    more: Seq<bool>,
    fewer: Seq<bool>,
    u: int,
    v: int,
)
    requires
        reach(adj, more, u, v),
        more.len() == adj.len(),
        fewer.len() == adj.len(),
        forall|x: int| 0 <= x < adj.len() && #[trigger] fewer[x] ==> more[x],
    ensures
        reach(adj, fewer, u, v),
{
    let p = choose|p: Seq<int>| #[trigger] is_path(adj, more, p) && p[0] == u && p.last() == v;
    assert forall|k: int| 0 <= k < p.len() implies 0 <= #[trigger] p[k] < adj.len() && !fewer[p[k]] by {
    }
    assert(is_path(adj, fewer, p));
}

/// When the vertices reachable from `start` that are not yet visited are
/// all visited, and no visited new vertex has an edge to an unvisited one,
/// every vertex reachable avoiding `v0` is visited.
proof fn lemma_closed_set_contains_reach(
    adj: Seq<Vec<bool>>,
    v0: Seq<bool>,
    visited: Seq<bool>,
    start: int,
    v: int,
)
    requires
        v0.len() == adj.len(),
        visited.len() == adj.len(),
        0 <= start < adj.len(),
        visited[start],
        forall|x: int, y: int|
            #![trigger edge(adj, x, y)]
            0 <= x < adj.len() && 0 <= y < adj.len() && visited[x] && !v0[x] && edge(adj, x, y)
                ==> visited[y],
        reach(adj, v0, start, v),
    ensures
        visited[v],
{
    let p = choose|p: Seq<int>| #[trigger] is_path(adj, v0, p) && p[0] == start && p.last() == v;
    lemma_path_visited(adj, v0, visited, p, p.len() - 1);
}

proof fn lemma_path_visited(
    adj: Seq<Vec<bool>>,
    v0: Seq<bool>,
    visited: Seq<bool>,
    p: Seq<int>,
    k: int,
)
    requires
        is_path(adj, v0, p),
        0 <= k < p.len(),
        visited[p[0]],
        v0.len() == adj.len(),
        visited.len() == adj.len(),
        forall|x: int, y: int|
            #![trigger edge(adj, x, y)]
            0 <= x < adj.len() && 0 <= y < adj.len() && visited[x] && !v0[x] && edge(adj, x, y)
                ==> visited[y],
    ensures
        visited[p[k]],
    decreases k,
{
    if k > 0 {
        lemma_path_visited(adj, v0, visited, p, k - 1);
        assert(step_ok(adj, p, k - 1));
        assert(0 <= p[k - 1] < adj.len() && !v0[p[k - 1]]);
        assert(0 <= p[k] < adj.len());
    }
}

// ---------------------------------------------------------------------------
// Depth-first search and components
// ---------------------------------------------------------------------------

/// Marks `start` and every vertex reachable from it along vertices that
/// were not yet visited (`start` itself may already be visited).
pub fn dfs_component(adj: &[Vec<bool>], start: usize, visited: &mut Vec<bool>)
    requires
        is_square(adj@),
        old(visited)@.len() == adj@.len(),
        start < adj@.len(),
    ensures
        final(visited)@.len() == old(visited)@.len(),
        forall|v: int|
            0 <= v < adj@.len() ==> #[trigger] final(visited)@[v] == (old(visited)@[v] || reach(
                adj@,
                old(visited)@.update(start as int, false),
                start as int,
                v,
            )),
{
    let ghost v0 = visited@.update(start as int, false);
    let n = adj.len();
    let mut stack: Vec<usize> = Vec::new();
    stack.push(start);
    proof {
        lemma_reach_self(adj@, v0, start as int);
    }
    visited.set(start, true);
    assert(stack@[0] == start);
    assert forall|x: int| 0 <= x < n && visited@[x] && !v0[x] implies x == start && stack@.contains(x as usize) by {
        assert(stack@[0] == start);
    }
    while stack.len() > 0
        invariant
            n == adj@.len(),
            is_square(adj@),
            visited@.len() == n,
            v0.len() == n,
            start < n,
            !v0[start as int],
            visited@[start as int],
            forall|x: int| 0 <= x < n && v0[x] ==> #[trigger] visited@[x],
            forall|x: int|
                0 <= x < n && #[trigger] visited@[x] && !v0[x] ==> reach(adj@, v0, start as int, x),
            forall|k: int|
                0 <= k < stack@.len() ==> #[trigger] stack@[k] < n && visited@[stack@[k] as int]
                    && !v0[stack@[k] as int],
            forall|x: int, y: int|
                #![trigger edge(adj@, x, y)]
                0 <= x < n && 0 <= y < n && visited@[x] && !v0[x] && !stack@.contains(x as usize)
                    && edge(adj@, x, y) ==> visited@[y],
        decreases falses(visited@), stack@.len(),
    {
        let ghost before_stack = stack@;
        let ghost before_falses = falses(visited@);
        let v = stack.pop().unwrap();
        assert(before_stack[before_stack.len() - 1] == v);
        assert(stack@ =~= before_stack.drop_last());
        assert forall|e: usize| #[trigger] before_stack.contains(e) && e != v implies stack@.contains(e) by {
            let k = choose|k: int| 0 <= k < before_stack.len() && before_stack[k] == e;
            assert(k < before_stack.len() - 1);
            assert(stack@[k] == e);
        }
        let mut u: usize = 0;
        while u < n
            invariant
                n == adj@.len(),
                is_square(adj@),
                visited@.len() == n,
                v0.len() == n,
                start < n,
                !v0[start as int],
                visited@[start as int],
                v < n,
                visited@[v as int],
                !v0[v as int],
                u <= n,
                forall|x: int| 0 <= x < n && v0[x] ==> #[trigger] visited@[x],
                forall|x: int|
                    0 <= x < n && #[trigger] visited@[x] && !v0[x] ==> reach(
                        adj@,
                        v0,
                        start as int,
                        x,
                    ),
                forall|k: int|
                    0 <= k < stack@.len() ==> #[trigger] stack@[k] < n && visited@[stack@[k] as int]
                        && !v0[stack@[k] as int],
                forall|x: int, y: int|
                    #![trigger edge(adj@, x, y)]
                    0 <= x < n && 0 <= y < n && visited@[x] && !v0[x] && x != v
                        && !stack@.contains(x as usize) && edge(adj@, x, y) ==> visited@[y],
                forall|y: int| 0 <= y < u && edge(adj@, v as int, y) ==> #[trigger] visited@[y],
                (falses(visited@) < before_falses) || (falses(visited@) == before_falses
                    && stack@.len() == before_stack.len() - 1),
                forall|e: usize| #[trigger] before_stack.contains(e) && e != v ==> stack@.contains(e),
            decreases n - u,
        {
            assert(adj@[v as int]@.len() == n);
            if adj[v][u] && !visited[u] {
                proof {
                    lemma_reach_step(adj@, v0, start as int, v as int, u as int);
                    lemma_falses_set(visited@, u as int);
                }
                let ghost before = stack@;
                let ghost vis_before = visited@;
                visited.set(u, true);
                stack.push(u);
                assert(stack@[stack@.len() - 1] == u);
                assert(stack@.contains(u));
                assert forall|e: usize| #[trigger] before.contains(e) implies stack@.contains(e) by {
                    let k = choose|k: int| 0 <= k < before.len() && before[k] == e;
                    assert(stack@[k] == before[k]);
                }
                assert forall|x: int, y: int|
                    #![trigger edge(adj@, x, y)]
                    0 <= x < n && 0 <= y < n && visited@[x] && !v0[x] && x != v
                        && !stack@.contains(x as usize) && edge(adj@, x, y) implies visited@[y] by {
                    assert(x != u);
                    assert(vis_before[x]);
                    if before.contains(x as usize) {
                        assert(stack@.contains(x as usize));
                    }
                    assert(vis_before[y]);
                }
            }
            u = u + 1;
        }
        proof {
            lemma_falses_nonneg(visited@);
        }
    }
    assert forall|v: int|
        0 <= v < adj@.len() implies #[trigger] visited@[v] == (v0[v] || reach(
            adj@,
            v0,
            start as int,
            v,
        )) by {
        if reach(adj@, v0, start as int, v) {
            lemma_closed_set_contains_reach(adj@, v0, visited@, start as int, v);
        }
        if visited@[v] && !v0[v] {
        }
    }
}

/// The number of connected components of the graph without vertex
/// `exclude` (of the whole graph when `exclude` is not a vertex).
pub fn count_components_excluding(adj: &[Vec<bool>], exclude: usize) -> (c: usize)
    requires
        is_square(adj@),
    ensures
        c == component_count(adj@, exclude as int),
{
    let n = adj.len();
    let ghost blocked = only(n as int, exclude as int);
    let mut visited: Vec<bool> = Vec::new();
    let mut t: usize = 0;
    while t < n
        invariant
            t <= n,
            n == adj@.len(),
            visited@.len() == t,
            forall|x: int| 0 <= x < t ==> #[trigger] visited@[x] == false,
        decreases n - t,
    {
        visited.push(false);
        t = t + 1;
    }
    if exclude < n {
        visited.set(exclude, true);
    }
    let mut components: usize = 0;
    let mut i: usize = 0;
    while i < n
        invariant
            n == adj@.len(),
            is_square(adj@),
            blocked == only(n as int, exclude as int),
            i <= n,
            visited@.len() == n,
            components == firsts_below(adj@, exclude as int, i as int),
            components <= i,
            forall|v: int|
                0 <= v < n ==> #[trigger] visited@[v] == (v == exclude || exists|j: int|
                    0 <= j < i && j != exclude && #[trigger] reach(adj@, blocked, j, v)),
        decreases n - i,
    {
        if !visited[i] {
            proof {
                assert(is_first_of_component(adj@, exclude as int, i as int)) by {
                    assert forall|j: int| 0 <= j < i && j != exclude implies !#[trigger] reach(
                        adj@,
                        only(adj@.len() as int, exclude as int),
                        j,
                        i as int,
                    ) by {
                        if reach(adj@, blocked, j, i as int) {
                            assert(visited@[i as int]);
                        }
                    }
                }
            }
            let ghost vis0 = visited@;
            assert(vis0.update(i as int, false) =~= vis0);
            components = components + 1;
            dfs_component(adj, i, &mut visited);
            proof {
                assert forall|v: int|
                    0 <= v < n implies #[trigger] visited@[v] == (v == exclude || exists|j: int|
                        0 <= j < i + 1 && j != exclude && #[trigger] reach(adj@, blocked, j, v)) by {
                    lemma_component_step(adj@, blocked, vis0, exclude as int, i as int, v);
                }
            }
        } else {
            proof {
                assert(!is_first_of_component(adj@, exclude as int, i as int)) by {
                    if i != exclude {
                        let j = choose|j: int|
                            0 <= j < i && j != exclude && #[trigger] reach(adj@, blocked, j, i as int);
                        assert(reach(adj@, only(adj@.len() as int, exclude as int), j, i as int));
                    }
                }
                assert forall|v: int|
                    0 <= v < n implies #[trigger] visited@[v] == (v == exclude || exists|j: int|
                        0 <= j < i + 1 && j != exclude && #[trigger] reach(adj@, blocked, j, v)) by {
                    if i != exclude && reach(adj@, blocked, i as int, v) {
                        let j = choose|j: int|
                            0 <= j < i && j != exclude && #[trigger] reach(adj@, blocked, j, i as int);
                        lemma_reach_trans(adj@, blocked, j, i as int, v);
                    }
                    if i == exclude && reach(adj@, blocked, i as int, v) {
                        let p = choose|p: Seq<int>|
                            #[trigger] is_path(adj@, blocked, p) && p[0] == i && p.last() == v;
                        assert(!blocked[p[0]]);
                    }
                }
            }
        }
        i = i + 1;
    }
    components
}

/// One step of the component count: after the search from the unvisited
/// vertex `i`, the visited vertices are those reached from some `j <= i`.
proof fn lemma_component_step(
    adj: Seq<Vec<bool>>,
    blocked: Seq<bool>,
    vis0: Seq<bool>,
    ex: int,
    i: int,
    v: int,
)
    requires
        blocked == only(adj.len() as int, ex),
        vis0.len() == adj.len(),
        0 <= i < adj.len(),
        0 <= v < adj.len(),
        !vis0[i],
        forall|x: int|
            0 <= x < adj.len() ==> #[trigger] vis0[x] == (x == ex || exists|j: int|
                0 <= j < i && j != ex && #[trigger] reach(adj, blocked, j, x)),
    ensures
        (vis0[v] || reach(adj, vis0, i, v)) == (v == ex || exists|j: int|
            0 <= j < i + 1 && j != ex && #[trigger] reach(adj, blocked, j, v)),
{
    assert(i != ex);
    if reach(adj, vis0, i, v) {
        // Fewer blocked vertices: only `ex`.
        assert forall|x: int| 0 <= x < adj.len() && #[trigger] blocked[x] implies vis0[x] by {}
        lemma_reach_fewer_blocked(adj, vis0, blocked, i, v);
        assert(0 <= i < i + 1 && i != ex && reach(adj, blocked, i, v));
    }
    if v != ex && (exists|j: int| 0 <= j < i + 1 && j != ex && #[trigger] reach(adj, blocked, j, v)) {
        let j = choose|j: int| 0 <= j < i + 1 && j != ex && #[trigger] reach(adj, blocked, j, v);
        if j < i {
            assert(vis0[v]);
        } else {
            // A path from `i` avoiding `ex`: either it avoids every visited
            // vertex, or it passes a visited `w`, which an earlier vertex
            // reaches, and so reaches `v` too.
            let p = choose|p: Seq<int>| #[trigger] is_path(adj, blocked, p) && p[0] == i && p.last() == v;
            if exists|k: int| 0 <= k < p.len() && vis0[#[trigger] p[k]] {
                let k = choose|k: int| 0 <= k < p.len() && vis0[#[trigger] p[k]];
                let w = p[k];
                assert(0 <= w < adj.len());
                assert(!blocked[w]);
                assert(w != ex);
                let j2 = choose|j2: int| 0 <= j2 < i && j2 != ex && #[trigger] reach(adj, blocked, j2, w);
                let q = p.skip(k);
                assert forall|t: int| 0 <= t < q.len() implies 0 <= #[trigger] q[t] < adj.len() && !blocked[q[t]] by {
                    assert(q[t] == p[t + k]);
                }
                assert forall|t: int| 0 <= t < q.len() - 1 implies #[trigger] step_ok(adj, q, t) by {
                    assert(step_ok(adj, p, t + k));
                }
                assert(is_path(adj, blocked, q));
                assert(reach(adj, blocked, w, v));
                lemma_reach_trans(adj, blocked, j2, w, v);
                assert(vis0[v]);
            } else {
                assert forall|k: int| 0 <= k < p.len() implies 0 <= #[trigger] p[k] < adj.len() && !vis0[p[k]] by {}
                assert(is_path(adj, vis0, p));
            }
        }
    }
}


// ---------------------------------------------------------------------------
// The page graph as a matrix
// ---------------------------------------------------------------------------

/// Sets entry `(i, j)` of a matrix stored as rows.
fn set_entry(m: &mut Vec<Vec<bool>>, i: usize, j: usize)
    requires
        i < old(m)@.len(),
        j < old(m)@[i as int]@.len(),
    ensures
        final(m)@.len() == old(m)@.len(),
        final(m)@[i as int]@ == old(m)@[i as int]@.update(j as int, true),
        forall|r: int| 0 <= r < old(m)@.len() && r != i ==> #[trigger] final(m)@[r] == old(m)@[r],
{
    let mut row: Vec<bool> = Vec::new();
    m.set_and_swap(i, &mut row);
    row.set(j, true);
    m.set_and_swap(i, &mut row);
}

/// An `n` by `n` matrix of `false`.
fn false_matrix(n: usize) -> (m: Vec<Vec<bool>>)
    ensures
        m@.len() == n,
        is_square(m@),
        forall|x: int, y: int| 0 <= x < n && 0 <= y < n ==> #[trigger] m@[x]@[y] == false,
{
    let mut m: Vec<Vec<bool>> = Vec::new();
    let mut r: usize = 0;
    while r < n
        invariant
            r <= n,
            m@.len() == r,
            forall|x: int| 0 <= x < r ==> #[trigger] m@[x]@.len() == n,
            forall|x: int, y: int| 0 <= x < r && 0 <= y < n ==> #[trigger] m@[x]@[y] == false,
        decreases n - r,
    {
        let mut row: Vec<bool> = Vec::new();
        let mut c: usize = 0;
        while c < n
            invariant
                c <= n,
                row@.len() == c,
                forall|y: int| 0 <= y < c ==> #[trigger] row@[y] == false,
            decreases n - c,
        {
            row.push(false);
            c = c + 1;
        }
        m.push(row);
        r = r + 1;
    }
    m
}

/// The symmetric adjacency matrix of pages `1..=n` (`n` the page count),
/// without self-loops: entry `(i, j)` is set when `i != j` and a
/// cross-reference joins the pages with numbers `i + 1` and `j + 1`, in
/// either direction.
pub fn build_adjacency_matrix(graph: &PageGraph) -> (adj: Vec<Vec<bool>>)
    requires
        graph.pages_numbered(),
    ensures
        adj@.len() == graph.count(),
        is_square(adj@),
        is_symmetric(adj@),
        forall|i: int| 0 <= i < graph.count() ==> !#[trigger] adj@[i]@[i],
        forall|i: int, j: int|
            0 <= i < graph.count() && 0 <= j < graph.count() ==> #[trigger] adj@[i]@[j] == (i != j
                && (linked(graph.slots(), i, j) || linked(graph.slots(), j, i))),
{
    let n = graph.page_count();
    let mut adj = false_matrix(n);
    let ghost slots = graph.slots();
    let len = graph.slot_len();
    assert forall|x: int, y: int|
        0 <= x < n && 0 <= y < n implies #[trigger] adj@[x]@[y] == (x != y && (linked_before(
            slots,
            0,
            0,
            x,
            y,
        ) || linked_before(slots, 0, 0, y, x))) by {
        lemma_linked_before_start(slots, x, y);
        lemma_linked_before_start(slots, y, x);
    }
    let mut s: usize = 0;
    while s < len
        invariant
            slots == graph.slots(),
            len == slots.len(),
            s <= len,
            n == graph.count(),
            adj@.len() == n,
            is_square(adj@),
            graph.pages_numbered(),
            forall|x: int, y: int|
                0 <= x < n && 0 <= y < n ==> #[trigger] adj@[x]@[y] == (x != y && (linked_before(
                    slots,
                    s as int,
                    0,
                    x,
                    y,
                ) || linked_before(slots, s as int, 0, y, x))),
        decreases len - s,
    {
        match graph.get_page(s) {
            Some(node) => {
                assert(graph.node(s as int) is Some);
                let i = node.page - 1;
                let rl = node.refs.len();
                let mut k: usize = 0;
                while k < rl
                    invariant
                        slots == graph.slots(),
                        len == slots.len(),
                        s < len,
                        slot(slots, s as int) == Some(*node),
                        rl == node.refs@.len(),
                        i == node.page - 1,
                        k <= rl,
                        n == graph.count(),
                        adj@.len() == n,
                        is_square(adj@),
                        graph.pages_numbered(),
                        forall|x: int, y: int|
                            0 <= x < n && 0 <= y < n ==> #[trigger] adj@[x]@[y] == (x != y && (
                            linked_before(slots, s as int, k as int, x, y) || linked_before(
                                slots,
                                s as int,
                                k as int,
                                y,
                                x,
                            ))),
                    decreases rl - k,
                {
                    let rp = node.refs[k];
                    let ghost before = adj@;
                    match graph.get_page(rp) {
                        Some(other) => {
                            assert(graph.node(rp as int) is Some);
                            let j = other.page - 1;
                            if i < n && j < n && i != j {
                                set_entry(&mut adj, i, j);
                                set_entry(&mut adj, j, i);
                            }
                            assert forall|r: int| 0 <= r < adj@.len() implies #[trigger] adj@[r]@.len()
                                == adj@.len() by {
                                assert(before[r]@.len() == n);
                            }
                            assert forall|x: int, y: int|
                                0 <= x < n && 0 <= y < n implies #[trigger] adj@[x]@[y] == (x != y
                                    && (linked_before(slots, s as int, k + 1, x, y)
                                    || linked_before(slots, s as int, k + 1, y, x))) by {
                                lemma_linked_before_next_ref(slots, s as int, k as int, x, y);
                                lemma_linked_before_next_ref(slots, s as int, k as int, y, x);
                                assert(before[x]@[y] == (x != y && (linked_before(
                                    slots,
                                    s as int,
                                    k as int,
                                    x,
                                    y,
                                ) || linked_before(slots, s as int, k as int, y, x))));
                            }
                        },
                        None => {
                            assert forall|x: int, y: int|
                                0 <= x < n && 0 <= y < n implies #[trigger] adj@[x]@[y] == (x != y
                                    && (linked_before(slots, s as int, k + 1, x, y)
                                    || linked_before(slots, s as int, k + 1, y, x))) by {
                                lemma_linked_before_next_ref(slots, s as int, k as int, x, y);
                                lemma_linked_before_next_ref(slots, s as int, k as int, y, x);
                            }
                        },
                    }
                    k = k + 1;
                }
                assert(rl == refs_len(slots, s as int));
                assert forall|x: int, y: int|
                    0 <= x < n && 0 <= y < n implies #[trigger] adj@[x]@[y] == (x != y && (
                    linked_before(slots, s + 1, 0, x, y) || linked_before(slots, s + 1, 0, y, x)))
                    by {
                    lemma_linked_before_next_slot(slots, s as int, x, y);
                    lemma_linked_before_next_slot(slots, s as int, y, x);
                }
            },
            None => {
                assert forall|x: int, y: int|
                    0 <= x < n && 0 <= y < n implies #[trigger] adj@[x]@[y] == (x != y && (
                    linked_before(slots, s + 1, 0, x, y) || linked_before(slots, s + 1, 0, y, x)))
                    by {
                    lemma_linked_before_next_slot(slots, s as int, x, y);
                    lemma_linked_before_next_slot(slots, s as int, y, x);
                    lemma_linked_before_empty_slot(slots, s as int, x, y);
                    lemma_linked_before_empty_slot(slots, s as int, y, x);
                }
            },
        }
        s = s + 1;
    }
    assert forall|x: int, y: int|
        0 <= x < n && 0 <= y < n implies #[trigger] adj@[x]@[y] == (x != y && (linked(slots, x, y)
            || linked(slots, y, x))) by {
        lemma_linked_before_all(slots, x, y);
        lemma_linked_before_all(slots, y, x);
    }
    adj
}

/// The number of `true` entries.
pub open spec fn trues(s: Seq<bool>) -> int
    decreases s.len(),
{
    if s.len() == 0 {
        0
    } else {
        trues(s.drop_last()) + if s.last() {
            1int
        } else {
            0
        }
    }
}

pub(crate) proof fn lemma_trues_bound(s: Seq<bool>)
    ensures
        0 <= trues(s) <= s.len(),
    decreases s.len(),
{
    if s.len() > 0 {
        lemma_trues_bound(s.drop_last());
    }
}

/// The degree of each vertex: the number of set entries in its row.
pub fn compute_degrees(adj: &[Vec<bool>]) -> (degs: Vec<usize>)
    ensures
        degs@.len() == adj@.len(),
        forall|i: int| 0 <= i < adj@.len() ==> #[trigger] degs@[i] == trues(adj@[i]@),
{
    let n = adj.len();
    let mut degs: Vec<usize> = Vec::new();
    let mut i: usize = 0;
    while i < n
        invariant
            n == adj@.len(),
            i <= n,
            degs@.len() == i,
            forall|x: int| 0 <= x < i ==> #[trigger] degs@[x] == trues(adj@[x]@),
        decreases n - i,
    {
        let row = &adj[i];
        let m = row.len();
        let mut d: usize = 0;
        let mut j: usize = 0;
        while j < m
            invariant
                m == row@.len(),
                j <= m,
                d == trues(row@.take(j as int)),
            decreases m - j,
        {
            proof {
                assert(row@.take(j + 1).drop_last() =~= row@.take(j as int));
                lemma_trues_bound(row@.take(j as int));
            }
            if row[j] {
                d = d + 1;
            }
            j = j + 1;
        }
        assert(row@.take(m as int) =~= row@);
        degs.push(d);
        i = i + 1;
    }
    degs
}

// ---------------------------------------------------------------------------
// Bridge pages
// ---------------------------------------------------------------------------

/// A bridge page: an articulation point of the document graph, whose
/// removal would disconnect it.
#[derive(Debug, Clone)]
pub struct BridgePage {
    /// Page number.
    pub page: usize,
    /// Page title.
    pub title: String,
    /// Number of components the graph splits into if this page is removed.
    pub splits_into: usize,
    /// Degree of this page: its cross-references in both directions.
    pub degree: usize,
}

/// The bridge report for page `p`, if it is a bridge: without it the graph
/// has more components than with it.
pub open spec fn bridge_at(slots: Seq<Option<PageNode>>, adj: Seq<Vec<bool>>, n: int, p: int) -> Option<BridgePage> {
    match slot(slots, p) {
        Some(nd) => if component_count(adj, p - 1) > component_count(adj, n) {
            Some(
                BridgePage {
                    page: nd.page,
                    title: nd.title,
                    splits_into: component_count(adj, p - 1) as usize,
                    degree: degree_upto(slots, slots.len() as int, p - 1) as usize,
                },
            )
        } else {
            None
        },
        None => None,
    }
}

/// The bridge reports of pages `1..=m`, in page order.
pub open spec fn bridges_upto(slots: Seq<Option<PageNode>>, adj: Seq<Vec<bool>>, n: int, m: int) -> Seq<BridgePage>
    decreases m,
{
    if m <= 0 {
        Seq::empty()
    } else {
        match bridge_at(slots, adj, n, m) {
            Some(b) => bridges_upto(slots, adj, n, m - 1).push(b),
            None => bridges_upto(slots, adj, n, m - 1),
        }
    }
}

proof fn lemma_firsts_below_bound(adj: Seq<Vec<bool>>, ex: int, m: int)
    ensures
        0 <= firsts_below(adj, ex, m) <= if m > 0 {
            m
        } else {
            0
        },
    decreases m,
{
    if m > 0 {
        lemma_firsts_below_bound(adj, ex, m - 1);
    }
}

/// The articulation points among pages `1..=n`: the pages whose removal
/// leaves the graph with more components than it has, each with the
/// number of components it leaves and its degree.
pub fn detect_bridges(graph: &PageGraph, adj: &[Vec<bool>]) -> (r: Vec<BridgePage>)
    requires
        is_square(adj@),
        graph.pages_numbered(),
        forall|i: int| 0 <= i < graph.count() ==> #[trigger] graph.degree(i) <= usize::MAX,
    ensures
        r@ == (if graph.count() < 2 {
            Seq::empty()
        } else {
            bridges_upto(graph.slots(), adj@, graph.count(), graph.count())
        }),
{
    let n = graph.page_count();
    let mut bridges: Vec<BridgePage> = Vec::new();
    if n < 2 {
        return bridges;
    }
    let degs = graph.degrees();
    let base = count_components_excluding(adj, n);
    let mut p: usize = 0;
    while p < n
        invariant
            n == graph.count(),
            p <= n,
            is_square(adj@),
            degs@.len() == n,
            forall|i: int| 0 <= i < n ==> #[trigger] degs@[i] == graph.degree(i),
            base == component_count(adj@, n as int),
            bridges@ == bridges_upto(graph.slots(), adj@, n as int, p as int),
        decreases n - p,
    {
        let page = p + 1;
        match graph.get_page(page) {
            Some(node) => {
                let components = count_components_excluding(adj, page - 1);
                if components > base {
                    let b = BridgePage {
                        page: node.page,
                        title: node.title.clone(),
                        splits_into: components,
                        degree: degs[p],
                    };
                    bridges.push(b);
                }
            },
            None => {},
        }
        p = p + 1;
    }
    bridges
}

// ---------------------------------------------------------------------------
// Components
// ---------------------------------------------------------------------------

/// A path walked backwards, in a symmetric graph.
proof fn lemma_reach_symmetric(adj: Seq<Vec<bool>>, blocked: Seq<bool>, u: int, v: int)
    requires
        is_square(adj),
        is_symmetric(adj),
        reach(adj, blocked, u, v),
    ensures
        reach(adj, blocked, v, u),
{
    let p = choose|p: Seq<int>| #[trigger] is_path(adj, blocked, p) && p[0] == u && p.last() == v;
    let q = p.reverse();
    assert forall|k: int| 0 <= k < q.len() implies 0 <= #[trigger] q[k] < adj.len() && !blocked[q[k]] by {
        assert(q[k] == p[p.len() - 1 - k]);
    }
    assert forall|k: int| 0 <= k < q.len() - 1 implies #[trigger] step_ok(adj, q, k) by {
        let a = p.len() - 2 - k;
        assert(step_ok(adj, p, a));
        assert(q[k] == p[a + 1]);
        assert(q[k + 1] == p[a]);
        assert(0 <= p[a] < adj.len() && 0 <= p[a + 1] < adj.len());
        assert(adj[p[a]]@[p[a + 1]] == adj[p[a + 1]]@[p[a]]);
    }
    assert(is_path(adj, blocked, q));
}

/// The components of a graph without vertex `ex` partition its other
/// vertices: each lies in the component of exactly one component start
/// (for a symmetric matrix, where reaching is mutual).  So
/// `component_count` counts the connected components.
pub proof fn lemma_components_partition(adj: Seq<Vec<bool>>, ex: int, v: int)
    requires
        is_square(adj),
        is_symmetric(adj),
        0 <= v < adj.len(),
        v != ex,
    ensures
        exists|r: int| #[trigger] is_first_of_component(adj, ex, r) && reach(adj, only(adj.len() as int, ex), r, v),
        forall|r1: int, r2: int|
            #[trigger] is_first_of_component(adj, ex, r1) && #[trigger] is_first_of_component(adj, ex, r2)
                && reach(adj, only(adj.len() as int, ex), r1, v) && reach(
                adj,
                only(adj.len() as int, ex),
                r2,
                v,
            ) ==> r1 == r2,
{
    let b = only(adj.len() as int, ex);
    lemma_reach_self(adj, b, v);
    lemma_least_reacher(adj, ex, v, v);
    assert forall|r1: int, r2: int|
        #[trigger] is_first_of_component(adj, ex, r1) && #[trigger] is_first_of_component(adj, ex, r2)
            && reach(adj, b, r1, v) && reach(adj, b, r2, v) implies r1 == r2 by {
        lemma_reach_symmetric(adj, b, r2, v);
        lemma_reach_trans(adj, b, r1, v, r2);
        lemma_reach_symmetric(adj, b, r1, r2);
        if r1 < r2 {
            assert(!reach(adj, b, r1, r2));
        } else if r2 < r1 {
            assert(!reach(adj, b, r2, r1));
        }
    }
}

/// Some component start reaches `v`: the least vertex that reaches it.
proof fn lemma_least_reacher(adj: Seq<Vec<bool>>, ex: int, v: int, j: int)
    requires
        is_square(adj),
        0 <= v < adj.len(),
        0 <= j < adj.len(),
        j != ex,
        reach(adj, only(adj.len() as int, ex), j, v),
    ensures
        exists|r: int| #[trigger] is_first_of_component(adj, ex, r) && reach(adj, only(adj.len() as int, ex), r, v),
    decreases j,
{
    let b = only(adj.len() as int, ex);
    if is_first_of_component(adj, ex, j) {
    } else {
        let j2 = choose|j2: int| 0 <= j2 < j && j2 != ex && #[trigger] reach(adj, b, j2, j);
        lemma_reach_trans(adj, b, j2, j, v);
        lemma_least_reacher(adj, ex, v, j2);
    }
}

} // verus!
