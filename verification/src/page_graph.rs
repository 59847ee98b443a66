//! A document as a graph on the hexagonal lattice: pages are nodes placed
//! along the hex spiral (or at given points), cross-references are directed
//! edges, and the reading flow is the path through the pages in page order.

use vstd::prelude::*;
use crate::lattice::{HexCoord, hex_norm, hex_norm_fits, difference_fits};
use crate::spiral::{ring_index, spiral_at, spiral_position, spiral_index_ok, unit_corner};

verus! {

/// A page node in the document graph.
#[derive(Debug, Clone)]
pub struct PageNode {
    /// Page number (1-indexed).
    pub page: usize,
    /// Page title / heading text.
    pub title: String,
    /// Lattice point of the page.
    pub position: HexCoord,
    /// Cross-references to other pages (by page number).
    pub refs: Vec<usize>,
}

impl PageNode {
    /// A page node at `position` with no cross-references.
    pub fn new(page: usize, title: String, position: HexCoord) -> (n: PageNode)
        ensures
            n.page == page,
            n.title == title,
            n.position == position,
            n.refs@ == Seq::<usize>::empty(),
    {
        PageNode { page, title, position, refs: Vec::new() }
    }
}

// ---------------------------------------------------------------------------
// The model: a sequence of slots, slot `p` holding page number `p`
// ---------------------------------------------------------------------------

/// The node in slot `p`, if any.
pub open spec fn slot(slots: Seq<Option<PageNode>>, p: int) -> Option<PageNode> {
    if 0 <= p < slots.len() {
        slots[p]
    } else {
        None
    }
}

/// The node that reference `k` of the node in slot `s` leads to, if both
/// exist.
pub open spec fn ref_target(slots: Seq<Option<PageNode>>, s: int, k: int) -> Option<PageNode> {
    match slot(slots, s) {
        Some(n) => if 0 <= k < n.refs@.len() {
            slot(slots, n.refs@[k] as int)
        } else {
            None
        },
        None => None,
    }
}

/// Reference `k` of slot `s` links the page with index `i` (page number
/// minus one) to the page with index `j`.
pub open spec fn link(slots: Seq<Option<PageNode>>, s: int, k: int, i: int, j: int) -> bool {
    &&& slot(slots, s) is Some
    &&& ref_target(slots, s, k) is Some
    &&& slot(slots, s)->0.page - 1 == i
    &&& ref_target(slots, s, k)->0.page - 1 == j
}

/// Some cross-reference leads from page index `i` to page index `j`.
pub open spec fn linked(slots: Seq<Option<PageNode>>, i: int, j: int) -> bool {
    exists|s: int, k: int| #[trigger] link(slots, s, k, i, j)
}

/// Some reference among those before reference `k` of slot `s` (in slot
/// order, then reference order) links `i` to `j`.
pub open spec fn linked_before(slots: Seq<Option<PageNode>>, s: int, k: int, i: int, j: int) -> bool {
    exists|s2: int, k2: int| (s2 < s || (s2 == s && k2 < k)) && #[trigger] link(slots, s2, k2, i, j)
}

/// The page numbers of the filled slots below `m`, in order.
pub open spec fn present_pages(slots: Seq<Option<PageNode>>, m: int) -> Seq<usize>
    decreases m,
{
    if m <= 0 {
        Seq::empty()
    } else if slot(slots, m - 1) is Some {
        present_pages(slots, m - 1).push((m - 1) as usize)
    } else {
        present_pages(slots, m - 1)
    }
}

/// The nodes of the filled slots below `m`, in order.
pub open spec fn present_nodes(slots: Seq<Option<PageNode>>, m: int) -> Seq<PageNode>
    decreases m,
{
    if m <= 0 {
        Seq::empty()
    } else if slot(slots, m - 1) is Some {
        present_nodes(slots, m - 1).push(slot(slots, m - 1)->0)
    } else {
        present_nodes(slots, m - 1)
    }
}

/// The number of cross-references held by the slots below `m`.
pub open spec fn refs_total(slots: Seq<Option<PageNode>>, m: int) -> int
    decreases m,
{
    if m <= 0 {
        0
    } else {
        refs_total(slots, m - 1) + match slot(slots, m - 1) {
            Some(n) => n.refs@.len() as int,
            None => 0,
        }
    }
}

/// References `0..k` of slot `s` that lead to a page with index `i`.
pub open spec fn refs_into(slots: Seq<Option<PageNode>>, s: int, k: int, i: int) -> int
    decreases k,
{
    if k <= 0 {
        0
    } else {
        refs_into(slots, s, k - 1, i) + if ref_target(slots, s, k - 1) is Some && ref_target(
            slots,
            s,
            k - 1,
        )->0.page - 1 == i {
            1int
        } else {
            0
        }
    }
}

/// The number of references in slot `s`.
pub open spec fn refs_len(slots: Seq<Option<PageNode>>, s: int) -> int {
    match slot(slots, s) {
        Some(n) => n.refs@.len() as int,
        None => 0,
    }
}

/// The degree contributions of slots below `m` to page index `i`: each
/// node counts its references toward its own page, and each resolvable
/// reference counts one toward its target.
pub open spec fn degree_upto(slots: Seq<Option<PageNode>>, m: int, i: int) -> int
    decreases m,
{
    if m <= 0 {
        0
    } else {
        degree_upto(slots, m - 1, i) + (if slot(slots, m - 1) is Some && slot(slots, m - 1)->0.page
            - 1 == i {
            refs_len(slots, m - 1)
        } else {
            0
        }) + refs_into(slots, m - 1, refs_len(slots, m - 1), i)
    }
}

/// A document as a graph on the hexagonal lattice.
#[derive(Debug, Clone)]
pub struct PageGraph {
    pages: Vec<Option<PageNode>>,
    page_count: usize,
    reading_path: Vec<HexCoord>,
}

impl PageGraph {
    /// The slots: slot `p` holds the node added as page `p`, if any.
    pub closed spec fn slots(&self) -> Seq<Option<PageNode>> {
        self.pages@
    }

    /// The number of pages added (re-adding a page number counts again).
    pub closed spec fn count(&self) -> int {
        self.page_count as int
    }

    /// The node of page `p`, if any.
    pub open spec fn node(&self, p: int) -> Option<PageNode> {
        slot(self.slots(), p)
    }

    /// Every node carries a page number of at least 1.
    pub open spec fn pages_numbered(&self) -> bool {
        forall|p: int| #[trigger] self.node(p) matches Some(n) ==> n.page >= 1
    }

    /// `new` holds `old` with page `page` (re)placed as a node with the
    /// given title and position and no references.
    pub open spec fn placed(
        old: &PageGraph,
        new: &PageGraph,
        page: int,
        title: String,
        pos: HexCoord,
    ) -> bool {
        &&& new.slots().len() == (if page < old.slots().len() {
            old.slots().len() as int
        } else {
            page + 1
        })
        &&& forall|p: int| p != page ==> #[trigger] new.node(p) == old.node(p)
        &&& new.node(page) matches Some(n) && n.page == page && n.title == title && n.position
            == pos && n.refs@.len() == 0
    }

    /// An empty graph.
    pub fn new() -> (g: PageGraph)
        ensures
            g.count() == 0,
            g.slots() == seq![None::<PageNode>],
    {
        let mut pages: Vec<Option<PageNode>> = Vec::new();
        pages.push(None);
        PageGraph { pages, page_count: 0, reading_path: Vec::new() }
    }

    fn place(&mut self, page: usize, node: PageNode)
        requires
            page < usize::MAX,
            old(self).count() < usize::MAX,
        ensures
            final(self).count() == old(self).count() + 1,
            final(self).slots().len() == (if page < old(self).slots().len() {
                old(self).slots().len() as int
            } else {
                page + 1
            }),
            forall|p: int| p != page ==> #[trigger] final(self).node(p) == old(self).node(p),
            final(self).node(page as int) == Some(node),
    {
        let ghost start = self.pages@;
        let ghost count0 = self.page_count;
        while self.pages.len() <= page
            invariant
                page < usize::MAX,
                self.page_count == count0,
                count0 < usize::MAX,
                start.len() <= self.pages@.len() <= (if page < start.len() {
                    start.len() as int
                } else {
                    page + 1
                }),
                forall|p: int| 0 <= p < self.pages@.len() ==> #[trigger] self.pages@[p] == slot(
                    start,
                    p,
                ),
            decreases page + 1 - self.pages.len(),
        {
            self.pages.push(None);
        }
        self.pages.set(page, Some(node));
        self.page_count = self.page_count + 1;
        assert forall|p: int| p != page implies #[trigger] self.node(p) == slot(start, p) by {
            if 0 <= p < self.pages@.len() {
                assert(self.pages@[p] == slot(start, p));
            }
        }
    }

    /// Adds page `page` at the next point of the hexagonal spiral (the
    /// `n`-th point for the `n`-th page added).
    pub fn add_page(&mut self, page: usize, title: String)
        requires
            page > 0,
            page < usize::MAX,
            old(self).count() < usize::MAX,
            spiral_index_ok(old(self).count()),
        ensures
            final(self).count() == old(self).count() + 1,
            PageGraph::placed(
                old(self),
                final(self),
                page as int,
                title,
                spiral_position(old(self).count()),
            ),
            old(self).count() == 0 ==> (final(self).node(page as int) matches Some(n)
                && n.position == (HexCoord { a: 0, b: 0 })),
            forall|k: int, s: int, t: int|
                k >= 1 && 0 <= s < 6 && 0 <= t < k && old(self).count() == #[trigger] ring_index(
                    k,
                    s,
                    t,
                ) ==> (final(self).node(page as int) matches Some(n) && n.position.a == k
                    * unit_corner(s).0 + t * (unit_corner(s + 1).0 - unit_corner(s).0)
                    && n.position.b == k * unit_corner(s).1 + t * (unit_corner(s + 1).1
                    - unit_corner(s).1)),
    {
        let position = spiral_at(self.page_count);
        let node = PageNode::new(page, title, position);
        self.place(page, node);
    }

    /// Adds page `page` at the lattice point `pos`.
    pub fn add_page_at(&mut self, page: usize, title: String, pos: HexCoord)
        requires
            page > 0,
            page < usize::MAX,
            old(self).count() < usize::MAX,
        ensures
            final(self).count() == old(self).count() + 1,
            PageGraph::placed(old(self), final(self), page as int, title, pos),
    {
        let node = PageNode::new(page, title, pos);
        self.place(page, node);
    }

    /// Adds a cross-reference from page `from` to page `to`, unless page
    /// `from` is absent or already refers to `to`.
    pub fn add_ref(&mut self, from: usize, to: usize)
        ensures
            final(self).count() == old(self).count(),
            final(self).slots().len() == old(self).slots().len(),
            forall|p: int| p != from ==> #[trigger] final(self).node(p) == old(self).node(p),
            match old(self).node(from as int) {
                None => final(self).node(from as int) is None,
                Some(n) => final(self).node(from as int) matches Some(m) && m.page == n.page
                    && m.title == n.title && m.position == n.position && m.refs@ == (if n.refs@.contains(
                    to,
                ) {
                    n.refs@
                } else {
                    n.refs@.push(to)
                }),
            },
    {
        if from < self.pages.len() {
            let mut taken: Option<PageNode> = None;
            self.pages.set_and_swap(from, &mut taken);
            match taken {
                Some(mut node) => {
                    if !contains_usize(&node.refs, to) {
                        node.refs.push(to);
                    }
                    self.pages.set(from, Some(node));
                },
                None => {},
            }
        }
    }

    /// The node of page `page`, if any.
    pub fn get_page(&self, page: usize) -> (r: Option<&PageNode>)
        ensures
            match r {
                Some(n) => self.node(page as int) == Some(*n),
                None => self.node(page as int) is None,
            },
    {
        if page < self.pages.len() {
            self.pages[page].as_ref()
        } else {
            None
        }
    }

    /// The node of page `page`, if any, for changing in place.
    pub fn get_page_mut(&mut self, page: usize) -> (r: Option<&mut PageNode>)
        ensures
            final(self).count() == old(self).count(),
            match old(self).node(page as int) {
                None => r is None && final(self).slots() == old(self).slots(),
                Some(n) => r matches Some(m) && *m == n && final(self).slots() == old(
                    self,
                ).slots().update(page as int, Some(*final(m))),
            },
    {
        if page < self.pages.len() {
            self.pages[page].as_mut()
        } else {
            None
        }
    }

    /// The number of slots (one more than the highest page number used).
    pub(crate) fn slot_len(&self) -> (n: usize)
        ensures
            n == self.slots().len(),
    {
        self.pages.len()
    }

    /// The number of pages added.
    pub fn page_count(&self) -> (n: usize)
        ensures
            n == self.count(),
    {
        self.page_count
    }

    /// The page numbers that hold a node, in increasing order.
    pub fn page_numbers(&self) -> (r: Vec<usize>)
        ensures
            r@ == present_pages(self.slots(), self.slots().len() as int),
    {
        let mut r: Vec<usize> = Vec::new();
        let n = self.pages.len();
        let mut i: usize = 0;
        while i < n
            invariant
                n == self.slots().len(),
                i <= n,
                r@ == present_pages(self.slots(), i as int),
            decreases n - i,
        {
            if self.pages[i].is_some() {
                r.push(i);
            }
            i = i + 1;
        }
        r
    }

    /// The nodes, in page order.
    pub fn nodes(&self) -> (r: Vec<&PageNode>)
        ensures
            r@.len() == present_nodes(self.slots(), self.slots().len() as int).len(),
            forall|i: int|
                0 <= i < r@.len() ==> *r@[i] == present_nodes(
                    self.slots(),
                    self.slots().len() as int,
                )[i],
    {
        let mut r: Vec<&PageNode> = Vec::new();
        let n = self.pages.len();
        let mut i: usize = 0;
        while i < n
            invariant
                n == self.slots().len(),
                i <= n,
                r@.len() == present_nodes(self.slots(), i as int).len(),
                forall|j: int|
                    0 <= j < r@.len() ==> *r@[j] == present_nodes(self.slots(), i as int)[j],
            decreases n - i,
        {
            match &self.pages[i] {
                Some(node) => {
                    r.push(node);
                },
                None => {},
            }
            i = i + 1;
        }
        r
    }

    /// The total number of cross-references.
    pub fn total_refs(&self) -> (t: usize)
        requires
            refs_total(self.slots(), self.slots().len() as int) <= usize::MAX,
        ensures
            t == refs_total(self.slots(), self.slots().len() as int),
    {
        let n = self.pages.len();
        let mut t: usize = 0;
        let mut i: usize = 0;
        while i < n
            invariant
                n == self.slots().len(),
                i <= n,
                t == refs_total(self.slots(), i as int),
                refs_total(self.slots(), n as int) <= usize::MAX,
            decreases n - i,
        {
            proof {
                lemma_refs_total_monotone(self.slots(), i as int + 1, n as int);
            }
            match &self.pages[i] {
                Some(node) => {
                    t = t + node.refs.len();
                },
                None => {},
            }
            i = i + 1;
        }
        t
    }

    /// The hex distance between the positions of pages `a` and `b`, when
    /// both exist.
    pub fn page_distance(&self, a: usize, b: usize) -> (d: Option<u32>)
        requires
            self.node(a as int) is Some && self.node(b as int) is Some ==> {
                let pa = self.node(a as int)->0.position;
                let pb = self.node(b as int)->0.position;
                difference_fits(pa, pb) && hex_norm_fits(pa.a - pb.a, pa.b - pb.b)
            },
        ensures
            d == (if self.node(a as int) is Some && self.node(b as int) is Some {
                let pa = self.node(a as int)->0.position;
                let pb = self.node(b as int)->0.position;
                Some(hex_norm(pa.a - pb.a, pa.b - pb.b) as u32)
            } else {
                None
            }),
    {
        let pa = match self.get_page(a) {
            Some(n) => n,
            None => {
                return None;
            },
        };
        let pb = match self.get_page(b) {
            Some(n) => n,
            None => {
                return None;
            },
        };
        let delta = pa.position.minus(&pb.position);
        Some(delta.hex_distance())
    }
}

impl Default for PageGraph {
    fn default() -> (g: PageGraph)
        ensures
            g.count() == 0,
            g.slots() == seq![None::<PageNode>],
    {
        PageGraph::new()
    }
}

/// Whether `v` holds `x`.
fn contains_usize(v: &Vec<usize>, x: usize) -> (b: bool)
    ensures
        b == v@.contains(x),
{
    let n = v.len();
    let mut i: usize = 0;
    while i < n
        invariant
            n == v@.len(),
            i <= n,
            forall|j: int| 0 <= j < i ==> v@[j] != x,
        decreases n - i,
    {
        if v[i] == x {
            return true;
        }
        i = i + 1;
    }
    false
}

proof fn lemma_refs_total_monotone(slots: Seq<Option<PageNode>>, i: int, j: int)
    requires
        i <= j,
    ensures
        refs_total(slots, i) <= refs_total(slots, j),
    decreases j - i,
{
    if i < j {
        lemma_refs_total_monotone(slots, i, j - 1);
    }
}


// ---------------------------------------------------------------------------
// Reading path and adjacency
// ---------------------------------------------------------------------------

/// Every listed page number is below `m` and holds a node.
pub(crate) proof fn lemma_present_pages(slots: Seq<Option<PageNode>>, m: int)
    requires
        m <= usize::MAX + 1,
    ensures
        forall|i: int|
            0 <= i < present_pages(slots, m).len() ==> (#[trigger] present_pages(slots, m)[i] as int)
                < m && slot(slots, present_pages(slots, m)[i] as int) is Some,
        forall|i: int, j: int|
            0 <= i < j < present_pages(slots, m).len() ==> present_pages(slots, m)[i]
                < present_pages(slots, m)[j],
        present_pages(slots, m).len() <= if m > 0 {
            m
        } else {
            0
        },
    decreases m,
{
    if m > 0 {
        lemma_present_pages(slots, m - 1);
        let p = present_pages(slots, m - 1);
        let q = present_pages(slots, m);
        if slot(slots, m - 1) is Some {
            assert(q == p.push((m - 1) as usize));
            assert forall|i: int| 0 <= i < q.len() implies (#[trigger] q[i] as int) < m && slot(
                slots,
                q[i] as int,
            ) is Some by {
                if i < p.len() {
                    assert(q[i] == p[i]);
                }
            }
            assert forall|i: int, j: int| 0 <= i < j < q.len() implies q[i] < q[j] by {
                assert(q[i] == p[i]);
                if j < p.len() {
                    assert(q[j] == p[j]);
                }
            }
        } else {
            assert(q == p);
        }
    }
}

/// No links come before the first reference of the first slot.
pub(crate) proof fn lemma_linked_before_start(slots: Seq<Option<PageNode>>, i: int, j: int)
    ensures
        !linked_before(slots, 0, 0, i, j),
{
    if linked_before(slots, 0, 0, i, j) {
        let (s2, k2) = choose|s2: int, k2: int|
            (s2 < 0 || (s2 == 0 && k2 < 0)) && #[trigger] link(slots, s2, k2, i, j);
        assert(false);
    }
}

/// Indices of a square matrix stored row by row.
pub(crate) proof fn lemma_square_index(n: int, x: int, y: int, i: int, j: int)
    requires
        0 <= x < n,
        0 <= y < n,
        0 <= i < n,
        0 <= j < n,
    ensures
        0 <= x * n + y < n * n,
        x * n + y == i * n + j ==> x == i && y == j,
{
    assert(0 <= x * n + y < n * n) by (nonlinear_arith)
        requires
            0 <= x < n,
            0 <= y < n,
    ;
    if x * n + y == i * n + j {
        if x < i {
            assert(x * n + y < i * n + j) by (nonlinear_arith)
                requires
                    x < i,
                    0 <= y < n,
                    0 <= j,
            ;
        } else if x > i {
            assert(x * n + y > i * n + j) by (nonlinear_arith)
                requires
                    x > i,
                    0 <= j < n,
                    0 <= y,
            ;
        }
    }
}

/// Moving past a whole slot: the links before `(s, len)` are those before
/// `(s + 1, 0)`.
pub(crate) proof fn lemma_linked_before_next_slot(slots: Seq<Option<PageNode>>, s: int, i: int, j: int)
    ensures
        linked_before(slots, s + 1, 0, i, j) == linked_before(slots, s, refs_len(slots, s), i, j),
{
    if linked_before(slots, s + 1, 0, i, j) {
        let (s2, k2) = choose|s2: int, k2: int|
            (s2 < s + 1 || (s2 == s + 1 && k2 < 0)) && #[trigger] link(slots, s2, k2, i, j);
        assert((s2 < s || (s2 == s && k2 < refs_len(slots, s))) && link(slots, s2, k2, i, j));
    }
    if linked_before(slots, s, refs_len(slots, s), i, j) {
        let (s2, k2) = choose|s2: int, k2: int|
            (s2 < s || (s2 == s && k2 < refs_len(slots, s))) && #[trigger] link(
                slots,
                s2,
                k2,
                i,
                j,
            );
        assert((s2 < s + 1 || (s2 == s + 1 && k2 < 0)) && link(slots, s2, k2, i, j));
    }
}

/// Moving past one reference.
pub(crate) proof fn lemma_linked_before_next_ref(slots: Seq<Option<PageNode>>, s: int, k: int, i: int, j: int)
    ensures
        linked_before(slots, s, k + 1, i, j) == (linked_before(slots, s, k, i, j) || link(
            slots,
            s,
            k,
            i,
            j,
        )),
{
    if linked_before(slots, s, k + 1, i, j) {
        let (s2, k2) = choose|s2: int, k2: int|
            (s2 < s || (s2 == s && k2 < k + 1)) && #[trigger] link(slots, s2, k2, i, j);
        if !(s2 == s && k2 == k) {
            assert((s2 < s || (s2 == s && k2 < k)) && link(slots, s2, k2, i, j));
        }
    }
    if link(slots, s, k, i, j) {
        assert((s < s || (s == s && k < k + 1)) && link(slots, s, k, i, j));
    }
    if linked_before(slots, s, k, i, j) {
        let (s2, k2) = choose|s2: int, k2: int|
            (s2 < s || (s2 == s && k2 < k)) && #[trigger] link(slots, s2, k2, i, j);
        assert((s2 < s || (s2 == s && k2 < k + 1)) && link(slots, s2, k2, i, j));
    }
}

/// All links lie among the slots.
pub(crate) proof fn lemma_linked_before_all(slots: Seq<Option<PageNode>>, i: int, j: int)
    ensures
        linked_before(slots, slots.len() as int, 0, i, j) == linked(slots, i, j),
{
    if linked(slots, i, j) {
        let (s2, k2) = choose|s2: int, k2: int| #[trigger] link(slots, s2, k2, i, j);
        assert(s2 < slots.len());
        assert((s2 < slots.len() || (s2 == slots.len() && k2 < 0)) && link(slots, s2, k2, i, j));
    }
}

impl PageGraph {
    /// The positions of consecutive pages can be subtracted in `i32`.
    pub open spec fn reading_steps_fit(&self) -> bool {
        let nums = present_pages(self.slots(), self.slots().len() as int);
        forall|i: int| 0 <= i < nums.len() - 1 ==> #[trigger] self.step_fits(nums, i)
    }

    /// The step from page `nums[i]` to page `nums[i + 1]` can be computed.
    pub open spec fn step_fits(&self, nums: Seq<usize>, i: int) -> bool {
        difference_fits(
            self.node(nums[i + 1] as int)->0.position,
            self.node(nums[i] as int)->0.position,
        )
    }

    /// The reading path: the step from each page to the next in page order,
    /// as a lattice difference.
    pub fn reading_path_directions(&self) -> (r: Vec<HexCoord>)
        requires
            self.reading_steps_fit(),
        ensures
            ({
                let nums = present_pages(self.slots(), self.slots().len() as int);
                &&& r@.len() == (if nums.len() == 0 {
                    0
                } else {
                    nums.len() - 1
                })
                &&& forall|i: int|
                    0 <= i < r@.len() ==> {
                        let p = self.node(nums[i + 1] as int)->0.position;
                        let q = self.node(nums[i] as int)->0.position;
                        #[trigger] r@[i] == (HexCoord { a: (p.a - q.a) as i32, b: (p.b - q.b) as i32 })
                    }
            }),
    {
        let nums = self.page_numbers();
        let ghost gnums = present_pages(self.slots(), self.slots().len() as int);
        let total_slots = self.pages.len();
        assert(self.slots().len() <= usize::MAX);
        proof {
            lemma_present_pages(self.slots(), self.slots().len() as int);
        }
        let mut r: Vec<HexCoord> = Vec::new();
        if nums.len() < 2 {
            return r;
        }
        let m = nums.len() - 1;
        let mut i: usize = 0;
        while i < m
            invariant
                nums@ == gnums,
                gnums == present_pages(self.slots(), self.slots().len() as int),
                m == nums@.len() - 1,
                i <= m,
                r@.len() == i,
                self.reading_steps_fit(),
                forall|t: int|
                    0 <= t < gnums.len() ==> slot(self.slots(), #[trigger] gnums[t] as int) is Some,
                forall|t: int|
                    0 <= t < r@.len() ==> {
                        let p = self.node(gnums[t + 1] as int)->0.position;
                        let q = self.node(gnums[t] as int)->0.position;
                        #[trigger] r@[t] == (HexCoord { a: (p.a - q.a) as i32, b: (p.b - q.b) as i32 })
                    },
            decreases m - i,
        {
            let a = nums[i];
            let b = nums[i + 1];
            assert(slot(self.slots(), gnums[i as int] as int) is Some);
            assert(slot(self.slots(), gnums[i + 1] as int) is Some);
            match (self.get_page(a), self.get_page(b)) {
                (Some(p1), Some(p2)) => {
                    assert(self.step_fits(gnums, i as int));
                    let delta = p2.position.minus(&p1.position);
                    r.push(delta);
                },
                _ => {
                    assert(false);
                },
            }
            i = i + 1;
        }
        r
    }

    /// The flat adjacency matrix of pages `1..=n` (`n` the page count):
    /// entry `i * n + j` is set when a cross-reference joins the pages with
    /// numbers `i + 1` and `j + 1`, in either direction.
    pub fn adjacency_matrix(&self) -> (r: Vec<bool>)
        requires
            self.pages_numbered(),
            self.count() * self.count() <= usize::MAX,
        ensures
            r@.len() == self.count() * self.count(),
            forall|i: int, j: int|
                0 <= i < self.count() && 0 <= j < self.count() ==> #[trigger] r@[i * self.count()
                    + j] == (linked(self.slots(), i, j) || linked(self.slots(), j, i)),
            forall|i: int, j: int|
                0 <= i < self.count() && 0 <= j < self.count() ==> #[trigger] r@[i * self.count()
                    + j] == #[trigger] r@[j * self.count() + i],
    {
        let n = self.page_count;
        let nn = n * n;
        let mut mat: Vec<bool> = Vec::new();
        let mut t: usize = 0;
        while t < nn
            invariant
                t <= nn,
                mat@.len() == t,
                forall|u: int| 0 <= u < t ==> mat@[u] == false,
            decreases nn - t,
        {
            mat.push(false);
            t = t + 1;
        }
        let ghost slots = self.slots();
        let len = self.pages.len();
        let mut s: usize = 0;
        assert forall|x: int, y: int|
            0 <= x < n && 0 <= y < n implies #[trigger] mat@[x * n + y] == (linked_before(
                slots,
                0,
                0,
                x,
                y,
            ) || linked_before(slots, 0, 0, y, x)) by {
            lemma_linked_before_start(slots, x, y);
            lemma_linked_before_start(slots, y, x);
            lemma_square_index(n as int, x, y, 0, 0);
        }
        while s < len
            invariant
                slots == self.slots(),
                len == slots.len(),
                s <= len,
                n == self.count(),
                nn == n * n,
                mat@.len() == nn,
                self.pages_numbered(),
                forall|x: int, y: int|
                    0 <= x < n && 0 <= y < n ==> #[trigger] mat@[x * n + y] == (linked_before(
                        slots,
                        s as int,
                        0,
                        x,
                        y,
                    ) || linked_before(slots, s as int, 0, y, x)),
            decreases len - s,
        {
            match &self.pages[s] {
                Some(node) => {
                    assert(self.node(s as int) is Some);
                    let i = node.page - 1;
                    let rl = node.refs.len();
                    let mut k: usize = 0;
                    while k < rl
                        invariant
                            slots == self.slots(),
                            len == slots.len(),
                            s < len,
                            slot(slots, s as int) == Some(*node),
                            rl == node.refs@.len(),
                            i == node.page - 1,
                            k <= rl,
                            n == self.count(),
                            nn == n * n,
                            mat@.len() == nn,
                            self.pages_numbered(),
                            forall|x: int, y: int|
                                0 <= x < n && 0 <= y < n ==> #[trigger] mat@[x * n + y] == (
                                linked_before(slots, s as int, k as int, x, y) || linked_before(
                                    slots,
                                    s as int,
                                    k as int,
                                    y,
                                    x,
                                )),
                        decreases rl - k,
                    {
                        let rp = node.refs[k];
                        let ghost before = mat@;
                        match self.get_page(rp) {
                            Some(other) => {
                                assert(self.node(rp as int) is Some);
                                let j = other.page - 1;
                                if i < n && j < n {
                                    proof {
                                        lemma_square_index(n as int, i as int, j as int, 0, 0);
                                        lemma_square_index(n as int, j as int, i as int, 0, 0);
                                    }
                                    mat.set(i * n + j, true);
                                    mat.set(j * n + i, true);
                                }
                                assert forall|x: int, y: int|
                                    0 <= x < n && 0 <= y < n implies #[trigger] mat@[x * n + y]
                                        == (linked_before(slots, s as int, k + 1, x, y)
                                        || linked_before(slots, s as int, k + 1, y, x)) by {
                                    lemma_linked_before_next_ref(slots, s as int, k as int, x, y);
                                    lemma_linked_before_next_ref(slots, s as int, k as int, y, x);
                                    if i < n && j < n {
                                        lemma_square_index(n as int, x, y, i as int, j as int);
                                        lemma_square_index(n as int, x, y, j as int, i as int);
                                    }
                                    assert(before[x * n + y] == (linked_before(
                                        slots,
                                        s as int,
                                        k as int,
                                        x,
                                        y,
                                    ) || linked_before(slots, s as int, k as int, y, x)));
                                }
                            },
                            None => {
                                assert forall|x: int, y: int|
                                    0 <= x < n && 0 <= y < n implies #[trigger] mat@[x * n + y]
                                        == (linked_before(slots, s as int, k + 1, x, y)
                                        || linked_before(slots, s as int, k + 1, y, x)) by {
                                    lemma_linked_before_next_ref(slots, s as int, k as int, x, y);
                                    lemma_linked_before_next_ref(slots, s as int, k as int, y, x);
                                }
                            },
                        }
                        k = k + 1;
                    }
                    assert forall|x: int, y: int|
                        0 <= x < n && 0 <= y < n implies #[trigger] mat@[x * n + y] == (
                        linked_before(slots, s + 1, 0, x, y) || linked_before(
                            slots,
                            s + 1,
                            0,
                            y,
                            x,
                        )) by {
                        lemma_linked_before_next_slot(slots, s as int, x, y);
                        lemma_linked_before_next_slot(slots, s as int, y, x);
                    }
                },
                None => {
                    assert forall|x: int, y: int|
                        0 <= x < n && 0 <= y < n implies #[trigger] mat@[x * n + y] == (
                        linked_before(slots, s + 1, 0, x, y) || linked_before(
                            slots,
                            s + 1,
                            0,
                            y,
                            x,
                        )) by {
                        lemma_linked_before_next_slot(slots, s as int, x, y);
                        lemma_linked_before_next_slot(slots, s as int, y, x);
                        lemma_linked_before_empty_slot(slots, s as int, x, y);
                        lemma_linked_before_empty_slot(slots, s as int, y, x);
                    }
                },
            }
            s = s + 1;
        }
        assert forall|x: int, y: int|
            0 <= x < n && 0 <= y < n implies #[trigger] mat@[x * n + y] == (linked(slots, x, y)
                || linked(slots, y, x)) by {
            lemma_linked_before_all(slots, x, y);
            lemma_linked_before_all(slots, y, x);
        }
        mat
    }
}

/// An empty slot adds no links.
pub(crate) proof fn lemma_linked_before_empty_slot(slots: Seq<Option<PageNode>>, s: int, i: int, j: int)
    requires
        slot(slots, s) is None,
    ensures
        linked_before(slots, s, refs_len(slots, s), i, j) == linked_before(slots, s, 0, i, j),
{
    assert(refs_len(slots, s) == 0);
}


proof fn lemma_refs_into_monotone(slots: Seq<Option<PageNode>>, s: int, k1: int, k2: int, i: int)
    requires
        k1 <= k2,
    ensures
        0 <= refs_into(slots, s, k1, i) <= refs_into(slots, s, k2, i),
    decreases k2 - k1,
{
    if k1 < k2 {
        lemma_refs_into_monotone(slots, s, k1, k2 - 1, i);
    } else {
        lemma_refs_into_nonneg(slots, s, k1, i);
    }
}

proof fn lemma_refs_into_nonneg(slots: Seq<Option<PageNode>>, s: int, k: int, i: int)
    ensures
        refs_into(slots, s, k, i) >= 0,
    decreases k,
{
    if k > 0 {
        lemma_refs_into_nonneg(slots, s, k - 1, i);
    }
}

proof fn lemma_degree_upto_monotone(slots: Seq<Option<PageNode>>, m1: int, m2: int, i: int)
    requires
        m1 <= m2,
    ensures
        0 <= degree_upto(slots, m1, i) <= degree_upto(slots, m2, i),
    decreases m2 - m1,
{
    if m1 < m2 {
        lemma_degree_upto_monotone(slots, m1, m2 - 1, i);
        lemma_refs_into_nonneg(slots, m2 - 1, refs_len(slots, m2 - 1), i);
    } else {
        lemma_degree_upto_nonneg(slots, m1, i);
    }
}

proof fn lemma_degree_upto_nonneg(slots: Seq<Option<PageNode>>, m: int, i: int)
    ensures
        degree_upto(slots, m, i) >= 0,
    decreases m,
{
    if m > 0 {
        lemma_degree_upto_nonneg(slots, m - 1, i);
        lemma_refs_into_nonneg(slots, m - 1, refs_len(slots, m - 1), i);
    }
}

impl PageGraph {
    /// The degree of page index `i` (page number `i + 1`): the references
    /// the page holds plus the references that lead to it.
    pub open spec fn degree(&self, i: int) -> int {
        degree_upto(self.slots(), self.slots().len() as int, i)
    }

    /// The degree of each page `1..=n` (`n` the page count).
    pub fn degrees(&self) -> (r: Vec<usize>)
        requires
            self.pages_numbered(),
            forall|i: int| 0 <= i < self.count() ==> #[trigger] self.degree(i) <= usize::MAX,
        ensures
            r@.len() == self.count(),
            forall|i: int| 0 <= i < self.count() ==> #[trigger] r@[i] == self.degree(i),
    {
        let n = self.page_count;
        let mut degs: Vec<usize> = Vec::new();
        let mut t: usize = 0;
        while t < n
            invariant
                t <= n,
                degs@.len() == t,
                forall|u: int| 0 <= u < t ==> degs@[u] == 0,
            decreases n - t,
        {
            degs.push(0);
            t = t + 1;
        }
        let ghost slots = self.slots();
        let len = self.pages.len();
        let mut s: usize = 0;
        while s < len
            invariant
                slots == self.slots(),
                len == slots.len(),
                s <= len,
                n == self.count(),
                degs@.len() == n,
                self.pages_numbered(),
                forall|x: int| 0 <= x < n ==> #[trigger] self.degree(x) <= usize::MAX,
                forall|x: int| 0 <= x < n ==> #[trigger] degs@[x] == degree_upto(slots, s as int, x),
            decreases len - s,
        {
            match &self.pages[s] {
                Some(node) => {
                    assert(self.node(s as int) is Some);
                    let i = node.page - 1;
                    let rl = node.refs.len();
                    if i < n {
                        proof {
                            lemma_refs_into_nonneg(slots, s as int, rl as int, i as int);
                            lemma_degree_upto_monotone(slots, s as int + 1, len as int, i as int);
                            assert(self.degree(i as int) <= usize::MAX);
                        }
                        let d = degs[i] + rl;
                        degs.set(i, d);
                    }
                    let mut k: usize = 0;
                    while k < rl
                        invariant
                            slots == self.slots(),
                            len == slots.len(),
                            s < len,
                            slot(slots, s as int) == Some(*node),
                            rl == node.refs@.len(),
                            rl == refs_len(slots, s as int),
                            i == node.page - 1,
                            k <= rl,
                            n == self.count(),
                            degs@.len() == n,
                            self.pages_numbered(),
                            forall|x: int| 0 <= x < n ==> #[trigger] self.degree(x) <= usize::MAX,
                            forall|x: int|
                                0 <= x < n ==> #[trigger] degs@[x] == degree_upto(slots, s as int, x)
                                    + (if x == i {
                                    rl as int
                                } else {
                                    0
                                }) + refs_into(slots, s as int, k as int, x),
                        decreases rl - k,
                    {
                        let rp = node.refs[k];
                        match self.get_page(rp) {
                            Some(other) => {
                                assert(self.node(rp as int) is Some);
                                let j = other.page - 1;
                                if j < n {
                                    proof {
                                        lemma_refs_into_monotone(slots, s as int, k + 1, rl as int, j as int);
                                        lemma_degree_upto_monotone(slots, s as int + 1, len as int, j as int);
                                        assert(self.degree(j as int) <= usize::MAX);
                                    }
                                    let d = degs[j] + 1;
                                    degs.set(j, d);
                                }
                            },
                            None => {},
                        }
                        k = k + 1;
                    }
                },
                None => {},
            }
            s = s + 1;
        }
        degs
    }
}

} // verus!
