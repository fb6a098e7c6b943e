//! Connected regions of a binary mask.
//!
//! Two cells are neighbours when they share an edge (4-connectivity). A region
//! is found by a depth-first flood fill from a seed cell, and the regions of a
//! whole mask by seeding a fill at every set cell not yet reached, row by row.

use vstd::prelude::*;

verus! {

/// A binary mask of `width` × `height` cells, stored row by row.
#[derive(Debug, Clone)]
pub struct Mask {
    pub width: usize,
    pub height: usize,
    pub cells: Vec<bool>,
}

/// Position of cell (`x`, `y`) in a row-by-row layout of rows of `w` cells.
pub open spec fn cell_index(w: nat, x: int, y: int) -> int {
    y * w + x
}

/// A pixel position taken as a pair of integers.
pub open spec fn pos(p: (usize, usize)) -> (int, int) {
    (p.0 as int, p.1 as int)
}

/// Whether `a` and `b` share an edge.
pub open spec fn adjacent(a: (int, int), b: (int, int)) -> bool {
    ||| a.0 == b.0 && (a.1 == b.1 + 1 || b.1 == a.1 + 1)
    ||| a.1 == b.1 && (a.0 == b.0 + 1 || b.0 == a.0 + 1)
}

/// The neighbour of `p` in direction `d`: left, right, up, down for 0 to 3.
pub open spec fn neighbor(p: (int, int), d: int) -> (int, int) {
    if d == 0 {
        (p.0 - 1, p.1)
    } else if d == 1 {
        (p.0 + 1, p.1)
    } else if d == 2 {
        (p.0, p.1 - 1)
    } else {
        (p.0, p.1 + 1)
    }
}

/// A binary grid of `width` × `height` cells, stored row by row.
pub struct Grid {
    pub width: nat,
    pub height: nat,
    pub cells: Seq<bool>,
}

impl View for Mask {
    type V = Grid;

    open spec fn view(&self) -> Grid {
        Grid { width: self.width as nat, height: self.height as nat, cells: self.cells@ }
    }
}

impl Mask {
    /// The cells fill the rectangle exactly.
    pub open spec fn wf(&self) -> bool {
        self@.wf()
    }
}

impl Grid {
    /// The cells fill the rectangle exactly, whose sides fit in a `usize`.
    pub open spec fn wf(&self) -> bool {
        &&& self.cells.len() == self.width * self.height
        &&& self.width <= usize::MAX
        &&& self.height <= usize::MAX
    }

    pub open spec fn in_bounds(&self, p: (int, int)) -> bool {
        0 <= p.0 < self.width && 0 <= p.1 < self.height
    }

    /// Whether `p` lies in the mask and is set.
    pub open spec fn is_set(&self, p: (int, int)) -> bool {
        self.in_bounds(p) && self.cells[cell_index(self.width, p.0, p.1)]
    }

    /// The index of an in-bounds cell.
    pub open spec fn index_of(&self, p: (int, int)) -> int {
        cell_index(self.width, p.0, p.1)
    }
}

/// In-bounds cells have indices inside the rectangle, and distinct cells distinct indices.
pub proof fn lemma_cell_index_bounds(w: nat, h: nat, x: int, y: int)
    requires
        0 <= x < w,
        0 <= y < h,
    ensures
        0 <= cell_index(w, x, y) < w * h,
        cell_index(w, x, y) + 1 <= w * h,
{
    assert(0 <= y * w + x < w * h) by (nonlinear_arith)
        requires
            0 <= x < w,
            0 <= y < h,
    ;
}

/// Distinct in-bounds cells have distinct indices.
pub proof fn lemma_cell_index_injective(w: nat, x1: int, y1: int, x2: int, y2: int)
    requires
        0 <= x1 < w,
        0 <= x2 < w,
        0 <= y1,
        0 <= y2,
        cell_index(w, x1, y1) == cell_index(w, x2, y2),
    ensures
        x1 == x2,
        y1 == y2,
{
    assert(y1 == y2) by (nonlinear_arith)
        requires
            0 <= x1 < w,
            0 <= x2 < w,
            0 <= y1,
            0 <= y2,
            y1 * w + x1 == y2 * w + x2,
    ;
}

/// The number of `true` entries of `s`.
pub open spec fn count_true(s: Seq<bool>) -> nat
    decreases s.len(),
{
    if s.len() == 0 {
        0
    } else {
        count_true(s.drop_last()) + if s.last() { 1nat } else { 0nat }
    }
}

/// At most every entry is `true`.
pub proof fn lemma_count_true_bound(s: Seq<bool>)
    ensures
        count_true(s) <= s.len(),
    decreases s.len(),
{
    if s.len() > 0 {
        lemma_count_true_bound(s.drop_last());
    }
}

/// Setting one `false` entry to `true` adds one to the count.
pub proof fn lemma_count_true_set(s: Seq<bool>, i: int)
    requires
        0 <= i < s.len(),
        !s[i],
    ensures
        count_true(s.update(i, true)) == count_true(s) + 1,
    decreases s.len(),
{
    let t = s.update(i, true);
    if i == s.len() - 1 {
        assert(t.drop_last() =~= s.drop_last());
    } else {
        lemma_count_true_set(s.drop_last(), i);
        assert(t.drop_last() =~= s.drop_last().update(i, true));
    }
}

/// A stack position taken back to the cell it names (for in-bounds cells).
pub open spec fn as_cell(q: (int, int)) -> (usize, usize) {
    (q.0 as usize, q.1 as usize)
}

/// The set neighbour of `p` in direction `d`, if any, has been reached or waits on the stack.
pub open spec fn dir_covered(m: Grid, visited: Seq<bool>, stack: Seq<(usize, usize)>, p: (int, int), d: int) -> bool {
    m.is_set(neighbor(p, d)) ==> visited[m.index_of(neighbor(p, d))] || stack.contains(
        as_cell(neighbor(p, d)),
    )
}

/// Every set neighbour of `p` has been reached or waits on the stack.
pub open spec fn covered(m: Grid, visited: Seq<bool>, stack: Seq<(usize, usize)>, p: (int, int)) -> bool {
    &&& dir_covered(m, visited, stack, p, 0)
    &&& dir_covered(m, visited, stack, p, 1)
    &&& dir_covered(m, visited, stack, p, 2)
    &&& dir_covered(m, visited, stack, p, 3)
}

/// Whether the cell `start` can open a region: it is set and not yet reached.
pub open spec fn can_seed(m: Grid, visited: Seq<bool>, start: (usize, usize)) -> bool {
    m.is_set(pos(start)) && !visited[m.index_of(pos(start))]
}

/// Cell `k` of `cells` shares an edge with an earlier cell of `cells`.
pub open spec fn is_linked(cells: Seq<(usize, usize)>, k: int) -> bool {
    exists|j: int| 0 <= j < k && adjacent(pos(cells[j]), pos(cells[k]))
}

/// `pixels` is what a flood fill from `start` adds to the reached cells
/// `before`, leaving them as `after`:
/// - it lists cells that are set and were not reached, each once;
/// - it starts at `start`, and is empty exactly when `start` cannot seed a region;
/// - each listed cell after the first shares an edge with an earlier one;
/// - `after` is `before` plus the listed cells;
/// - every set neighbour of a listed cell is reached in `after`.
pub open spec fn is_fill(m: Grid, before: Seq<bool>, after: Seq<bool>, start: (usize, usize), pixels: Seq<(usize, usize)>) -> bool {
    &&& after.len() == before.len()
    &&& forall|j: int| 0 <= j < pixels.len() ==> m.is_set(pos(#[trigger] pixels[j])) && !before[m.index_of(pos(pixels[j]))]
    &&& forall|j: int, k: int| 0 <= j < k < pixels.len() ==> pixels[j] != pixels[k]
    &&& (pixels.len() > 0 <==> can_seed(m, before, start))
    &&& pixels.len() > 0 ==> pixels[0] == start
    &&& forall|k: int| 0 < k < pixels.len() ==> #[trigger] is_linked(pixels, k)
    &&& forall|j: int| 0 <= j < pixels.len() ==> after[m.index_of(pos(#[trigger] pixels[j]))]
    &&& forall|i: int| 0 <= i < before.len() && before[i] ==> #[trigger] after[i]
    &&& forall|i: int|
        0 <= i < before.len() && #[trigger] after[i] && !before[i] ==> exists|j: int|
            0 <= j < pixels.len() && m.index_of(pos(pixels[j])) == i
    &&& forall|j: int, q: (int, int)|
        0 <= j < pixels.len() && #[trigger] adjacent(pos(pixels[j]), q) && m.is_set(q) ==> after[m.index_of(q)]
}

proof fn lemma_contains_pop<T>(s: Seq<T>, e: T)
    requires
        s.len() > 0,
        s.contains(e),
        e != s.last(),
    ensures
        s.subrange(0, s.len() - 1).contains(e),
{
    let t = choose|t: int| 0 <= t < s.len() && s[t] == e;
    assert(t != s.len() - 1);
    assert(s.subrange(0, s.len() - 1)[t] == e);
}

/// Growing the reached cells and the stack keeps a cell covered.
proof fn lemma_covered_grow(
    m: Grid,
    v1: Seq<bool>,
    v2: Seq<bool>,
    s1: Seq<(usize, usize)>,
    s2: Seq<(usize, usize)>,
    p: (int, int),
)
    requires
        covered(m, v1, s1, p),
        v1.len() == v2.len(),
        v1.len() == m.cells.len(),
        forall|i: int| 0 <= i < v1.len() && #[trigger] v1[i] ==> v2[i],
        forall|e: (usize, usize)| #[trigger] s1.contains(e) ==> s2.contains(e),
        m.wf(),
    ensures
        covered(m, v2, s2, p),
{
    assert forall|d: int| 0 <= d < 4 implies #[trigger] dir_covered(m, v2, s2, p, d) by {
        let q = neighbor(p, d);
        if m.is_set(q) {
            lemma_cell_index_bounds(m.width, m.height, q.0, q.1);
            if v1[m.index_of(q)] {
            } else {
                assert(s1.contains(as_cell(q)));
            }
        }
    }
    assert(dir_covered(m, v2, s2, p, 0));
    assert(dir_covered(m, v2, s2, p, 1));
    assert(dir_covered(m, v2, s2, p, 2));
    assert(dir_covered(m, v2, s2, p, 3));
}

/// Popping a cell that is now reached, or is not set, keeps a cell covered.
proof fn lemma_covered_pop(m: Grid, v1: Seq<bool>, v2: Seq<bool>, s: Seq<(usize, usize)>, p: (int, int))
    requires
        covered(m, v1, s, p),
        s.len() > 0,
        v1.len() == v2.len(),
        v1.len() == m.cells.len(),
        forall|i: int| 0 <= i < v1.len() && #[trigger] v1[i] ==> v2[i],
        m.is_set(pos(s.last())) ==> v2[m.index_of(pos(s.last()))],
        m.wf(),
    ensures
        covered(m, v2, s.subrange(0, s.len() - 1), p),
{
    let s2 = s.subrange(0, s.len() - 1);
    assert forall|d: int| 0 <= d < 4 implies #[trigger] dir_covered(m, v2, s2, p, d) by {
        let q = neighbor(p, d);
        if m.is_set(q) {
            lemma_cell_index_bounds(m.width, m.height, q.0, q.1);
            if v1[m.index_of(q)] {
            } else if as_cell(q) == s.last() {
                assert(pos(s.last()) == q);
            } else {
                lemma_contains_pop(s, as_cell(q));
            }
        }
    }
    assert(dir_covered(m, v2, s2, p, 0));
    assert(dir_covered(m, v2, s2, p, 1));
    assert(dir_covered(m, v2, s2, p, 2));
    assert(dir_covered(m, v2, s2, p, 3));
}

/// Cells of `s1` are also in `s2`.
pub open spec fn stack_grows(s1: Seq<(usize, usize)>, s2: Seq<(usize, usize)>) -> bool {
    forall|e: (usize, usize)| #[trigger] s1.contains(e) ==> s2.contains(e)
}

/// With an empty stack, a covered cell has all its set neighbours reached.
proof fn lemma_covered_closed(m: Grid, v: Seq<bool>, s: Seq<(usize, usize)>, p: (int, int), q: (int, int))
    requires
        covered(m, v, s, p),
        s.len() == 0,
        adjacent(p, q),
        m.is_set(q),
    ensures
        v[m.index_of(q)],
{
    if q == neighbor(p, 0) {
    } else if q == neighbor(p, 1) {
    } else if q == neighbor(p, 2) {
    } else {
        assert(q == neighbor(p, 3));
    }
}

/// The neighbours of (`x`, `y`) inside a `w` × `h` rectangle, in the order
/// the fill pushes them: left, right, up, down.
pub open spec fn pushes(w: nat, h: nat, x: usize, y: usize) -> Seq<(usize, usize)> {
    (if x > 0 { seq![((x - 1) as usize, y)] } else { Seq::empty() }) + (if x + 1 < w {
        seq![((x + 1) as usize, y)]
    } else {
        Seq::empty()
    }) + (if y > 0 { seq![(x, (y - 1) as usize)] } else { Seq::empty() }) + (if y + 1 < h {
        seq![(x, (y + 1) as usize)]
    } else {
        Seq::empty()
    })
}

/// Pushes the neighbours of (`x`, `y`) that lie inside the rectangle.
fn push_neighbors(stack: &mut Vec<(usize, usize)>, w: usize, h: usize, x: usize, y: usize)
    requires
        x < w,
        y < h,
    ensures
        final(stack)@ == old(stack)@ + pushes(w as nat, h as nat, x, y),
{
    let ghost s0 = stack@;
    let ghost a: Seq<(usize, usize)> = if x > 0 { seq![((x - 1) as usize, y)] } else { Seq::empty() };
    let ghost b: Seq<(usize, usize)> = if x + 1 < w { seq![((x + 1) as usize, y)] } else { Seq::empty() };
    let ghost c: Seq<(usize, usize)> = if y > 0 { seq![(x, (y - 1) as usize)] } else { Seq::empty() };
    let ghost d: Seq<(usize, usize)> = if y + 1 < h { seq![(x, (y + 1) as usize)] } else { Seq::empty() };
    if x > 0 {
        stack.push((x - 1, y));
    }
    assert(stack@ =~= s0 + a);
    if x + 1 < w {
        stack.push((x + 1, y));
    }
    assert(stack@ =~= s0 + a + b);
    if y > 0 {
        stack.push((x, y - 1));
    }
    assert(stack@ =~= s0 + a + b + c);
    if y + 1 < h {
        stack.push((x, y + 1));
    }
    assert(stack@ =~= s0 + a + b + c + d);
    assert(pushes(w as nat, h as nat, x, y) == a + b + c + d);
    assert(s0 + a + b + c + d =~= s0 + (a + b + c + d));
}

/// The state of a flood fill between two steps. Besides the cells found so
/// far (`pixels`) and the cells still to look at (`stack`), it keeps, as proof
/// only: for each stack entry the found cell that pushed it (`parent`, -1 for
/// the seed), for each found cell an earlier neighbour (`link`), and for each
/// newly reached index the found cell at it (`owner`).
spec fn fill_inv(
    m: Grid,
    before: Seq<bool>,
    start: (usize, usize),
    visited: Seq<bool>,
    stack: Seq<(usize, usize)>,
    pixels: Seq<(usize, usize)>,
    parent: Seq<int>,
    link: Seq<int>,
    owner: Seq<int>,
) -> bool {
    &&& m.wf()
    &&& visited.len() == before.len()
    &&& before.len() == m.cells.len()
    &&& owner.len() == before.len()
    &&& parent.len() == stack.len()
    &&& link.len() == pixels.len()
    &&& forall|j: int|
        0 <= j < pixels.len() ==> m.is_set(pos(#[trigger] pixels[j])) && !before[m.index_of(pos(pixels[j]))]
            && visited[m.index_of(pos(pixels[j]))]
    &&& forall|j: int, k: int| 0 <= j < k < pixels.len() ==> pixels[j] != pixels[k]
    &&& pixels.len() > 0 ==> pixels[0] == start
    &&& pixels.len() == 0 ==> visited == before && (stack == seq![start] || (stack.len() == 0 && !can_seed(
        m,
        before,
        start,
    )))
    &&& forall|k: int|
        0 < k < pixels.len() ==> 0 <= #[trigger] link[k] < k && adjacent(pos(pixels[link[k]]), pos(pixels[k]))
    &&& forall|t: int|
        0 <= t < stack.len() ==> (#[trigger] parent[t] == -1 && pixels.len() == 0 && stack[t] == start) || (0
            <= parent[t] < pixels.len() && adjacent(pos(pixels[parent[t]]), pos(stack[t])))
    &&& forall|i: int| 0 <= i < before.len() && before[i] ==> #[trigger] visited[i]
    &&& forall|i: int|
        0 <= i < before.len() && #[trigger] visited[i] && !before[i] ==> 0 <= owner[i] < pixels.len()
            && m.index_of(pos(pixels[owner[i]])) == i
    &&& forall|j: int| 0 <= j < pixels.len() ==> covered(m, visited, stack, pos(#[trigger] pixels[j]))
}

/// Dropping a stack entry that cannot be added keeps the fill state.
proof fn lemma_fill_skip(
    m: Grid,
    before: Seq<bool>,
    start: (usize, usize),
    v: Seq<bool>,
    s: Seq<(usize, usize)>,
    px: Seq<(usize, usize)>,
    parent: Seq<int>,
    link: Seq<int>,
    owner: Seq<int>,
)
    requires
        fill_inv(m, before, start, v, s, px, parent, link, owner),
        s.len() > 0,
        !can_seed(m, v, s.last()),
    ensures
        fill_inv(
            m,
            before,
            start,
            v,
            s.subrange(0, s.len() - 1),
            px,
            parent.subrange(0, parent.len() - 1),
            link,
            owner,
        ),
{
    let s1 = s.subrange(0, s.len() - 1);
    let parent1 = parent.subrange(0, parent.len() - 1);
    assert forall|j: int| 0 <= j < px.len() implies covered(m, v, s1, pos(#[trigger] px[j])) by {
        lemma_covered_pop(m, v, v, s, pos(px[j]));
    }
    assert forall|t: int| 0 <= t < s1.len() implies (#[trigger] parent1[t] == -1 && px.len() == 0 && s1[t]
        == start) || (0 <= parent1[t] < px.len() && adjacent(pos(px[parent1[t]]), pos(s1[t]))) by {
        assert(parent1[t] == parent[t]);
        assert(s1[t] == s[t]);
    }
    if px.len() == 0 {
        assert(s == seq![start]);
        assert(s1.len() == 0);
    }
}

/// Adding the stack's last entry, a set cell not yet reached, and pushing its
/// neighbours keeps the fill state.
proof fn lemma_fill_visit(
    m: Grid,
    before: Seq<bool>,
    start: (usize, usize),
    v: Seq<bool>,
    s: Seq<(usize, usize)>,
    px: Seq<(usize, usize)>,
    parent: Seq<int>,
    link: Seq<int>,
    owner: Seq<int>,
)
    requires
        fill_inv(m, before, start, v, s, px, parent, link, owner),
        s.len() > 0,
        can_seed(m, v, s.last()),
    ensures
        ({
            let c = s.last();
            let i = m.index_of(pos(c));
            let k = px.len() as int;
            let nb = pushes(m.width, m.height, c.0, c.1);
            fill_inv(
                m,
                before,
                start,
                v.update(i, true),
                s.subrange(0, s.len() - 1) + nb,
                px.push(c),
                parent.subrange(0, parent.len() - 1) + Seq::new(nb.len(), |t: int| k),
                link.push(parent.last()),
                owner.update(i, k),
            )
        }),
{
    let c = s.last();
    let i = m.index_of(pos(c));
    let k = px.len() as int;
    let nb = pushes(m.width, m.height, c.0, c.1);
    let s1 = s.subrange(0, s.len() - 1);
    let s2 = s1 + nb;
    let v2 = v.update(i, true);
    let px2 = px.push(c);
    let parent2 = parent.subrange(0, parent.len() - 1) + Seq::new(nb.len(), |t: int| k);
    let link2 = link.push(parent.last());
    let owner2 = owner.update(i, k);
    lemma_cell_index_bounds(m.width, m.height, pos(c).0, pos(c).1);
    assert(0 <= i < v.len());
    assert(v2[i]);
    assert(parent.last() == parent[parent.len() - 1]);
    // the found cells
    assert forall|j: int| 0 <= j < px2.len() implies m.is_set(pos(#[trigger] px2[j])) && !before[m.index_of(
        pos(px2[j]),
    )] && v2[m.index_of(pos(px2[j]))] by {
        if j < k {
            assert(px2[j] == px[j]);
            lemma_cell_index_bounds(m.width, m.height, pos(px[j]).0, pos(px[j]).1);
        } else {
            assert(px2[j] == c);
            if before[i] {
                assert(v[i]);
            }
        }
    }
    assert forall|j: int, l: int| 0 <= j < l < px2.len() implies px2[j] != px2[l] by {
        if l == k {
            assert(px2[j] == px[j]);
            assert(v[m.index_of(pos(px[j]))]);
        } else {
            assert(px2[j] == px[j]);
            assert(px2[l] == px[l]);
        }
    }
    if k == 0 {
        assert(s == seq![start]);
        assert(c == start);
    } else {
        assert(px2[0] == px[0]);
    }
    assert forall|l: int| 0 < l < px2.len() implies 0 <= #[trigger] link2[l] < l && adjacent(
        pos(px2[link2[l]]),
        pos(px2[l]),
    ) by {
        if l < k {
            assert(link2[l] == link[l]);
            assert(px2[l] == px[l]);
            assert(px2[link[l]] == px[link[l]]);
        } else {
            assert(link2[l] == parent[s.len() - 1]);
            assert(px2[l] == c);
            assert(s[s.len() - 1] == c);
            assert(px2[parent[s.len() - 1]] == px[parent[s.len() - 1]]);
        }
    }
    // the stack entries and what pushed them
    assert forall|t: int| 0 <= t < s2.len() implies (#[trigger] parent2[t] == -1 && px2.len() == 0 && s2[t]
        == start) || (0 <= parent2[t] < px2.len() && adjacent(pos(px2[parent2[t]]), pos(s2[t]))) by {
        if t < s1.len() {
            assert(parent2[t] == parent[t]);
            assert(s2[t] == s[t]);
            assert(px2[parent[t]] == px[parent[t]]);
        } else {
            assert(parent2[t] == k);
            assert(px2[k] == c);
            assert(s2[t] == nb[t - s1.len()]);
        }
    }
    // reached cells
    assert forall|ii: int| 0 <= ii < before.len() && before[ii] implies #[trigger] v2[ii] by {
        assert(v[ii]);
    }
    assert forall|ii: int| 0 <= ii < before.len() && #[trigger] v2[ii] && !before[ii] implies 0 <= owner2[ii]
        < px2.len() && m.index_of(pos(px2[owner2[ii]])) == ii by {
        if ii == i {
            assert(px2[k] == c);
        } else {
            assert(v[ii]);
            assert(px2[owner[ii]] == px[owner[ii]]);
        }
    }
    // coverage
    assert(stack_grows(s1, s2)) by {
        assert forall|e: (usize, usize)| #[trigger] s1.contains(e) implies s2.contains(e) by {
            let t = choose|t: int| 0 <= t < s1.len() && s1[t] == e;
            assert(s2[t] == e);
        }
    }
    assert forall|ii: int| 0 <= ii < v.len() && #[trigger] v[ii] implies v2[ii] by {}
    assert forall|j: int| 0 <= j < px2.len() implies covered(m, v2, s2, pos(#[trigger] px2[j])) by {
        if j < k {
            assert(px2[j] == px[j]);
            lemma_covered_pop(m, v, v2, s, pos(px[j]));
            lemma_covered_grow(m, v2, v2, s1, s2, pos(px[j]));
        } else {
            assert(px2[j] == c);
            lemma_pushes_cover(m, v2, s1, c);
        }
    }
}

/// After its neighbours are pushed, a cell is covered.
proof fn lemma_pushes_cover(m: Grid, v: Seq<bool>, s1: Seq<(usize, usize)>, c: (usize, usize))
    requires
        m.wf(),
        m.in_bounds(pos(c)),
    ensures
        covered(m, v, s1 + pushes(m.width, m.height, c.0, c.1), pos(c)),
{
    let (x, y) = c;
    let w = m.width;
    let h = m.height;
    let s2 = s1 + pushes(w, h, x, y);
    let a: Seq<(usize, usize)> = if x > 0 { seq![((x - 1) as usize, y)] } else { Seq::empty() };
    let b: Seq<(usize, usize)> = if x + 1 < w { seq![((x + 1) as usize, y)] } else { Seq::empty() };
    let cc: Seq<(usize, usize)> = if y > 0 { seq![(x, (y - 1) as usize)] } else { Seq::empty() };
    let d: Seq<(usize, usize)> = if y + 1 < h { seq![(x, (y + 1) as usize)] } else { Seq::empty() };
    assert(s2 =~= s1 + a + b + cc + d);
    let base = s1.len() as int;
    if x > 0 {
        assert(s2[base] == ((x - 1) as usize, y));
        assert(as_cell(neighbor(pos(c), 0)) == ((x - 1) as usize, y));
    }
    if x + 1 < w {
        assert(s2[base + a.len()] == ((x + 1) as usize, y));
        assert(as_cell(neighbor(pos(c), 1)) == ((x + 1) as usize, y));
    }
    if y > 0 {
        assert(s2[base + a.len() + b.len()] == (x, (y - 1) as usize));
        assert(as_cell(neighbor(pos(c), 2)) == (x, (y - 1) as usize));
    }
    if y + 1 < h {
        assert(s2[base + a.len() + b.len() + cc.len()] == (x, (y + 1) as usize));
        assert(as_cell(neighbor(pos(c), 3)) == (x, (y + 1) as usize));
    }
}

/// A fill state with an empty stack describes a finished fill.
proof fn lemma_fill_done(
    m: Grid,
    before: Seq<bool>,
    start: (usize, usize),
    v: Seq<bool>,
    s: Seq<(usize, usize)>,
    px: Seq<(usize, usize)>,
    parent: Seq<int>,
    link: Seq<int>,
    owner: Seq<int>,
)
    requires
        fill_inv(m, before, start, v, s, px, parent, link, owner),
        s.len() == 0,
    ensures
        is_fill(m, before, v, start, px),
{
    assert forall|k: int| 0 < k < px.len() implies #[trigger] is_linked(px, k) by {
        assert(0 <= link[k] < k);
    }
    assert forall|i: int| 0 <= i < before.len() && #[trigger] v[i] && !before[i] implies exists|j: int|
        0 <= j < px.len() && m.index_of(pos(px[j])) == i by {
        assert(0 <= owner[i] < px.len());
    }
    assert forall|j: int, q: (int, int)|
        0 <= j < px.len() && #[trigger] adjacent(pos(px[j]), q) && m.is_set(q) implies v[m.index_of(q)] by {
        lemma_covered_closed(m, v, s, pos(px[j]), q);
    }
    if px.len() > 0 {
        assert(px[0] == start);
        assert(can_seed(m, before, start));
    }
}

/// The depth-first fill from the cells on `stack`: take the last cell off the
/// stack; if it is a set cell not yet reached, mark it reached, list it, and
/// push its neighbours inside the rectangle (left, right, up, down); repeat
/// until the stack is empty. Gives the reached cells and the list.
pub open spec fn fill_order(
    m: Grid,
    visited: Seq<bool>,
    stack: Seq<(usize, usize)>,
    pixels: Seq<(usize, usize)>,
) -> (Seq<bool>, Seq<(usize, usize)>)
    decreases 5 * (visited.len() - count_true(visited)) + stack.len(),
    when m.wf() && visited.len() == m.cells.len()
{
    if stack.len() == 0 {
        (visited, pixels)
    } else {
        let c = stack.last();
        let rest = stack.subrange(0, stack.len() - 1);
        if can_seed(m, visited, c) {
            proof {
                lemma_cell_index_bounds(m.width, m.height, pos(c).0, pos(c).1);
                lemma_count_true_set(visited, m.index_of(pos(c)));
                lemma_count_true_bound(visited.update(m.index_of(pos(c)), true));
            }
            fill_order(
                m,
                visited.update(m.index_of(pos(c)), true),
                rest + pushes(m.width, m.height, c.0, c.1),
                pixels.push(c),
            )
        } else {
            proof {
                lemma_count_true_bound(visited);
            }
            fill_order(m, visited, rest, pixels)
        }
    }
}

/// Flood fill from (`start_x`, `start_y`) over the set cells of `mask`,
/// skipping and marking reached cells in `visited`; returns the cells it
/// reached, in the depth-first order of `fill_order`.
pub fn flood_fill(mask: &Mask, visited: &mut Vec<bool>, start_x: usize, start_y: usize) -> (pixels: Vec<(usize, usize)>)
    requires
        mask.wf(),
        old(visited)@.len() == mask.cells@.len(),
    ensures
        is_fill(mask@, old(visited)@, final(visited)@, (start_x, start_y), pixels@),
        (final(visited)@, pixels@) == fill_order(mask@, old(visited)@, seq![(start_x, start_y)], Seq::empty()),
{
    let ghost before = visited@;
    let ghost start = (start_x, start_y);
    let w = mask.width;
    let h = mask.height;
    let total = mask.cells.len();
    let mut pixels: Vec<(usize, usize)> = Vec::new();
    let mut stack: Vec<(usize, usize)> = Vec::new();
    stack.push((start_x, start_y));
    let ghost mut parent: Seq<int> = seq![-1int];
    let ghost mut link: Seq<int> = Seq::empty();
    let ghost mut owner: Seq<int> = Seq::new(before.len(), |i: int| -1int);
    proof {
        lemma_count_true_bound(visited@);
        assert(stack@ =~= seq![start]);
    }
    loop
        invariant
            fill_inv(mask@, before, start, visited@, stack@, pixels@, parent, link, owner),
            w == mask.width,
            h == mask.height,
            total == mask.cells@.len(),
            count_true(visited@) <= visited@.len(),
            fill_order(mask@, visited@, stack@, pixels@) == fill_order(mask@, before, seq![start], Seq::empty()),
        ensures
            fill_inv(mask@, before, start, visited@, stack@, pixels@, parent, link, owner),
            stack@.len() == 0,
            fill_order(mask@, visited@, stack@, pixels@) == fill_order(mask@, before, seq![start], Seq::empty()),
        decreases 5 * (visited@.len() - count_true(visited@)) + stack@.len(),
    {
        let ghost v0 = visited@;
        let ghost s0 = stack@;
        let ghost p0 = pixels@;
        let ghost par0 = parent;
        let popped = stack.pop();
        match popped {
            None => {
                break ;
            },
            Some(cell) => {
                let x = cell.0;
                let y = cell.1;
                let mut reach = false;
                let mut i: usize = 0;
                if x < w && y < h {
                    proof {
                        lemma_cell_index_bounds(w as nat, h as nat, x as int, y as int);
                    }
                    i = y * w + x;
                    reach = !visited[i] && mask.cells[i];
                }
                if !reach {
                    proof {
                        assert(!can_seed(mask@, v0, s0.last()));
                        assert(fill_order(mask@, v0, s0, p0) == fill_order(mask@, v0, stack@, p0));
                        lemma_fill_skip(mask@, before, start, v0, s0, p0, par0, link, owner);
                        parent = par0.subrange(0, par0.len() - 1);
                    }
                } else {
                    let ghost k = pixels@.len() as int;
                    visited.set(i, true);
                    pixels.push((x, y));
                    push_neighbors(&mut stack, w, h, x, y);
                    proof {
                        assert(can_seed(mask@, v0, s0.last()));
                        assert(fill_order(mask@, v0, s0, p0) == fill_order(mask@, visited@, stack@, pixels@));
                        lemma_fill_visit(mask@, before, start, v0, s0, p0, par0, link, owner);
                        lemma_count_true_set(v0, i as int);
                        let nb = pushes(w as nat, h as nat, x, y);
                        parent = par0.subrange(0, par0.len() - 1) + Seq::new(nb.len(), |t: int| k);
                        link = link.push(par0.last());
                        owner = owner.update(i as int, k);
                        lemma_count_true_bound(visited@);
                    }
                }
            },
        }
    }
    proof {
        lemma_fill_done(mask@, before, start, visited@, stack@, pixels@, parent, link, owner);
        assert(fill_order(mask@, visited@, stack@, pixels@) == (visited@, pixels@));
    }
    pixels
}

/// Whether the cell `q` is listed in `region`.
pub open spec fn in_region(region: Seq<(usize, usize)>, q: (int, int)) -> bool {
    exists|l: int| 0 <= l < region.len() && pos(#[trigger] region[l]) == q
}

/// `regions` are regions of set cells of `m`, each listing distinct cells,
/// pairwise disjoint, each connected (every cell after the first shares an
/// edge with an earlier one) and closed (every set neighbour of a listed cell
/// is listed in the same region).
pub open spec fn are_regions(m: Grid, regions: Seq<Seq<(usize, usize)>>) -> bool {
    &&& forall|r: int| 0 <= r < regions.len() ==> (#[trigger] regions[r]).len() > 0
    &&& forall|r: int, j: int|
        0 <= r < regions.len() && 0 <= j < regions[r].len() ==> m.is_set(pos(#[trigger] regions[r][j]))
    &&& forall|r: int, j: int, k: int|
        0 <= r < regions.len() && 0 <= j < k < regions[r].len() ==> #[trigger] regions[r][j]
            != #[trigger] regions[r][k]
    &&& forall|r1: int, j1: int, r2: int, j2: int|
        0 <= r1 < regions.len() && 0 <= r2 < regions.len() && r1 != r2 && 0 <= j1 < regions[r1].len() && 0
            <= j2 < regions[r2].len() ==> #[trigger] regions[r1][j1] != #[trigger] regions[r2][j2]
    &&& forall|r: int, k: int| 0 <= r < regions.len() && 0 < k < regions[r].len() ==> #[trigger] is_linked(regions[r], k)
    &&& forall|r: int, j: int, q: (int, int)|
        0 <= r < regions.len() && 0 <= j < regions[r].len() && #[trigger] adjacent(pos(regions[r][j]), q)
            && m.is_set(q) ==> in_region(regions[r], q)
}

/// `regions` are the connected regions of `m`: regions as above, and every set
/// cell lies in one of them.
pub open spec fn are_all_regions(m: Grid, regions: Seq<Seq<(usize, usize)>>) -> bool {
    &&& are_regions(m, regions)
    &&& forall|q: (int, int)|
        #[trigger] m.is_set(q) ==> exists|r: int| 0 <= r < regions.len() && in_region(regions[r], q)
}

/// The state of the scan over the mask: the reached cells are exactly the
/// cells of the regions found so far; `owner` names, as proof only, the region
/// and position of each reached cell.
spec fn scan_inv(m: Grid, visited: Seq<bool>, regions: Seq<Seq<(usize, usize)>>, owner: Seq<(int, int)>) -> bool {
    &&& m.wf()
    &&& visited.len() == m.cells.len()
    &&& owner.len() == visited.len()
    &&& are_regions(m, regions)
    &&& forall|r: int, j: int|
        0 <= r < regions.len() && 0 <= j < regions[r].len() ==> visited[m.index_of(pos(#[trigger] regions[r][j]))]
    &&& forall|i: int|
        0 <= i < visited.len() && #[trigger] visited[i] ==> 0 <= owner[i].0 < regions.len() && 0 <= owner[i].1
            < regions[owner[i].0].len() && m.index_of(pos(regions[owner[i].0][owner[i].1])) == i
}

/// The new owners after a fill added `region` as region number `regions.len()`.
spec fn owners_after(
    owner: Seq<(int, int)>,
    before: Seq<bool>,
    after: Seq<bool>,
    m: Grid,
    r: int,
    region: Seq<(usize, usize)>,
) -> Seq<(int, int)> {
    Seq::new(
        owner.len(),
        |i: int|
            if after[i] && !before[i] {
                (r, choose|j: int| 0 <= j < region.len() && m.index_of(pos(region[j])) == i)
            } else {
                owner[i]
            },
    )
}

/// Adding the region that a fill found keeps the scan state.
proof fn lemma_scan_add(
    m: Grid,
    before: Seq<bool>,
    after: Seq<bool>,
    regions: Seq<Seq<(usize, usize)>>,
    owner: Seq<(int, int)>,
    seed: (usize, usize),
    region: Seq<(usize, usize)>,
)
    requires
        scan_inv(m, before, regions, owner),
        is_fill(m, before, after, seed, region),
        region.len() > 0,
    ensures
        scan_inv(
            m,
            after,
            regions.push(region),
            owners_after(owner, before, after, m, regions.len() as int, region),
        ),
{
    let n = regions.len() as int;
    let regions2 = regions.push(region);
    let owner2 = owners_after(owner, before, after, m, n, region);
    assert forall|r: int| 0 <= r < regions2.len() implies (#[trigger] regions2[r]).len() > 0 by {
        if r < n {
            assert(regions2[r] == regions[r]);
        }
    }
    assert forall|r: int, j: int|
        0 <= r < regions2.len() && 0 <= j < regions2[r].len() implies m.is_set(pos(#[trigger] regions2[r][j])) by {
        if r < n {
            assert(regions2[r] == regions[r]);
        } else {
            assert(regions2[r] == region);
        }
    }
    assert forall|r: int, j: int, k: int|
        0 <= r < regions2.len() && 0 <= j < k < regions2[r].len() implies #[trigger] regions2[r][j]
            != #[trigger] regions2[r][k] by {
        if r < n {
            assert(regions2[r] == regions[r]);
        } else {
            assert(regions2[r] == region);
        }
    }
    assert forall|r1: int, j1: int, r2: int, j2: int|
        0 <= r1 < regions2.len() && 0 <= r2 < regions2.len() && r1 != r2 && 0 <= j1 < regions2[r1].len() && 0
            <= j2 < regions2[r2].len() implies #[trigger] regions2[r1][j1] != #[trigger] regions2[r2][j2] by {
        if r1 < n && r2 < n {
            assert(regions2[r1] == regions[r1]);
            assert(regions2[r2] == regions[r2]);
        } else if r1 < n {
            assert(regions2[r1] == regions[r1]);
            assert(regions2[r2] == region);
            assert(before[m.index_of(pos(regions[r1][j1]))]);
            assert(!before[m.index_of(pos(region[j2]))]);
        } else {
            assert(regions2[r2] == regions[r2]);
            assert(regions2[r1] == region);
            assert(before[m.index_of(pos(regions[r2][j2]))]);
            assert(!before[m.index_of(pos(region[j1]))]);
        }
    }
    assert forall|r: int, k: int| 0 <= r < regions2.len() && 0 < k < regions2[r].len() implies #[trigger] is_linked(
        regions2[r],
        k,
    ) by {
        if r < n {
            assert(regions2[r] == regions[r]);
        } else {
            assert(regions2[r] == region);
        }
    }
    assert forall|r: int, j: int, q: (int, int)|
        0 <= r < regions2.len() && 0 <= j < regions2[r].len() && #[trigger] adjacent(pos(regions2[r][j]), q)
            && m.is_set(q) implies in_region(regions2[r], q) by {
        if r < n {
            assert(regions2[r] == regions[r]);
            assert(regions2[r][j] == regions[r][j]);
        } else {
            assert(regions2[r] == region);
            assert(regions2[r][j] == region[j]);
            lemma_fill_neighbor_in_region(m, before, after, regions, owner, seed, region, j, q);
        }
    }
    assert forall|r: int, j: int|
        0 <= r < regions2.len() && 0 <= j < regions2[r].len() implies after[m.index_of(
            pos(#[trigger] regions2[r][j]),
        )] by {
        if r < n {
            assert(regions2[r] == regions[r]);
            let i = m.index_of(pos(regions[r][j]));
            lemma_cell_index_bounds(m.width, m.height, pos(regions[r][j]).0, pos(regions[r][j]).1);
            assert(before[i]);
        } else {
            assert(regions2[r] == region);
        }
    }
    assert forall|i: int| 0 <= i < after.len() && #[trigger] after[i] implies 0 <= owner2[i].0 < regions2.len()
        && 0 <= owner2[i].1 < regions2[owner2[i].0].len() && m.index_of(pos(regions2[owner2[i].0][owner2[i].1]))
        == i by {
        if before[i] {
            assert(owner2[i] == owner[i]);
            assert(regions2[owner[i].0] == regions[owner[i].0]);
        } else {
            assert(exists|j: int| 0 <= j < region.len() && m.index_of(pos(region[j])) == i);
            assert(regions2[n] == region);
        }
    }
    assert(are_regions(m, regions2));
    assert(owner2.len() == after.len());
}

/// A set neighbour of a cell that a fill found lies in the found region, when
/// the fill started from the cells of earlier closed regions.
proof fn lemma_fill_neighbor_in_region(
    m: Grid,
    before: Seq<bool>,
    after: Seq<bool>,
    regions: Seq<Seq<(usize, usize)>>,
    owner: Seq<(int, int)>,
    seed: (usize, usize),
    region: Seq<(usize, usize)>,
    j: int,
    q: (int, int),
)
    requires
        scan_inv(m, before, regions, owner),
        is_fill(m, before, after, seed, region),
        0 <= j < region.len(),
        adjacent(pos(region[j]), q),
        m.is_set(q),
    ensures
        in_region(region, q),
{
    let p = pos(region[j]);
    let iq = m.index_of(q);
    lemma_cell_index_bounds(m.width, m.height, q.0, q.1);
    lemma_cell_index_bounds(m.width, m.height, p.0, p.1);
    assert(after[iq]);
    if before[iq] {
        // q lies in an earlier region, which is closed, so p would lie there too.
        let (r, l) = owner[iq];
        lemma_cell_index_injective(m.width, pos(regions[r][l]).0, pos(regions[r][l]).1, q.0, q.1);
        assert(pos(regions[r][l]) == q);
        assert(adjacent(pos(regions[r][l]), p));
        assert(m.is_set(p));
        assert(in_region(regions[r], p));
        let l2 = choose|l2: int| 0 <= l2 < regions[r].len() && pos(#[trigger] regions[r][l2]) == p;
        assert(before[m.index_of(pos(regions[r][l2]))]);
        assert(!before[m.index_of(p)]);
    } else {
        let l = choose|l: int| 0 <= l < region.len() && m.index_of(pos(region[l])) == iq;
        lemma_cell_index_injective(m.width, pos(region[l]).0, pos(region[l]).1, q.0, q.1);
        assert(pos(region[l]) == q);
    }
}

/// Whether `p` comes before `q` in a row-by-row scan.
pub open spec fn scan_before(p: (int, int), q: (int, int)) -> bool {
    p.1 < q.1 || (p.1 == q.1 && p.0 < q.0)
}

/// Each region starts at its first cell in scan order, and the regions are
/// listed in the scan order of their first cells.
pub open spec fn in_scan_order(regions: Seq<Seq<(usize, usize)>>) -> bool {
    &&& forall|r: int, j: int|
        0 <= r < regions.len() && 0 < j < regions[r].len() ==> scan_before(
            pos(regions[r][0]),
            pos(#[trigger] regions[r][j]),
        )
    &&& forall|r1: int, r2: int|
        0 <= r1 < r2 < regions.len() ==> scan_before(pos(#[trigger] regions[r1][0]), pos(#[trigger] regions[r2][0]))
}

/// All regions start before `q` in scan order.
spec fn seeds_before(regions: Seq<Seq<(usize, usize)>>, q: (int, int)) -> bool {
    forall|r: int| 0 <= r < regions.len() ==> scan_before(pos(#[trigger] regions[r][0]), q)
}

/// The cell lists held by `v`.
pub open spec fn cell_lists(v: Seq<Vec<(usize, usize)>>) -> Seq<Seq<(usize, usize)>> {
    v.map_values(|r: Vec<(usize, usize)>| r@)
}

/// Set cells that the scan has passed are reached.
spec fn scanned(m: Grid, visited: Seq<bool>, x: int, y: int) -> bool {
    forall|q: (int, int)|
        #[trigger] m.is_set(q) && (q.1 < y || (q.1 == y && q.0 < x)) ==> visited[m.index_of(q)]
}

/// When every set cell is reached, the regions found are all the regions.
proof fn lemma_scan_complete(m: Grid, visited: Seq<bool>, regions: Seq<Seq<(usize, usize)>>, owner: Seq<(int, int)>)
    requires
        scan_inv(m, visited, regions, owner),
        scanned(m, visited, 0, m.height as int),
    ensures
        are_all_regions(m, regions),
{
    assert forall|q: (int, int)| #[trigger] m.is_set(q) implies exists|r: int|
        0 <= r < regions.len() && in_region(regions[r], q) by {
        let iq = m.index_of(q);
        lemma_cell_index_bounds(m.width, m.height, q.0, q.1);
        assert(visited[iq]);
        let (r, l) = owner[iq];
        let c = regions[r][l];
        lemma_cell_index_injective(m.width, pos(c).0, pos(c).1, q.0, q.1);
        assert(pos(regions[r][l]) == q);
    }
}

/// The cell that the scan looks at in its `k`-th step: rows top to bottom,
/// cells left to right.
pub open spec fn scan_cell(w: nat, k: nat) -> (usize, usize) {
    ((k % w) as usize, (k / w) as usize)
}

/// The reached cells and the regions after the scan's first `k` steps: a set
/// cell not yet reached seeds `fill_order`, and the cells it lists form the
/// next region.
pub open spec fn scan_state(m: Grid, k: nat) -> (Seq<bool>, Seq<Seq<(usize, usize)>>)
    decreases k,
{
    if k == 0 {
        (Seq::new(m.cells.len(), |i: int| false), Seq::empty())
    } else {
        let prev = scan_state(m, (k - 1) as nat);
        let c = scan_cell(m.width, (k - 1) as nat);
        if can_seed(m, prev.0, c) {
            let filled = fill_order(m, prev.0, seq![c], Seq::empty());
            (filled.0, prev.1.push(filled.1))
        } else {
            prev
        }
    }
}

/// The regions that a scan over every cell of `m` finds, in order.
pub open spec fn scan_regions(m: Grid) -> Seq<Seq<(usize, usize)>> {
    scan_state(m, m.width * m.height).1
}

/// Step `y * w + x` of the scan looks at cell (`x`, `y`).
proof fn lemma_scan_cell(w: nat, x: nat, y: nat)
    requires
        x < w,
    ensures
        scan_cell(w, y * w + x) == (x as usize, y as usize),
{
    vstd::arithmetic::div_mod::lemma_fundamental_div_mod_converse((y * w + x) as int, w as int, y as int, x as int);
}

/// The connected regions of the set cells of `mask`. Rows are scanned top to
/// bottom and cells left to right; each set cell not yet reached seeds a
/// flood fill, and the cells that fill reaches form the next region.
pub fn connected_regions(mask: &Mask) -> (regions: Vec<Vec<(usize, usize)>>)
    requires
        mask.wf(),
    ensures
        cell_lists(regions@) == scan_regions(mask@),
        are_all_regions(mask@, cell_lists(regions@)),
        in_scan_order(cell_lists(regions@)),
{
    let w = mask.width;
    let h = mask.height;
    let n = mask.cells.len();
    let mut visited: Vec<bool> = vec![false; n];
    let mut regions: Vec<Vec<(usize, usize)>> = Vec::new();
    let ghost mut owner: Seq<(int, int)> = Seq::new(n as nat, |i: int| (-1int, -1int));
    proof {
        assert(cell_lists(regions@) =~= Seq::<Seq<(usize, usize)>>::empty());
        assert(visited@ =~= scan_state(mask@, 0).0);
    }
    let mut y: usize = 0;
    while y < h
        invariant
            w == mask.width,
            h == mask.height,
            n == mask.cells@.len(),
            y <= h,
            scan_inv(mask@, visited@, cell_lists(regions@), owner),
            scanned(mask@, visited@, 0, y as int),
            in_scan_order(cell_lists(regions@)),
            seeds_before(cell_lists(regions@), (0, y as int)),
            (visited@, cell_lists(regions@)) == scan_state(mask@, (y as nat) * (w as nat)),
        decreases h - y,
    {
        let mut x: usize = 0;
        while x < w
            invariant
                w == mask.width,
                h == mask.height,
                n == mask.cells@.len(),
                y < h,
                x <= w,
                scan_inv(mask@, visited@, cell_lists(regions@), owner),
                scanned(mask@, visited@, x as int, y as int),
                in_scan_order(cell_lists(regions@)),
                seeds_before(cell_lists(regions@), (x as int, y as int)),
                (visited@, cell_lists(regions@)) == scan_state(mask@, (y as nat) * (w as nat) + (x as nat)),
            decreases w - x,
        {
            proof {
                lemma_cell_index_bounds(w as nat, h as nat, x as int, y as int);
            }
            let i = y * w + x;
            let ghost k: nat = (y as nat) * (w as nat) + (x as nat);
            proof {
                lemma_scan_cell(w as nat, x as nat, y as nat);
            }
            if !visited[i] && mask.cells[i] {
                let ghost before = visited@;
                let region = flood_fill(mask, &mut visited, x, y);
                proof {
                    assert(can_seed(mask@, before, (x, y)));
                    lemma_scan_add(mask@, before, visited@, cell_lists(regions@), owner, (x, y), region@);
                    lemma_scan_order_add(mask@, before, visited@, cell_lists(regions@), (x, y), region@);
                    owner = owners_after(owner, before, visited@, mask@, regions@.len() as int, region@);
                    assert(cell_lists(regions@.push(region)) =~= cell_lists(regions@).push(region@));
                    assert forall|q: (int, int)|
                        #[trigger] mask@.is_set(q) && (q.1 < y || (q.1 == y && q.0 < x + 1)) implies visited@[mask@.index_of(q)] by {
                        lemma_cell_index_bounds(w as nat, h as nat, q.0, q.1);
                        if q.1 < y || (q.1 == y && q.0 < x) {
                            assert(before[mask@.index_of(q)]);
                        } else {
                            assert(region@[0] == (x, y));
                        }
                    }
                }
                let ghost lists0 = cell_lists(regions@);
                if !region.is_empty() {
                    regions.push(region);
                }
                proof {
                    assert(cell_lists(regions@) =~= lists0.push(region@));
                    assert((visited@, cell_lists(regions@)) == scan_state(mask@, k + 1));
                }
            } else {
                proof {
                    assert forall|q: (int, int)|
                        #[trigger] mask@.is_set(q) && (q.1 < y || (q.1 == y && q.0 < x + 1)) implies visited@[mask@.index_of(q)] by {
                        if q.1 == y && q.0 == x {
                            assert(mask@.index_of(q) == i);
                        }
                    }
                    assert(!can_seed(mask@, visited@, (x, y)));
                    assert((visited@, cell_lists(regions@)) == scan_state(mask@, k + 1));
                }
            }
            proof {
                assert forall|r: int| 0 <= r < cell_lists(regions@).len() implies scan_before(
                    pos(#[trigger] cell_lists(regions@)[r][0]),
                    (x + 1, y as int),
                ) by {}
            }
            x += 1;
        }
        proof {
            assert((y as nat) * (w as nat) + (w as nat) == ((y + 1) as nat) * (w as nat)) by (nonlinear_arith);
            assert forall|r: int| 0 <= r < cell_lists(regions@).len() implies scan_before(
                pos(#[trigger] cell_lists(regions@)[r][0]),
                (0, y + 1),
            ) by {}
            assert forall|q: (int, int)|
                #[trigger] mask@.is_set(q) && (q.1 < y + 1 || (q.1 == y + 1 && q.0 < 0)) implies visited@[mask@.index_of(q)] by {
                if q.1 == y {
                    assert(q.0 < w);
                }
            }
        }
        y += 1;
    }
    proof {
        lemma_scan_complete(mask@, visited@, cell_lists(regions@), owner);
        assert((h as nat) * (w as nat) == (w as nat) * (h as nat)) by (nonlinear_arith);
    }
    regions
}

/// Whether a region has more than `min_size` cells.
pub open spec fn larger_than(min_size: nat) -> spec_fn(Seq<(usize, usize)>) -> bool {
    |r: Seq<(usize, usize)>| r.len() > min_size
}

/// A region passes `larger_than(min_size)` exactly when it has more than
/// `min_size` cells.
pub proof fn lemma_larger_than(min_size: nat, region: Seq<(usize, usize)>)
    ensures
        larger_than(min_size)(region) == (region.len() > min_size),
{
}

/// The connected regions of `mask` that have more than `min_size` cells, in
/// the order `connected_regions` finds them.
pub fn regions_larger_than(mask: &Mask, min_size: usize) -> (big: Vec<Vec<(usize, usize)>>)
    requires
        mask.wf(),
    ensures
        cell_lists(big@) == scan_regions(mask@).filter(larger_than(min_size as nat)),
        are_all_regions(mask@, scan_regions(mask@)),
        in_scan_order(scan_regions(mask@)),
        forall|j: int| 0 <= j < big@.len() ==> (#[trigger] big@[j])@.len() > min_size,
{
    let regions = connected_regions(mask);
    let ghost all = cell_lists(regions@);
    let mut big: Vec<Vec<(usize, usize)>> = Vec::new();
    let mut regions = regions;
    let mut rest: Vec<Vec<(usize, usize)>> = Vec::new();
    // take the regions back to front, then keep the large ones front to back
    while regions.len() > 0
        invariant
            cell_lists(regions@) + cell_lists(rest@).reverse() == all,
        decreases regions@.len(),
    {
        let r = regions.pop().unwrap();
        proof {
            assert(cell_lists(regions@.push(r)) =~= cell_lists(regions@).push(r@));
        }
        let ghost before = rest@;
        rest.push(r);
        proof {
            assert(cell_lists(rest@) =~= cell_lists(before).push(r@));
            assert(cell_lists(rest@).reverse() =~= seq![r@] + cell_lists(before).reverse());
        }
    }
    proof {
        assert(cell_lists(regions@) =~= Seq::<Seq<(usize, usize)>>::empty());
    }
    while rest.len() > 0
        invariant
            cell_lists(big@) == all.subrange(0, all.len() - rest@.len()).filter(larger_than(min_size as nat)),
            all.subrange(all.len() - rest@.len(), all.len() as int) == cell_lists(rest@).reverse(),
            rest@.len() <= all.len(),
        decreases rest@.len(),
    {
        let r = rest.pop().unwrap();
        let ghost k = all.len() - rest@.len() - 1;
        proof {
            assert(cell_lists(rest@.push(r)) =~= cell_lists(rest@).push(r@));
            let tail = all.subrange(k, all.len() as int);
            assert(tail == cell_lists(rest@).push(r@).reverse());
            assert(cell_lists(rest@).push(r@).reverse() =~= seq![r@] + cell_lists(rest@).reverse());
            assert(all[k] == tail[0]);
            assert(all.subrange(k + 1, all.len() as int) =~= tail.subrange(1, tail.len() as int));
            assert(tail.subrange(1, tail.len() as int) =~= cell_lists(rest@).reverse());
            assert(all.subrange(0, k + 1).drop_last() =~= all.subrange(0, k));
            reveal(Seq::filter);
        }
        if r.len() > min_size {
            let ghost b0 = big@;
            big.push(r);
            proof {
                assert(cell_lists(big@) =~= cell_lists(b0).push(r@));
            }
        }
    }
    proof {
        assert(all.subrange(0, all.len() as int) =~= all);
        assert forall|j: int| 0 <= j < big@.len() implies (#[trigger] big@[j])@.len() > min_size by {
            all.lemma_filter_pred(larger_than(min_size as nat), j);
            assert(cell_lists(big@)[j] == big@[j]@);
        }
    }
    big
}

/// Adding the region found from seed `seed`, scanned after every earlier
/// seed, keeps the regions in scan order.
proof fn lemma_scan_order_add(
    m: Grid,
    before: Seq<bool>,
    after: Seq<bool>,
    regions: Seq<Seq<(usize, usize)>>,
    seed: (usize, usize),
    region: Seq<(usize, usize)>,
)
    requires
        m.wf(),
        before.len() == m.cells.len(),
        is_fill(m, before, after, seed, region),
        region.len() > 0,
        scanned(m, before, pos(seed).0, pos(seed).1),
        in_scan_order(regions),
        seeds_before(regions, pos(seed)),
    ensures
        in_scan_order(regions.push(region)),
        seeds_before(regions.push(region), (pos(seed).0 + 1, pos(seed).1)),
{
    let regions2 = regions.push(region);
    let n = regions.len() as int;
    assert(region[0] == seed);
    assert forall|r: int, j: int| 0 <= r < regions2.len() && 0 < j < regions2[r].len() implies scan_before(
        pos(regions2[r][0]),
        pos(#[trigger] regions2[r][j]),
    ) by {
        if r < n {
            assert(regions2[r] == regions[r]);
        } else {
            assert(regions2[r] == region);
            let p = pos(region[j]);
            assert(m.is_set(p));
            assert(!before[m.index_of(p)]);
            assert(region[j] != region[0]);
            if scan_before(p, pos(seed)) {
                assert(before[m.index_of(p)]);
            }
        }
    }
    assert forall|r1: int, r2: int| 0 <= r1 < r2 < regions2.len() implies scan_before(
        pos(#[trigger] regions2[r1][0]),
        pos(#[trigger] regions2[r2][0]),
    ) by {
        assert(regions2[r1] == regions[r1]);
        if r2 < n {
            assert(regions2[r2] == regions[r2]);
        } else {
            assert(regions2[r2] == region);
        }
    }
    assert forall|r: int| 0 <= r < regions2.len() implies scan_before(
        pos(#[trigger] regions2[r][0]),
        (pos(seed).0 + 1, pos(seed).1),
    ) by {
        if r < n {
            assert(regions2[r] == regions[r]);
        } else {
            assert(regions2[r] == region);
        }
    }
}

} // verus!
