//! The integer side of water-body detection in satellite scenes: which
//! connected water regions count as water bodies, and their pixel centre,
//! size and bounding box.

use vstd::prelude::*;
use crate::regions::{are_all_regions, cell_lists, in_scan_order, larger_than, regions_larger_than, scan_regions, Mask};

verus! {

/// The smallest rectangle holding a region, in pixels.
#[derive(Debug, Clone, Copy)]
pub struct BoundingBox {
    pub min_x: usize,
    pub max_x: usize,
    pub min_y: usize,
    pub max_y: usize,
}

/// Centre, size and bounding box of a region.
#[derive(Debug, Clone, Copy)]
pub struct RegionSummary {
    /// Centre of mass (x, y), rounded down.
    pub center: (usize, usize),
    pub pixel_count: usize,
    pub bbox: BoundingBox,
}

/// The x coordinates of some positions.
pub open spec fn xs(p: Seq<(usize, usize)>) -> Seq<usize> {
    p.map_values(|q: (usize, usize)| q.0)
}

/// The y coordinates of some positions.
pub open spec fn ys(p: Seq<(usize, usize)>) -> Seq<usize> {
    p.map_values(|q: (usize, usize)| q.1)
}

pub open spec fn seq_sum(s: Seq<usize>) -> nat
    decreases s.len(),
{
    if s.len() == 0 {
        0
    } else {
        seq_sum(s.drop_last()) + s.last() as nat
    }
}

/// The least value of a non-empty sequence.
pub open spec fn seq_min(s: Seq<usize>) -> usize
    decreases s.len(),
{
    if s.len() <= 1 {
        s[0]
    } else if s.last() < seq_min(s.drop_last()) {
        s.last()
    } else {
        seq_min(s.drop_last())
    }
}

/// The greatest value of a non-empty sequence.
pub open spec fn seq_max(s: Seq<usize>) -> usize
    decreases s.len(),
{
    if s.len() <= 1 {
        s[0]
    } else if s.last() > seq_max(s.drop_last()) {
        s.last()
    } else {
        seq_max(s.drop_last())
    }
}

/// The summary of a non-empty region.
pub open spec fn region_summary(p: Seq<(usize, usize)>) -> RegionSummary {
    RegionSummary {
        center: ((seq_sum(xs(p)) / p.len()) as usize, (seq_sum(ys(p)) / p.len()) as usize),
        pixel_count: p.len() as usize,
        bbox: BoundingBox {
            min_x: seq_min(xs(p)),
            max_x: seq_max(xs(p)),
            min_y: seq_min(ys(p)),
            max_y: seq_max(ys(p)),
        },
    }
}

/// The least and greatest values of a non-empty sequence bound all its
/// values and occur in it.
pub proof fn lemma_min_max(s: Seq<usize>)
    requires
        s.len() > 0,
    ensures
        forall|i: int| 0 <= i < s.len() ==> seq_min(s) <= #[trigger] s[i] <= seq_max(s),
        exists|i: int| 0 <= i < s.len() && s[i] == seq_min(s),
        exists|i: int| 0 <= i < s.len() && s[i] == seq_max(s),
    decreases s.len(),
{
    if s.len() > 1 {
        let t = s.drop_last();
        lemma_min_max(t);
        assert forall|i: int| 0 <= i < s.len() implies seq_min(s) <= #[trigger] s[i] <= seq_max(s) by {
            if i < s.len() - 1 {
                assert(s[i] == t[i]);
            }
        }
        if s.last() < seq_min(t) {
            assert(s[s.len() - 1] == seq_min(s));
        } else {
            let i = choose|i: int| 0 <= i < t.len() && t[i] == seq_min(t);
            assert(s[i] == seq_min(s));
        }
        if s.last() > seq_max(t) {
            assert(s[s.len() - 1] == seq_max(s));
        } else {
            let i = choose|i: int| 0 <= i < t.len() && t[i] == seq_max(t);
            assert(s[i] == seq_max(s));
        }
    } else {
        assert(s[0] == seq_min(s));
        assert(s[0] == seq_max(s));
    }
}

/// The sum of no values is 0, and appending a value adds it to the sum.
pub proof fn lemma_seq_sum_push(s: Seq<usize>, v: usize)
    ensures
        seq_sum(Seq::<usize>::empty()) == 0,
        seq_sum(s.push(v)) == seq_sum(s) + v,
{
    assert(s.push(v).drop_last() =~= s);
}

/// `xs` and `ys` list the x and the y coordinate of every position, in order.
pub proof fn lemma_coordinates(p: Seq<(usize, usize)>)
    ensures
        xs(p).len() == p.len(),
        ys(p).len() == p.len(),
        forall|i: int| 0 <= i < p.len() ==> #[trigger] xs(p)[i] == p[i].0 && ys(p)[i] == p[i].1,
{
}

/// The summary of a region: its centre is the mean position rounded down
/// (centre times count is at most the coordinate sum, and one more is past
/// it), its count is the number of pixels, and its box is the least rectangle
/// holding every pixel, each side touched by some pixel.
pub proof fn lemma_region_summary(p: Seq<(usize, usize)>)
    requires
        p.len() > 0,
        seq_sum(xs(p)) <= usize::MAX,
        seq_sum(ys(p)) <= usize::MAX,
    ensures
        ({
            let r = region_summary(p);
            &&& r.center.0 * p.len() <= seq_sum(xs(p)) < (r.center.0 + 1) * p.len()
            &&& r.center.1 * p.len() <= seq_sum(ys(p)) < (r.center.1 + 1) * p.len()
            &&& p.len() <= usize::MAX ==> r.pixel_count == p.len()
            &&& forall|i: int|
                0 <= i < p.len() ==> r.bbox.min_x <= #[trigger] p[i].0 <= r.bbox.max_x && r.bbox.min_y <= p[i].1
                    <= r.bbox.max_y
            &&& exists|i: int| 0 <= i < p.len() && p[i].0 == r.bbox.min_x
            &&& exists|i: int| 0 <= i < p.len() && p[i].0 == r.bbox.max_x
            &&& exists|i: int| 0 <= i < p.len() && p[i].1 == r.bbox.min_y
            &&& exists|i: int| 0 <= i < p.len() && p[i].1 == r.bbox.max_y
        }),
{
    let r = region_summary(p);
    let n = p.len();
    let sx = seq_sum(xs(p));
    let sy = seq_sum(ys(p));
    vstd::arithmetic::div_mod::lemma_fundamental_div_mod(sx as int, n as int);
    vstd::arithmetic::div_mod::lemma_fundamental_div_mod(sy as int, n as int);
    let qx = sx / n;
    let qy = sy / n;
    assert(qx <= sx) by {
        vstd::arithmetic::div_mod::lemma_div_is_ordered_by_denominator(sx as int, 1, n as int);
    }
    assert(qy <= sy) by {
        vstd::arithmetic::div_mod::lemma_div_is_ordered_by_denominator(sy as int, 1, n as int);
    }
    assert(r.center.0 == qx);
    assert(r.center.1 == qy);
    assert(qx * n <= sx < (qx + 1) * n) by (nonlinear_arith)
        requires
            sx == n * qx + sx % n,
            0 <= sx % n < n,
    ;
    assert(qy * n <= sy < (qy + 1) * n) by (nonlinear_arith)
        requires
            sy == n * qy + sy % n,
            0 <= sy % n < n,
    ;
    lemma_coordinates(p);
    lemma_min_max(xs(p));
    lemma_min_max(ys(p));
    assert forall|i: int|
        0 <= i < p.len() implies r.bbox.min_x <= #[trigger] p[i].0 <= r.bbox.max_x && r.bbox.min_y <= p[i].1
            <= r.bbox.max_y by {
        assert(xs(p)[i] == p[i].0);
        assert(ys(p)[i] == p[i].1);
    }
    let a = choose|i: int| 0 <= i < xs(p).len() && xs(p)[i] == seq_min(xs(p));
    assert(p[a].0 == r.bbox.min_x);
    let b = choose|i: int| 0 <= i < xs(p).len() && xs(p)[i] == seq_max(xs(p));
    assert(p[b].0 == r.bbox.max_x);
    let c = choose|i: int| 0 <= i < ys(p).len() && ys(p)[i] == seq_min(ys(p));
    assert(p[c].1 == r.bbox.min_y);
    let d = choose|i: int| 0 <= i < ys(p).len() && ys(p)[i] == seq_max(ys(p));
    assert(p[d].1 == r.bbox.max_y);
}

proof fn lemma_sum_prefix(s: Seq<usize>, k: int)
    requires
        0 <= k <= s.len(),
    ensures
        seq_sum(s.take(k)) <= seq_sum(s),
    decreases s.len() - k,
{
    if k < s.len() {
        lemma_sum_prefix(s, k + 1);
        assert(s.take(k + 1).drop_last() =~= s.take(k));
    } else {
        assert(s.take(k) =~= s);
    }
}

/// Centre, size and bounding box of the pixels of a region.
pub fn summarize_region(pixels: &[(usize, usize)]) -> (summary: RegionSummary)
    requires
        pixels@.len() > 0,
        seq_sum(xs(pixels@)) <= usize::MAX,
        seq_sum(ys(pixels@)) <= usize::MAX,
    ensures
        summary == region_summary(pixels@),
{
    let ghost p = pixels@;
    let mut sum_x: usize = pixels[0].0;
    let mut sum_y: usize = pixels[0].1;
    let mut min_x = pixels[0].0;
    let mut max_x = pixels[0].0;
    let mut min_y = pixels[0].1;
    let mut max_y = pixels[0].1;
    proof {
        assert(xs(p.take(1)) =~= seq![p[0].0]);
        assert(ys(p.take(1)) =~= seq![p[0].1]);
        assert(xs(p.take(1)).drop_last() =~= Seq::<usize>::empty());
        assert(ys(p.take(1)).drop_last() =~= Seq::<usize>::empty());
        assert(seq_sum(Seq::<usize>::empty()) == 0);
        assert(seq_sum(xs(p.take(1))) == p[0].0);
        assert(seq_sum(ys(p.take(1))) == p[0].1);
        lemma_sum_prefix(xs(p), 1);
        lemma_sum_prefix(ys(p), 1);
        assert(xs(p).take(1) =~= xs(p.take(1)));
        assert(ys(p).take(1) =~= ys(p.take(1)));
    }
    let mut i: usize = 1;
    while i < pixels.len()
        invariant
            p == pixels@,
            1 <= i <= p.len(),
            seq_sum(xs(p)) <= usize::MAX,
            seq_sum(ys(p)) <= usize::MAX,
            sum_x == seq_sum(xs(p.take(i as int))),
            sum_y == seq_sum(ys(p.take(i as int))),
            min_x == seq_min(xs(p.take(i as int))),
            max_x == seq_max(xs(p.take(i as int))),
            min_y == seq_min(ys(p.take(i as int))),
            max_y == seq_max(ys(p.take(i as int))),
        decreases p.len() - i,
    {
        let (x, y) = pixels[i];
        proof {
            assert(xs(p.take(i + 1)) =~= xs(p.take(i as int)).push(x));
            assert(ys(p.take(i + 1)) =~= ys(p.take(i as int)).push(y));
            assert(xs(p.take(i + 1)).drop_last() =~= xs(p.take(i as int)));
            assert(ys(p.take(i + 1)).drop_last() =~= ys(p.take(i as int)));
            lemma_sum_prefix(xs(p), i + 1);
            lemma_sum_prefix(ys(p), i + 1);
            assert(xs(p).take(i + 1) =~= xs(p.take(i + 1)));
            assert(ys(p).take(i + 1) =~= ys(p.take(i + 1)));
        }
        sum_x = sum_x + x;
        sum_y = sum_y + y;
        if x < min_x {
            min_x = x;
        }
        if x > max_x {
            max_x = x;
        }
        if y < min_y {
            min_y = y;
        }
        if y > max_y {
            max_y = y;
        }
        i += 1;
    }
    assert(p.take(p.len() as int) =~= p);
    let count = pixels.len();
    RegionSummary {
        center: (sum_x / count, sum_y / count),
        pixel_count: count,
        bbox: BoundingBox { min_x, max_x, min_y, max_y },
    }
}

/// The connected water regions of `mask` that count as water bodies: those of
/// more than 10 pixels, in the order they are found.
pub fn water_body_regions(mask: &Mask) -> (bodies: Vec<Vec<(usize, usize)>>)
    requires
        mask.wf(),
    ensures
        cell_lists(bodies@) == scan_regions(mask@).filter(larger_than(10)),
        are_all_regions(mask@, scan_regions(mask@)),
        in_scan_order(scan_regions(mask@)),
{
    regions_larger_than(mask, 10)
}

} // verus!
