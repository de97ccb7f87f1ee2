//! Sets of cells and their bounding rectangles.
use vstd::prelude::*;

use crate::types::{BBox, Point};

verus! {

/// `b` is the smallest rectangle holding every cell of `s`.
pub open spec fn is_bbox_of(b: BBox, s: Set<Point>) -> bool {
    &&& b.wf()
    &&& forall|p: Point| s.contains(p) ==> b.has(p)
    &&& exists|p: Point| s.contains(p) && p.x == b.min.x
    &&& exists|p: Point| s.contains(p) && p.x == b.max.x
    &&& exists|p: Point| s.contains(p) && p.y == b.min.y
    &&& exists|p: Point| s.contains(p) && p.y == b.max.y
}

/// The rectangle that stands for an empty set of cells.
pub open spec fn origin_box() -> BBox {
    BBox { min: Point { x: 0, y: 0 }, max: Point { x: 0, y: 0 } }
}

/// `s` fills some rectangle exactly.
pub open spec fn is_full_box(s: Set<Point>) -> bool {
    exists|b: BBox| b.wf() && b.cells() == s
}

/// The smallest rectangle around a set is unique.
pub proof fn lemma_bbox_unique(b1: BBox, b2: BBox, s: Set<Point>)
    requires
        is_bbox_of(b1, s),
        is_bbox_of(b2, s),
    ensures
        b1 == b2,
{
    let p1 = choose|p: Point| s.contains(p) && p.x == b1.min.x;
    let p2 = choose|p: Point| s.contains(p) && p.x == b2.min.x;
    assert(b2.has(p1) && b1.has(p2));
    let q1 = choose|p: Point| s.contains(p) && p.x == b1.max.x;
    let q2 = choose|p: Point| s.contains(p) && p.x == b2.max.x;
    assert(b2.has(q1) && b1.has(q2));
    let r1 = choose|p: Point| s.contains(p) && p.y == b1.min.y;
    let r2 = choose|p: Point| s.contains(p) && p.y == b2.min.y;
    assert(b2.has(r1) && b1.has(r2));
    let t1 = choose|p: Point| s.contains(p) && p.y == b1.max.y;
    let t2 = choose|p: Point| s.contains(p) && p.y == b2.max.y;
    assert(b2.has(t1) && b1.has(t2));
}

/// A rectangle is the smallest rectangle around its own cells.
pub proof fn lemma_box_is_own_bbox(b: BBox)
    requires
        b.wf(),
    ensures
        is_bbox_of(b, b.cells()),
{
    assert(b.cells().contains(b.min));
    assert(b.cells().contains(b.max));
}

/// A set that some rectangle fills is filled by its smallest rectangle.
pub proof fn lemma_full_box_is_bbox(s: Set<Point>, b: BBox)
    requires
        is_full_box(s),
        is_bbox_of(b, s),
    ensures
        b.cells() == s,
{
    let c = choose|c: BBox| c.wf() && c.cells() == s;
    lemma_box_is_own_bbox(c);
    lemma_bbox_unique(b, c, s);
}

/// Whether `points` holds `p`.
pub fn contains_point(points: &Vec<Point>, p: &Point) -> (r: bool)
    ensures
        r == points@.contains(*p),
{
    let mut i: usize = 0;
    while i < points.len()
        invariant
            0 <= i <= points@.len(),
            forall|k: int| 0 <= k < i ==> points@[k] != *p,
        decreases points@.len() - i,
    {
        if points[i] == *p {
            return true;
        }
        i = i + 1;
    }
    false
}

/// The smallest rectangle around `points`; for no points, the one-cell
/// rectangle at the origin.
pub fn calc_bbox_by_points(points: &Vec<Point>) -> (r: BBox)
    ensures
        points@.len() == 0 ==> r == origin_box(),
        points@.len() > 0 ==> is_bbox_of(r, points@.to_set()),
{
    if points.len() == 0 {
        return BBox::new_xy(0, 0, 0, 0);
    }
    let ghost s = points@.to_set();
    let mut min_x = points[0].x;
    let mut max_x = points[0].x;
    let mut min_y = points[0].y;
    let mut max_y = points[0].y;
    let ghost mut wx0 = points@[0];
    let ghost mut wx1 = points@[0];
    let ghost mut wy0 = points@[0];
    let ghost mut wy1 = points@[0];
    let mut i: usize = 1;
    while i < points.len()
        invariant
            1 <= i <= points@.len(),
            s == points@.to_set(),
            min_x <= max_x,
            min_y <= max_y,
            forall|k: int|
                0 <= k < i ==> min_x <= #[trigger] points@[k].x <= max_x && min_y <= points@[k].y
                    <= max_y,
            s.contains(wx0) && wx0.x == min_x,
            s.contains(wx1) && wx1.x == max_x,
            s.contains(wy0) && wy0.y == min_y,
            s.contains(wy1) && wy1.y == max_y,
        decreases points@.len() - i,
    {
        let p = points[i];
        assert(s.contains(points@[i as int]));
        if p.x < min_x {
            min_x = p.x;
            proof {
                wx0 = p;
            }
        }
        if p.x > max_x {
            max_x = p.x;
            proof {
                wx1 = p;
            }
        }
        if p.y < min_y {
            min_y = p.y;
            proof {
                wy0 = p;
            }
        }
        if p.y > max_y {
            max_y = p.y;
            proof {
                wy1 = p;
            }
        }
        i = i + 1;
    }
    let r = BBox::new_xy(min_x, min_y, max_x, max_y);
    assert forall|p: Point| s.contains(p) implies r.has(p) by {
        let k = choose|k: int| 0 <= k < points@.len() && points@[k] == p;
        assert(min_x <= points@[k].x);
    }
    r
}

/// The smallest rectangle around `points` when they fill it exactly.
pub fn are_points_is_bbox(points: &Vec<Point>) -> (r: Option<BBox>)
    requires
        points@.no_duplicates(),
    ensures
        r is Some <==> (points@.len() > 0 && is_full_box(points@.to_set())),
        r is Some ==> is_bbox_of(r->0, points@.to_set()) && r->0.cells() == points@.to_set(),
{
    let bbox = calc_bbox_by_points(points);
    let ghost s = points@.to_set();
    proof {
        points@.unique_seq_to_set();
        crate::types::lemma_cells_len(bbox);
    }
    if points.len() == 0 {
        return None;
    }
    match bbox.checked_points_count() {
        Some(n) => {
            if n == points.len() {
                proof {
                    assert(s.subset_of(bbox.cells()));
                    vstd::set_lib::lemma_subset_equality(s, bbox.cells());
                }
                Some(bbox)
            } else {
                proof {
                    if is_full_box(s) {
                        lemma_full_box_is_bbox(s, bbox);
                    }
                }
                None
            }
        },
        None => {
            proof {
                if is_full_box(s) {
                    lemma_full_box_is_bbox(s, bbox);
                }
            }
            None
        },
    }
}

} // verus!
