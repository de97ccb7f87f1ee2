//! The first step of the decomposition: the tallest vertical run of a
//! region, and the widest rectangles at its rows.
use vstd::prelude::*;

use crate::points::contains_point;
use crate::types::{BBox, Point};

verus! {

/// Column `x` of `s` holds every row from `a` to `b`.
pub open spec fn column_full(s: Set<Point>, x: usize, a: usize, b: usize) -> bool {
    forall|y: usize| a <= y <= b ==> #[trigger] s.contains(Point { x, y })
}

/// Rows `a..=b` of column `x` are a maximal vertical run of `s` inside `bb`.
pub open spec fn is_run(s: Set<Point>, bb: BBox, x: usize, a: usize, b: usize) -> bool {
    &&& bb.min.x <= x <= bb.max.x
    &&& bb.min.y <= a <= b <= bb.max.y
    &&& column_full(s, x, a, b)
    &&& (a == bb.min.y || !s.contains(Point { x, y: (a - 1) as usize }))
    &&& (b == bb.max.y || !s.contains(Point { x, y: (b + 1) as usize }))
}

/// Column-major scan order: `(x1, a1)` comes no later than `(x2, a2)`.
pub open spec fn scanned_before(x1: usize, a1: usize, x2: usize, a2: usize) -> bool {
    x1 < x2 || (x1 == x2 && a1 <= a2)
}

/// The run at `(x, a..=b)` is the tallest run of `s` in `bb`, and the first
/// one in scan order among the runs of that height.
pub open spec fn is_tallest_run(s: Set<Point>, bb: BBox, x: usize, a: usize, b: usize) -> bool {
    &&& is_run(s, bb, x, a, b)
    &&& forall|x2: usize, a2: usize, b2: usize| #[trigger]
        is_run(s, bb, x2, a2, b2) ==> b2 - a2 <= b - a && (b2 - a2 == b - a ==> scanned_before(
            x,
            a,
            x2,
            a2,
        ))
}

/// When `found`, the run at `(run_x, run_a..=run_b)` is the tallest run,
/// first in scan order, among the runs that the scan has passed: those of a
/// column before `x`, and those of column `x` that end before row `y - 1`.
pub open spec fn best_so_far(
    s: Set<Point>,
    bb: BBox,
    x: int,
    y: int,
    found: bool,
    run_x: usize,
    run_a: usize,
    run_b: usize,
) -> bool {
    &&& !found ==> forall|x2: usize, a2: usize, b2: usize| #[trigger]
        is_run(s, bb, x2, a2, b2) ==> !(x2 < x || (x2 == x && b2 + 1 < y))
    &&& found ==> {
        &&& is_run(s, bb, run_x, run_a, run_b)
        &&& (run_x < x || (run_x == x && run_b + 1 < y))
        &&& forall|x2: usize, a2: usize, b2: usize| #[trigger]
            is_run(s, bb, x2, a2, b2) && (x2 < x || (x2 == x && b2 + 1 < y)) ==> b2 - a2 <= run_b - run_a
                && (b2 - a2 == run_b - run_a ==> scanned_before(run_x, run_a, x2, a2))
    }
}

/// Finds the tallest vertical run of `points` inside `outer`, scanning the
/// columns left to right and each column top to bottom; a later run replaces
/// the best one only when it is strictly taller. Returns its column and rows.
pub fn tallest_run(points: &Vec<Point>, outer: &BBox) -> (r: (usize, usize, usize))
    requires
        outer.wf(),
        exists|p: Point| points@.contains(p) && outer.has(p),
    ensures
        is_tallest_run(points@.to_set(), *outer, r.0, r.1, r.2),
{
    let ghost s = points@.to_set();
    let ghost bb = *outer;
    let mut found = false;
    let mut best_x: usize = outer.min.x;
    let mut best_a: usize = outer.min.y;
    let mut best_b: usize = outer.min.y;
    let mut x: usize = outer.min.x;
    let mut more_x = true;
    let ghost mut done_x: int = outer.min.x as int;
    while more_x
        invariant
            bb == *outer,
            s == points@.to_set(),
            bb.wf(),
            bb.min.x <= x <= bb.max.x,
            more_x ==> done_x == x,
            !more_x ==> done_x == bb.max.x + 1,
            best_so_far(s, bb, done_x, 0, found, best_x, best_a, best_b),
            forall|p: Point| s.contains(p) && bb.has(p) && p.x < done_x ==> found,
        decreases bb.max.x + 1 - done_x,
    {
        let mut started = false;
        let mut start: usize = outer.min.y;
        let mut y: usize = outer.min.y;
        let mut more_y = true;
        let ghost mut done_y: int = outer.min.y as int;
        while more_y
            invariant
                bb == *outer,
                s == points@.to_set(),
                bb.wf(),
                more_x,
                done_x == x,
                bb.min.x <= x <= bb.max.x,
                bb.min.y <= y <= bb.max.y,
                more_y ==> done_y == y,
                !more_y ==> done_y == bb.max.y + 1,
                started ==> bb.min.y <= start < done_y && column_full(s, x, start, (done_y - 1) as usize)
                    && (start == bb.min.y || !s.contains(Point { x, y: (start - 1) as usize })),
                !started ==> (done_y == bb.min.y || !s.contains(Point { x, y: (done_y - 1) as usize })),
                best_so_far(s, bb, x as int, done_y, found, best_x, best_a, best_b),
                forall|p: Point| s.contains(p) && bb.has(p) && p.x < x ==> found,
                forall|p: Point|
                    s.contains(p) && bb.has(p) && p.x == x && p.y < done_y ==> found || started,
            decreases bb.max.y + 1 - done_y,
        {
            let present = contains_point(points, &Point::new(x, y));
            if present {
                if !started {
                    started = true;
                    start = y;
                }
            } else {
                if started {
                    proof {
                        assert(is_run(s, bb, x, start, (y - 1) as usize));
                    }
                    if !found || y - 1 - start > best_b - best_a {
                        found = true;
                        best_x = x;
                        best_a = start;
                        best_b = y - 1;
                    }
                    started = false;
                }
            }
            proof {
                assert(best_so_far(s, bb, x as int, y + 1, found, best_x, best_a, best_b));
            }
            if y == outer.max.y {
                more_y = false;
            } else {
                y = y + 1;
            }
            proof {
                done_y = done_y + 1;
            }
        }
        if started {
            proof {
                assert(is_run(s, bb, x, start, bb.max.y));
            }
            if !found || outer.max.y - start > best_b - best_a {
                found = true;
                best_x = x;
                best_a = start;
                best_b = outer.max.y;
            }
        }
        proof {
            assert(best_so_far(s, bb, x + 1, 0, found, best_x, best_a, best_b));
        }
        if x == outer.max.x {
            more_x = false;
        } else {
            x = x + 1;
        }
        proof {
            done_x = done_x + 1;
        }
    }
    (best_x, best_a, best_b)
}


/// `r` is a widest rectangle of rows `a..=b` inside `bb` whose columns `s`
/// fills.
pub open spec fn is_band_box(s: Set<Point>, bb: BBox, a: usize, b: usize, r: BBox) -> bool {
    &&& a <= b
    &&& r.min.y == a && r.max.y == b
    &&& bb.min.x <= r.min.x <= r.max.x <= bb.max.x
    &&& forall|x: usize| r.min.x <= x <= r.max.x ==> #[trigger] column_full(s, x, a, b)
    &&& (r.min.x == bb.min.x || !column_full(s, (r.min.x - 1) as usize, a, b))
    &&& (r.max.x == bb.max.x || !column_full(s, (r.max.x + 1) as usize, a, b))
}

/// `rs` lists, left to right, every widest rectangle of rows `a..=b` that
/// `s` fills inside `bb`.
pub open spec fn is_band_split(s: Set<Point>, bb: BBox, a: usize, b: usize, rs: Seq<BBox>) -> bool {
    &&& forall|i: int| 0 <= i < rs.len() ==> #[trigger] is_band_box(s, bb, a, b, rs[i])
    &&& forall|i: int, j: int| 0 <= i < j < rs.len() ==> rs[i].max.x < rs[j].min.x
    &&& forall|x: usize|
        bb.min.x <= x <= bb.max.x && #[trigger] column_full(s, x, a, b) ==> exists|i: int|
            0 <= i < rs.len() && #[trigger] rs[i].min.x <= x <= rs[i].max.x
}

/// Whether column `x` of `points` holds every row from `a` to `b`.
fn column_matches(points: &Vec<Point>, x: usize, a: usize, b: usize) -> (r: bool)
    requires
        a <= b,
    ensures
        r == column_full(points@.to_set(), x, a, b),
{
    let ghost s = points@.to_set();
    let mut y: usize = a;
    loop
        invariant
            a <= y <= b,
            s == points@.to_set(),
            forall|y2: usize| a <= y2 < y ==> #[trigger] s.contains(Point { x, y: y2 }),
        decreases b - y,
    {
        if !contains_point(points, &Point::new(x, y)) {
            assert(!s.contains(Point { x, y }));
            return false;
        }
        if y == b {
            return true;
        }
        y = y + 1;
    }
}

/// Every widest rectangle of rows `a..=b` that `points` fills inside `outer`,
/// left to right.
pub fn band_boxes(points: &Vec<Point>, outer: &BBox, a: usize, b: usize) -> (r: Vec<BBox>)
    requires
        outer.wf(),
        a <= b,
    ensures
        is_band_split(points@.to_set(), *outer, a, b, r@),
{
    let ghost s = points@.to_set();
    let ghost bb = *outer;
    let mut rs: Vec<BBox> = Vec::new();
    let mut open = false;
    let mut start_x: usize = outer.min.x;
    let mut x: usize = outer.min.x;
    let mut more = true;
    let ghost mut done: int = outer.min.x as int;
    while more
        invariant
            bb == *outer,
            s == points@.to_set(),
            bb.wf(),
            a <= b,
            bb.min.x <= x <= bb.max.x,
            more ==> done == x,
            !more ==> done == bb.max.x + 1,
            forall|i: int| 0 <= i < rs@.len() ==> #[trigger] is_band_box(s, bb, a, b, rs@[i]),
            forall|i: int, j: int| 0 <= i < j < rs@.len() ==> rs@[i].max.x < rs@[j].min.x,
            forall|i: int| 0 <= i < rs@.len() ==> rs@[i].max.x + 1 < done,
            open ==> bb.min.x <= start_x < done,
            open ==> forall|i: int| 0 <= i < rs@.len() ==> rs@[i].max.x < start_x,
            open ==> forall|x2: usize| start_x <= x2 < done ==> #[trigger] column_full(s, x2, a, b),
            open ==> (start_x == bb.min.x || !column_full(s, (start_x - 1) as usize, a, b)),
            !open ==> (done == bb.min.x || !column_full(s, (done - 1) as usize, a, b)),
            forall|x2: usize|
                bb.min.x <= x2 < done && #[trigger] column_full(s, x2, a, b) ==> (exists|i: int|
                    0 <= i < rs@.len() && #[trigger] rs@[i].min.x <= x2 <= rs@[i].max.x) || (open && start_x
                    <= x2),
        decreases bb.max.x + 1 - done,
    {
        let full = column_matches(points, x, a, b);
        if full {
            if !open {
                open = true;
                start_x = x;
            }
        } else {
            if open {
                let r = BBox::new_xy(start_x, a, x - 1, b);
                let ghost rs0 = rs@;
                rs.push(r);
                open = false;
                proof {
                    let last = rs@.len() - 1;
                    assert(rs@[last] == r);
                    assert(is_band_box(s, bb, a, b, r));
                    assert forall|x2: usize|
                        bb.min.x <= x2 < done + 1 && #[trigger] column_full(s, x2, a, b) implies (exists|i: int|
                            0 <= i < rs@.len() && #[trigger] rs@[i].min.x <= x2 <= rs@[i].max.x) || (open && start_x
                            <= x2) by {
                        if x2 >= start_x {
                            assert(rs@[last].min.x <= x2 <= rs@[last].max.x);
                        } else {
                            let i = choose|i: int|
                                0 <= i < rs0.len() && #[trigger] rs0[i].min.x <= x2 <= rs0[i].max.x;
                            assert(rs@[i] == rs0[i]);
                        }
                    }
                }
            }
        }
        if x == outer.max.x {
            more = false;
        } else {
            x = x + 1;
        }
        proof {
            done = done + 1;
        }
    }
    if open {
        let r = BBox::new_xy(start_x, a, outer.max.x, b);
        let ghost rs0 = rs@;
        rs.push(r);
        proof {
            let last = rs@.len() - 1;
            assert(rs@[last] == r);
            assert(is_band_box(s, bb, a, b, r));
            assert forall|x2: usize|
                bb.min.x <= x2 <= bb.max.x && #[trigger] column_full(s, x2, a, b) implies exists|i: int|
                    0 <= i < rs@.len() && #[trigger] rs@[i].min.x <= x2 <= rs@[i].max.x by {
                if x2 >= start_x {
                    assert(rs@[last].min.x <= x2 <= rs@[last].max.x);
                } else {
                    let i = choose|i: int|
                        0 <= i < rs0.len() && #[trigger] rs0[i].min.x <= x2 <= rs0[i].max.x;
                    assert(rs@[i] == rs0[i]);
                }
            }
        }
    }
    rs
}

/// The cells of a band rectangle all belong to the set.
pub proof fn lemma_band_box_inside(s: Set<Point>, bb: BBox, a: usize, b: usize, r: BBox)
    requires
        is_band_box(s, bb, a, b, r),
    ensures
        r.wf(),
        r.cells().subset_of(s),
{
    assert forall|p: Point| r.cells().contains(p) implies s.contains(p) by {
        assert(column_full(s, p.x, a, b));
        assert(s.contains(Point { x: p.x, y: p.y }));
    }
}

} // verus!
