//! The decomposition rule gives one set of rectangles and one set of
//! single cells for each region.
use vstd::prelude::*;

use crate::band::{column_full, is_band_box, is_band_split, is_run, is_tallest_run};
use crate::geometry::{
    band_pieces, cells_connected, greedy_split, is_component_list, joined_pieces, part_of, rest_of,
    touches_earlier,
};
use crate::pieces::{in_some_box, lemma_contains_concat};
use crate::points::{is_bbox_of, lemma_bbox_unique, lemma_box_is_own_bbox};
use crate::types::{BBox, Point};

verus! {

/// Both lists of pieces hold the same rectangles and the same cells.
pub open spec fn same_pieces(a: (Seq<BBox>, Seq<Point>), b: (Seq<BBox>, Seq<Point>)) -> bool {
    &&& forall|r: BBox| a.0.contains(r) <==> b.0.contains(r)
    &&& forall|p: Point| a.1.contains(p) <==> b.1.contains(p)
}

/// Only one run is the tallest, first in scan order.
pub proof fn lemma_tallest_run_unique(
    s: Set<Point>,
    bb: BBox,
    x1: usize,
    a1: usize,
    b1: usize,
    x2: usize,
    a2: usize,
    b2: usize,
)
    requires
        is_tallest_run(s, bb, x1, a1, b1),
        is_tallest_run(s, bb, x2, a2, b2),
    ensures
        x1 == x2 && a1 == a2 && b1 == b2,
{
    assert(is_run(s, bb, x1, a1, b1));
    assert(is_run(s, bb, x2, a2, b2));
}

/// Two widest rectangles of one band that share a column are the same.
proof fn lemma_band_boxes_meet(s: Set<Point>, bb: BBox, a: usize, b: usize, r1: BBox, r2: BBox, c: usize)
    requires
        is_band_box(s, bb, a, b, r1),
        is_band_box(s, bb, a, b, r2),
        r1.min.x <= c <= r1.max.x,
        r2.min.x <= c <= r2.max.x,
    ensures
        r1 == r2,
{
    if r1.min.x < r2.min.x {
        assert(column_full(s, (r2.min.x - 1) as usize, a, b));
    }
    if r2.min.x < r1.min.x {
        assert(column_full(s, (r1.min.x - 1) as usize, a, b));
    }
    if r1.max.x < r2.max.x {
        assert(column_full(s, (r1.max.x + 1) as usize, a, b));
    }
    if r2.max.x < r1.max.x {
        assert(column_full(s, (r2.max.x + 1) as usize, a, b));
    }
}

/// The widest rectangles of a band are the same, whichever list holds them.
proof fn lemma_band_split_unique(s: Set<Point>, bb: BBox, a: usize, b: usize, rs1: Seq<BBox>, rs2: Seq<BBox>)
    requires
        is_band_split(s, bb, a, b, rs1),
        is_band_split(s, bb, a, b, rs2),
    ensures
        forall|r: BBox| rs1.contains(r) ==> rs2.contains(r),
{
    assert forall|r: BBox| rs1.contains(r) implies rs2.contains(r) by {
        let i = choose|i: int| 0 <= i < rs1.len() && rs1[i] == r;
        assert(is_band_box(s, bb, a, b, rs1[i]));
        let c = r.min.x;
        assert(column_full(s, c, a, b));
        let j = choose|j: int| 0 <= j < rs2.len() && #[trigger] rs2[j].min.x <= c <= rs2[j].max.x;
        assert(is_band_box(s, bb, a, b, rs2[j]));
        lemma_band_boxes_meet(s, bb, a, b, r, rs2[j], c);
    }
}

/// What the band pieces hold.
proof fn lemma_band_pieces_hold(rs: Seq<BBox>)
    ensures
        forall|r: BBox|
            #![trigger band_pieces(rs).0.contains(r)]
            #![trigger rs.contains(r)]
            band_pieces(rs).0.contains(r) <==> (rs.contains(r) && !r.is_point_spec()),
        forall|p: Point|
            #![trigger band_pieces(rs).1.contains(p)]
            band_pieces(rs).1.contains(p) <==> exists|r: BBox| #[trigger] rs.contains(r) && r.is_point_spec() && r.min == p,
    decreases rs.len(),
{
    if rs.len() > 0 {
        let prev = rs.drop_last();
        lemma_band_pieces_hold(prev);
        let last = rs.last();
        assert(rs == prev.push(last));
        assert forall|r: BBox| rs.contains(r) <==> (prev.contains(r) || r == last) by {
            lemma_contains_concat(prev, seq![last], r);
            assert(prev.push(last) =~= prev + seq![last]);
            if r == last {
                assert(seq![last][0] == r);
            }
        }
        let bp = band_pieces(prev);
        if last.is_point_spec() {
            assert(band_pieces(rs) == (bp.0, bp.1.push(last.min)));
        } else {
            assert(band_pieces(rs) == (bp.0.push(last), bp.1));
        }
        assert forall|r: BBox| band_pieces(rs).0.contains(r) <==> (rs.contains(r) && !r.is_point_spec()) by {
            assert(bp.0.contains(r) <==> (prev.contains(r) && !r.is_point_spec()));
            assert(rs.contains(r) <==> (prev.contains(r) || r == last));
            if !last.is_point_spec() {
                lemma_contains_concat(bp.0, seq![last], r);
                assert(bp.0.push(last) =~= bp.0 + seq![last]);
                if r == last {
                    assert(seq![last][0] == r);
                }
            }
        }
        assert forall|p: Point|
            band_pieces(rs).1.contains(p) <==> exists|r: BBox| #[trigger] rs.contains(r) && r.is_point_spec() && r.min == p by {
            lemma_contains_concat(bp.1, seq![last.min], p);
            assert(bp.1.push(last.min) =~= bp.1 + seq![last.min]);
            if p == last.min {
                assert(seq![last.min][0] == p);
            }
            if exists|r: BBox| #[trigger] rs.contains(r) && r.is_point_spec() && r.min == p {
                let r = choose|r: BBox| #[trigger] rs.contains(r) && r.is_point_spec() && r.min == p;
                if r != last {
                    assert(prev.contains(r));
                }
            }
            if bp.1.contains(p) {
                let r = choose|r: BBox| #[trigger] prev.contains(r) && r.is_point_spec() && r.min == p;
                assert(rs.contains(r));
            }
        }
    }
}

/// What the joined pieces hold.
proof fn lemma_joined_pieces_hold(parts: Seq<(Seq<BBox>, Seq<Point>)>)
    ensures
        forall|r: BBox|
            joined_pieces(parts).0.contains(r) <==> exists|k: int| 0 <= k < parts.len() && #[trigger] parts[k].0.contains(r),
        forall|p: Point|
            joined_pieces(parts).1.contains(p) <==> exists|k: int| 0 <= k < parts.len() && #[trigger] parts[k].1.contains(p),
    decreases parts.len(),
{
    if parts.len() > 0 {
        let prev = parts.drop_last();
        lemma_joined_pieces_hold(prev);
        let n = parts.len() - 1;
        assert forall|r: BBox|
            joined_pieces(parts).0.contains(r) <==> exists|k: int| 0 <= k < parts.len() && #[trigger] parts[k].0.contains(r) by {
            lemma_contains_concat(joined_pieces(prev).0, parts.last().0, r);
            if exists|k: int| 0 <= k < parts.len() && #[trigger] parts[k].0.contains(r) {
                let k = choose|k: int| 0 <= k < parts.len() && #[trigger] parts[k].0.contains(r);
                if k < n {
                    assert(prev[k] == parts[k]);
                }
            }
            if joined_pieces(prev).0.contains(r) {
                let k = choose|k: int| 0 <= k < prev.len() && #[trigger] prev[k].0.contains(r);
                assert(parts[k] == prev[k]);
            }
        }
        assert forall|p: Point|
            joined_pieces(parts).1.contains(p) <==> exists|k: int| 0 <= k < parts.len() && #[trigger] parts[k].1.contains(p) by {
            lemma_contains_concat(joined_pieces(prev).1, parts.last().1, p);
            if exists|k: int| 0 <= k < parts.len() && #[trigger] parts[k].1.contains(p) {
                let k = choose|k: int| 0 <= k < parts.len() && #[trigger] parts[k].1.contains(p);
                if k < n {
                    assert(prev[k] == parts[k]);
                }
            }
            if joined_pieces(prev).1.contains(p) {
                let k = choose|k: int| 0 <= k < prev.len() && #[trigger] prev[k].1.contains(p);
                assert(parts[k] == prev[k]);
            }
        }
    }
}


/// Rectangle lists holding the same rectangles leave the same cells.
proof fn lemma_rest_same(s: Set<Point>, rs1: Seq<BBox>, rs2: Seq<BBox>)
    requires
        forall|r: BBox| rs1.contains(r) <==> rs2.contains(r),
    ensures
        rest_of(s, rs1) == rest_of(s, rs2),
{
    assert forall|p: Point| in_some_box(rs1, p) <==> in_some_box(rs2, p) by {
        if in_some_box(rs1, p) {
            let i = choose|i: int| 0 <= i < rs1.len() && #[trigger] rs1[i].has(p);
            assert(rs1.contains(rs1[i]));
            let j = choose|j: int| 0 <= j < rs2.len() && rs2[j] == rs1[i];
            assert(rs2[j].has(p));
        }
        if in_some_box(rs2, p) {
            let i = choose|i: int| 0 <= i < rs2.len() && #[trigger] rs2[i].has(p);
            assert(rs2.contains(rs2[i]));
            let j = choose|j: int| 0 <= j < rs1.len() && rs1[j] == rs2[i];
            assert(rs1[j].has(p));
        }
    }
    assert(rest_of(s, rs1) =~= rest_of(s, rs2));
}

/// The first `n` cells of a connected listing lie in the piece of `cs`
/// that holds its first cell.
proof fn lemma_listing_in_one_piece(s: Set<Point>, cs: Seq<Set<Point>>, o: Seq<Point>, j0: int, n: int)
    requires
        is_component_list(s, cs),
        0 <= j0 < cs.len(),
        0 < o.len(),
        cs[j0].contains(o[0]),
        forall|i: int| 0 <= i < o.len() ==> s.contains(#[trigger] o[i]),
        forall|k: int| 1 <= k < o.len() ==> #[trigger] touches_earlier(o, k),
        0 <= n <= o.len(),
    ensures
        forall|i: int| 0 <= i < n ==> cs[j0].contains(#[trigger] o[i]),
    decreases n,
{
    if n > 0 {
        lemma_listing_in_one_piece(s, cs, o, j0, n - 1);
        let i = n - 1;
        if i > 0 {
            assert(touches_earlier(o, i));
            let t = choose|t: int| 0 <= t < i && crate::types::adjacent(o[t], o[i]);
            assert(cs[j0].contains(o[t]));
            assert(s.contains(o[i]));
        }
    }
}

/// Each piece of one listing of the connected pieces of `s` is a piece of
/// any other.
proof fn lemma_piece_in_other_list(s: Set<Point>, cs1: Seq<Set<Point>>, cs2: Seq<Set<Point>>, k: int)
    requires
        is_component_list(s, cs1),
        is_component_list(s, cs2),
        0 <= k < cs1.len(),
    ensures
        exists|j: int| 0 <= j < cs2.len() && cs2[j] == cs1[k],
{
    let c = cs1[k];
    assert(c != Set::<Point>::empty() && c.subset_of(s) && cells_connected(c));
    let o = choose|o: Seq<Point>|
        #[trigger] o.to_set() == c && forall|t: int| 1 <= t < o.len() ==> #[trigger] touches_earlier(o, t);
    assert(o.len() > 0) by {
        if o.len() == 0 {
            assert(o.to_set() =~= Set::<Point>::empty());
        }
    }
    assert(o.to_set().contains(o[0]));
    assert forall|i: int| 0 <= i < o.len() implies s.contains(#[trigger] o[i]) by {
        assert(o.to_set().contains(o[i]));
    }
    assert(s.contains(o[0]));
    let j0 = choose|j: int| 0 <= j < cs2.len() && #[trigger] cs2[j].contains(o[0]);
    lemma_listing_in_one_piece(s, cs2, o, j0, o.len() as int);
    assert(c.subset_of(cs2[j0])) by {
        assert forall|q: Point| c.contains(q) implies cs2[j0].contains(q) by {
            assert(o.to_set().contains(q));
            let i = choose|i: int| 0 <= i < o.len() && o[i] == q;
        }
    }
    let d = cs2[j0];
    assert(d != Set::<Point>::empty() && d.subset_of(s) && cells_connected(d));
    let o2 = choose|o2: Seq<Point>|
        #[trigger] o2.to_set() == d && forall|t: int| 1 <= t < o2.len() ==> #[trigger] touches_earlier(o2, t);
    assert(o2.len() > 0) by {
        if o2.len() == 0 {
            assert(o2.to_set() =~= Set::<Point>::empty());
        }
    }
    assert(o2.to_set().contains(o2[0]));
    assert forall|i: int| 0 <= i < o2.len() implies s.contains(#[trigger] o2[i]) by {
        assert(o2.to_set().contains(o2[i]));
    }
    assert(s.contains(o2[0]));
    let k2 = choose|j: int| 0 <= j < cs1.len() && #[trigger] cs1[j].contains(o2[0]);
    lemma_listing_in_one_piece(s, cs1, o2, k2, o2.len() as int);
    assert(d.subset_of(cs1[k2])) by {
        assert forall|q: Point| d.contains(q) implies cs1[k2].contains(q) by {
            assert(o2.to_set().contains(q));
            let i = choose|i: int| 0 <= i < o2.len() && o2[i] == q;
        }
    }
    assert(k2 == k) by {
        assert(cs1[k].contains(o[0]));
        assert(cs1[k2].contains(o[0]));
        if k2 != k {
            assert(cs1[k].disjoint(cs1[k2]));
        }
    }
    assert(cs2[j0] =~= cs1[k]);
}

/// The decomposition rule gives the same rectangles and the same cells,
/// whatever order it takes the connected pieces in.
pub proof fn lemma_greedy_split_unique(
    s: Set<Point>,
    outer: BBox,
    bs1: Seq<BBox>,
    ps1: Seq<Point>,
    bs2: Seq<BBox>,
    ps2: Seq<Point>,
)
    requires
        greedy_split(s, outer, bs1, ps1),
        greedy_split(s, outer, bs2, ps2),
    ensures
        same_pieces((bs1, ps1), (bs2, ps2)),
    decreases s.len(), 0nat,
{
    if s.len() == 0 {
        assert(bs1.len() == 0 && bs2.len() == 0 && ps1.len() == 0 && ps2.len() == 0);
    } else {
        let (x1, a1, b1, rs1, cs1, parts1) = choose|
            x: usize,
            a: usize,
            b: usize,
            rs: Seq<BBox>,
            cs: Seq<Set<Point>>,
            parts: Seq<(Seq<BBox>, Seq<Point>)>,
        |
            #![trigger is_tallest_run(s, outer, x, a, b), is_band_split(s, outer, a, b, rs), is_component_list(rest_of(s, rs), cs), joined_pieces(parts)]
            is_tallest_run(s, outer, x, a, b) && is_band_split(s, outer, a, b, rs) && is_component_list(
                rest_of(s, rs),
                cs,
            ) && parts.len() == cs.len() && bs1 == band_pieces(rs).0 + joined_pieces(parts).0 && ps1
                == band_pieces(rs).1 + joined_pieces(parts).1 && forall|k: int|
                #![trigger cs[k]]
                0 <= k < cs.len() ==> cs[k].len() < s.len() && part_of(cs[k], parts[k]);
        let (x2, a2, b2, rs2, cs2, parts2) = choose|
            x: usize,
            a: usize,
            b: usize,
            rs: Seq<BBox>,
            cs: Seq<Set<Point>>,
            parts: Seq<(Seq<BBox>, Seq<Point>)>,
        |
            #![trigger is_tallest_run(s, outer, x, a, b), is_band_split(s, outer, a, b, rs), is_component_list(rest_of(s, rs), cs), joined_pieces(parts)]
            is_tallest_run(s, outer, x, a, b) && is_band_split(s, outer, a, b, rs) && is_component_list(
                rest_of(s, rs),
                cs,
            ) && parts.len() == cs.len() && bs2 == band_pieces(rs).0 + joined_pieces(parts).0 && ps2
                == band_pieces(rs).1 + joined_pieces(parts).1 && forall|k: int|
                #![trigger cs[k]]
                0 <= k < cs.len() ==> cs[k].len() < s.len() && part_of(cs[k], parts[k]);
        lemma_tallest_run_unique(s, outer, x1, a1, b1, x2, a2, b2);
        lemma_band_split_unique(s, outer, a1, b1, rs1, rs2);
        lemma_band_split_unique(s, outer, a1, b1, rs2, rs1);
        lemma_band_pieces_hold(rs1);
        lemma_band_pieces_hold(rs2);
        lemma_rest_same(s, rs1, rs2);
        let rest = rest_of(s, rs1);
        lemma_joined_pieces_hold(parts1);
        lemma_joined_pieces_hold(parts2);
        assert forall|k: int|
            #![trigger cs1[k]]
            0 <= k < cs1.len() implies exists|j: int|
            0 <= j < cs2.len() && #[trigger] cs2[j] == cs1[k] && same_pieces(parts1[k], parts2[j]) by {
            lemma_piece_in_other_list(rest, cs1, cs2, k);
            let j = choose|j: int| 0 <= j < cs2.len() && cs2[j] == cs1[k];
            assert(cs1[k].len() < s.len() && part_of(cs1[k], parts1[k]));
            assert(cs2[j].len() < s.len() && part_of(cs2[j], parts2[j]));
            lemma_part_unique(cs1[k], parts1[k], parts2[j]);
        }
        assert forall|k: int|
            #![trigger cs2[k]]
            0 <= k < cs2.len() implies exists|j: int|
            0 <= j < cs1.len() && #[trigger] cs1[j] == cs2[k] && same_pieces(parts2[k], parts1[j]) by {
            lemma_piece_in_other_list(rest, cs2, cs1, k);
            let j = choose|j: int| 0 <= j < cs1.len() && cs1[j] == cs2[k];
            assert(cs2[k].len() < s.len() && part_of(cs2[k], parts2[k]));
            assert(cs1[j].len() < s.len() && part_of(cs1[j], parts1[j]));
            lemma_part_unique(cs2[k], parts2[k], parts1[j]);
        }
        assert forall|r: BBox| bs1.contains(r) <==> bs2.contains(r) by {
            lemma_contains_concat(band_pieces(rs1).0, joined_pieces(parts1).0, r);
            lemma_contains_concat(band_pieces(rs2).0, joined_pieces(parts2).0, r);
            if joined_pieces(parts1).0.contains(r) {
                let k = choose|k: int| 0 <= k < parts1.len() && #[trigger] parts1[k].0.contains(r);
                assert(cs1[k] == cs1[k]);
                let j = choose|j: int| 0 <= j < cs2.len() && #[trigger] cs2[j] == cs1[k] && same_pieces(parts1[k], parts2[j]);
                assert(parts2[j].0.contains(r));
            }
            if joined_pieces(parts2).0.contains(r) {
                let k = choose|k: int| 0 <= k < parts2.len() && #[trigger] parts2[k].0.contains(r);
                assert(cs2[k] == cs2[k]);
                let j = choose|j: int| 0 <= j < cs1.len() && #[trigger] cs1[j] == cs2[k] && same_pieces(parts2[k], parts1[j]);
                assert(parts1[j].0.contains(r));
            }
        }
        assert forall|p: Point| ps1.contains(p) <==> ps2.contains(p) by {
            lemma_contains_concat(band_pieces(rs1).1, joined_pieces(parts1).1, p);
            lemma_contains_concat(band_pieces(rs2).1, joined_pieces(parts2).1, p);
            if band_pieces(rs1).1.contains(p) {
                let r = choose|r: BBox| #[trigger] rs1.contains(r) && r.is_point_spec() && r.min == p;
                assert(rs2.contains(r));
            }
            if band_pieces(rs2).1.contains(p) {
                let r = choose|r: BBox| #[trigger] rs2.contains(r) && r.is_point_spec() && r.min == p;
                assert(rs1.contains(r));
            }
            if joined_pieces(parts1).1.contains(p) {
                let k = choose|k: int| 0 <= k < parts1.len() && #[trigger] parts1[k].1.contains(p);
                assert(cs1[k] == cs1[k]);
                let j = choose|j: int| 0 <= j < cs2.len() && #[trigger] cs2[j] == cs1[k] && same_pieces(parts1[k], parts2[j]);
                assert(parts2[j].1.contains(p));
            }
            if joined_pieces(parts2).1.contains(p) {
                let k = choose|k: int| 0 <= k < parts2.len() && #[trigger] parts2[k].1.contains(p);
                assert(cs2[k] == cs2[k]);
                let j = choose|j: int| 0 <= j < cs1.len() && #[trigger] cs1[j] == cs2[k] && same_pieces(parts2[k], parts1[j]);
                assert(parts1[j].1.contains(p));
            }
        }
    }
}

/// One connected piece gives the same rectangles and cells, whichever
/// decomposition of it is taken.
proof fn lemma_part_unique(c: Set<Point>, part1: (Seq<BBox>, Seq<Point>), part2: (Seq<BBox>, Seq<Point>))
    requires
        part_of(c, part1),
        part_of(c, part2),
    ensures
        same_pieces(part1, part2),
    decreases c.len(), 1nat,
{
    if c.len() == 1 {
        let p1 = choose|p: Point| c == set![p] && part1 == (Seq::<BBox>::empty(), seq![p]);
        let p2 = choose|p: Point| c == set![p] && part2 == (Seq::<BBox>::empty(), seq![p]);
        assert(set![p1].contains(p1));
        assert(p1 == p2);
    } else if crate::points::is_full_box(c) {
        let b1 = choose|b: BBox| b.wf() && b.cells() == c && part1 == (seq![b], Seq::<Point>::empty());
        let b2 = choose|b: BBox| b.wf() && b.cells() == c && part2 == (seq![b], Seq::<Point>::empty());
        lemma_box_is_own_bbox(b1);
        lemma_box_is_own_bbox(b2);
        lemma_bbox_unique(b1, b2, c);
    } else {
        let b1 = choose|b: BBox| is_bbox_of(b, c) && greedy_split(c, b, part1.0, part1.1);
        let b2 = choose|b: BBox| is_bbox_of(b, c) && greedy_split(c, b, part2.0, part2.1);
        lemma_bbox_unique(b1, b2, c);
        lemma_greedy_split_unique(c, b1, part1.0, part1.1, part2.0, part2.1);
    }
}

} // verus!
