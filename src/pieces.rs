//! Lists of rectangles and single cells, the cells they cover, and when
//! they share none.
use vstd::prelude::*;

use crate::types::{BBox, Point};

verus! {

/// Some rectangle of `bs` covers `p`.
pub open spec fn in_some_box(bs: Seq<BBox>, p: Point) -> bool {
    exists|i: int| 0 <= i < bs.len() && #[trigger] bs[i].has(p)
}

/// The cells covered by the rectangles `bs` and the single cells `ps`.
pub open spec fn covered(bs: Seq<BBox>, ps: Seq<Point>) -> Set<Point> {
    Set::new(|p: Point| in_some_box(bs, p) || ps.contains(p))
}

/// The two rectangles share no cell (told by their extents).
pub open spec fn boxes_apart(a: BBox, b: BBox) -> bool {
    a.max.x < b.min.x || b.max.x < a.min.x || a.max.y < b.min.y || b.max.y < a.min.y
}

/// A decomposition into rectangles and single cells: every rectangle is
/// well formed and more than one cell, and no two pieces share a cell.
pub open spec fn pieces_ok(bs: Seq<BBox>, ps: Seq<Point>) -> bool {
    &&& forall|i: int| 0 <= i < bs.len() ==> (#[trigger] bs[i]).wf() && !bs[i].is_point_spec()
    &&& forall|i: int, j: int|
        0 <= i < bs.len() && 0 <= j < bs.len() && i != j ==> boxes_apart(#[trigger] bs[i], #[trigger] bs[j])
    &&& forall|i: int, j: int| 0 <= i < bs.len() && 0 <= j < ps.len() ==> !(#[trigger] bs[i]).has(#[trigger] ps[j])
    &&& ps.no_duplicates()
}

/// The corner cell shared by two overlapping rectangles.
pub open spec fn overlap_cell(a: BBox, b: BBox) -> Point {
    Point {
        x: if a.min.x < b.min.x { b.min.x } else { a.min.x },
        y: if a.min.y < b.min.y { b.min.y } else { a.min.y },
    }
}

pub proof fn lemma_overlap_cell(a: BBox, b: BBox)
    requires
        a.wf(),
        b.wf(),
        !boxes_apart(a, b),
    ensures
        a.has(overlap_cell(a, b)),
        b.has(overlap_cell(a, b)),
{
}

pub proof fn lemma_contains_concat<T>(s1: Seq<T>, s2: Seq<T>, q: T)
    ensures
        (s1 + s2).contains(q) == (s1.contains(q) || s2.contains(q)),
{
    let s = s1 + s2;
    if s.contains(q) {
        let k = choose|k: int| 0 <= k < s.len() && s[k] == q;
        if k < s1.len() {
            assert(s1[k] == q);
        } else {
            assert(s2[k - s1.len()] == q);
        }
    }
    if s1.contains(q) {
        let k = choose|k: int| 0 <= k < s1.len() && s1[k] == q;
        assert(s[k] == q);
    }
    if s2.contains(q) {
        let k = choose|k: int| 0 <= k < s2.len() && s2[k] == q;
        assert(s[k + s1.len()] == q);
    }
}

pub proof fn lemma_in_some_box_concat(b1: Seq<BBox>, b2: Seq<BBox>, p: Point)
    ensures
        in_some_box(b1 + b2, p) == (in_some_box(b1, p) || in_some_box(b2, p)),
{
    let bs = b1 + b2;
    if in_some_box(bs, p) {
        let k = choose|k: int| 0 <= k < bs.len() && #[trigger] bs[k].has(p);
        if k < b1.len() {
            assert(b1[k].has(p));
        } else {
            assert(b2[k - b1.len()].has(p));
        }
    }
    if in_some_box(b1, p) {
        let k = choose|k: int| 0 <= k < b1.len() && #[trigger] b1[k].has(p);
        assert(bs[k].has(p));
    }
    if in_some_box(b2, p) {
        let k = choose|k: int| 0 <= k < b2.len() && #[trigger] b2[k].has(p);
        assert(bs[k + b1.len()].has(p));
    }
}

/// The cells covered by two lists of pieces put together.
pub proof fn lemma_covered_concat(b1: Seq<BBox>, p1: Seq<Point>, b2: Seq<BBox>, p2: Seq<Point>)
    ensures
        covered(b1 + b2, p1 + p2) == covered(b1, p1).union(covered(b2, p2)),
{
    assert forall|p: Point|
        covered(b1 + b2, p1 + p2).contains(p) == covered(b1, p1).union(covered(b2, p2)).contains(p) by {
        lemma_in_some_box_concat(b1, b2, p);
        lemma_contains_concat(p1, p2, p);
    }
    assert(covered(b1 + b2, p1 + p2) =~= covered(b1, p1).union(covered(b2, p2)));
}

/// Two decompositions of disjoint cell sets put together form a
/// decomposition of the union.
pub proof fn lemma_merge_pieces(b1: Seq<BBox>, p1: Seq<Point>, b2: Seq<BBox>, p2: Seq<Point>)
    requires
        pieces_ok(b1, p1),
        pieces_ok(b2, p2),
        covered(b1, p1).disjoint(covered(b2, p2)),
    ensures
        pieces_ok(b1 + b2, p1 + p2),
        covered(b1 + b2, p1 + p2) == covered(b1, p1).union(covered(b2, p2)),
{
    lemma_covered_concat(b1, p1, b2, p2);
    let bs = b1 + b2;
    let ps = p1 + p2;
    let n1 = b1.len() as int;
    let m1 = p1.len() as int;
    assert forall|i: int| 0 <= i < bs.len() implies (#[trigger] bs[i]).wf() && !bs[i].is_point_spec() by {
        if i < n1 {
            assert(bs[i] == b1[i]);
        } else {
            assert(bs[i] == b2[i - n1]);
        }
    }
    assert forall|i: int, j: int|
        0 <= i < bs.len() && 0 <= j < bs.len() && i != j implies boxes_apart(#[trigger] bs[i], #[trigger] bs[j]) by {
        if i < n1 && j < n1 {
            assert(boxes_apart(b1[i], b1[j]));
        } else if i >= n1 && j >= n1 {
            assert(boxes_apart(b2[i - n1], b2[j - n1]));
        } else {
            assert(bs[i].wf() && bs[j].wf());
            if !boxes_apart(bs[i], bs[j]) {
                lemma_overlap_cell(bs[i], bs[j]);
                let c = overlap_cell(bs[i], bs[j]);
                if i < n1 {
                    assert(b1[i].has(c));
                    assert(b2[j - n1].has(c));
                } else {
                    assert(b2[i - n1].has(c));
                    assert(b1[j].has(c));
                }
                assert(covered(b1, p1).contains(c));
                assert(covered(b2, p2).contains(c));
            }
        }
    }
    assert forall|i: int, j: int| 0 <= i < bs.len() && 0 <= j < ps.len() implies !(#[trigger] bs[i]).has(
        #[trigger] ps[j],
    ) by {
        if i < n1 && j < m1 {
            assert(!b1[i].has(p1[j]));
        } else if i >= n1 && j >= m1 {
            assert(!b2[i - n1].has(p2[j - m1]));
        } else if i < n1 {
            if bs[i].has(ps[j]) {
                assert(b1[i].has(p2[j - m1]));
                assert(covered(b1, p1).contains(p2[j - m1]));
                assert(p2.contains(p2[j - m1]));
                assert(covered(b2, p2).contains(p2[j - m1]));
            }
        } else {
            if bs[i].has(ps[j]) {
                assert(b2[i - n1].has(p1[j]));
                assert(covered(b2, p2).contains(p1[j]));
                assert(p1.contains(p1[j]));
                assert(covered(b1, p1).contains(p1[j]));
            }
        }
    }
    assert forall|i: int, j: int| 0 <= i < ps.len() && 0 <= j < ps.len() && i != j implies ps[i] != ps[j] by {
        if i < m1 && j < m1 {
        } else if i >= m1 && j >= m1 {
        } else if ps[i] == ps[j] {
            let (a, b) = if i < m1 {
                (i, j - m1)
            } else {
                (j, i - m1)
            };
            assert(p1[a] == p2[b]);
            assert(p1.contains(p1[a]));
            assert(p2.contains(p2[b]));
            assert(covered(b1, p1).contains(p1[a]));
            assert(covered(b2, p2).contains(p1[a]));
        }
    }
}

/// A single rectangle of more than one cell is a decomposition of its cells.
pub proof fn lemma_single_box(b: BBox)
    requires
        b.wf(),
        !b.is_point_spec(),
    ensures
        pieces_ok(seq![b], Seq::<Point>::empty()),
        covered(seq![b], Seq::<Point>::empty()) == b.cells(),
{
    let bs = seq![b];
    assert forall|p: Point| covered(bs, Seq::<Point>::empty()).contains(p) == b.cells().contains(p) by {
        if b.has(p) {
            assert(bs[0].has(p));
        }
    }
    assert(covered(bs, Seq::<Point>::empty()) =~= b.cells());
}

/// A single cell is a decomposition of itself.
pub proof fn lemma_single_point(p: Point)
    ensures
        pieces_ok(Seq::<BBox>::empty(), seq![p]),
        covered(Seq::<BBox>::empty(), seq![p]) == set![p],
{
    let ps = seq![p];
    assert forall|q: Point| covered(Seq::<BBox>::empty(), ps).contains(q) == set![p].contains(q) by {
        if q == p {
            assert(ps[0] == q);
        }
    }
    assert(covered(Seq::<BBox>::empty(), ps) =~= set![p]);
}

/// No pieces cover nothing.
pub proof fn lemma_no_pieces()
    ensures
        pieces_ok(Seq::<BBox>::empty(), Seq::<Point>::empty()),
        covered(Seq::<BBox>::empty(), Seq::<Point>::empty()) == Set::<Point>::empty(),
{
    assert(covered(Seq::<BBox>::empty(), Seq::<Point>::empty()) =~= Set::<Point>::empty());
}

} // verus!
