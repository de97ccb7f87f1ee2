//! Properties that hold of every decomposition and every layout.
use vstd::prelude::*;

use crate::geometry::{classified_as, normalized, shape_cells, ComplexGeometry, Shape};
use crate::grid::PixelGrid;
use crate::components::{
    component_ok, grows_by_links, has_key, linked_from, links, map_wf, NeighboursSeq,
};
use crate::layout::{groups_ok, in_layout, is_layout_of, is_piece, layout_covers, shape_at, shapes_disjoint, ShapesByColor};
use crate::points::{is_bbox_of, is_full_box, lemma_bbox_unique, lemma_box_is_own_bbox};
use crate::types::{adjacent, BBox, Point};
use crate::uniqueness::{lemma_greedy_split_unique, same_pieces};

verus! {

/// No cell lies in two different rectangles of a well-formed geometry.
pub proof fn lemma_inner_boxes_share_no_cell(g: ComplexGeometry, i: int, j: int, p: Point)
    requires
        g.wf(),
        0 <= i < g@.0.len(),
        0 <= j < g@.0.len(),
        i != j,
    ensures
        !(g@.0[i].has(p) && g@.0[j].has(p)),
{
    assert(crate::pieces::boxes_apart(g@.0[i], g@.0[j]));
}

/// The smallest rectangle around one cell is that cell.
proof fn lemma_bbox_of_single(b: BBox, p: Point)
    requires
        is_bbox_of(b, set![p]),
    ensures
        b.min == p && b.max == p,
{
    let q1 = choose|q: Point| set![p].contains(q) && q.x == b.min.x;
    let q2 = choose|q: Point| set![p].contains(q) && q.x == b.max.x;
    let q3 = choose|q: Point| set![p].contains(q) && q.y == b.min.y;
    let q4 = choose|q: Point| set![p].contains(q) && q.y == b.max.y;
}

/// A rectangle of more than one cell does not cover exactly one cell.
proof fn lemma_box_not_single(b: BBox, p: Point)
    requires
        b.wf(),
        !b.is_point_spec(),
    ensures
        b.cells() != set![p],
{
    if b.cells() == set![p] {
        assert(b.cells().contains(b.min));
        assert(b.cells().contains(b.max));
    }
}

/// A shape the simplifier produces is normalized: no rectangle is a single
/// cell, and no complex geometry is a single cell or fills its outer
/// rectangle.
pub proof fn lemma_classified_is_normalized(c: Set<Point>, s: Shape)
    requires
        classified_as(c, s),
    ensures
        normalized(s),
{
    if let Shape::Complex(g) = s {
        if g.outer().cells().subset_of(g.cells()) {
            if c == Set::<Point>::empty() {
                assert(g.outer().cells().contains(g.outer().min));
            } else {
                assert(g.outer().cells() =~= c);
                assert(is_full_box(c));
            }
        }
    }
}

/// Classifying the cells of a simplified shape again gives the same shape:
/// the same pixel, the same rectangle, or a complex geometry with the same
/// outer rectangle holding the same rectangles and the same single cells
/// (in either order).
pub proof fn lemma_reclassification_is_stable(s: Shape, r: Shape)
    requires
        classified_as(shape_cells(s), s),
        classified_as(shape_cells(s), r),
    ensures
        s is Pixel ==> r == s,
        s is Box ==> r == s,
        s is Complex ==> r is Complex && r->Complex_0.outer() == s->Complex_0.outer() && same_pieces(
            (r->Complex_0@.0, r->Complex_0@.1),
            (s->Complex_0@.0, s->Complex_0@.1),
        ),
{
    let c = shape_cells(s);
    match s {
        Shape::Pixel(p) => {
            match r {
                Shape::Pixel(q) => {
                    assert(set![q].contains(q));
                },
                Shape::Box(b) => {
                    lemma_box_not_single(b, p);
                },
                Shape::Complex(g) => {
                    assert(c.contains(p));
                    lemma_bbox_of_single(g.outer(), p);
                },
            }
        },
        Shape::Box(b) => {
            match r {
                Shape::Pixel(q) => {
                    lemma_box_not_single(b, q);
                },
                Shape::Box(b2) => {
                    lemma_box_is_own_bbox(b);
                    lemma_box_is_own_bbox(b2);
                    lemma_bbox_unique(b, b2, c);
                },
                Shape::Complex(g) => {
                    assert(is_full_box(c));
                },
            }
        },
        Shape::Complex(g) => {
            assert(c != Set::<Point>::empty()) by {
                if c == Set::<Point>::empty() {
                    assert(g.outer() == crate::points::origin_box());
                }
            }
            match r {
                Shape::Pixel(q) => {
                    lemma_bbox_of_single(g.outer(), q);
                },
                Shape::Box(b) => {
                    assert(is_full_box(c));
                },
                Shape::Complex(h) => {
                    lemma_bbox_unique(g.outer(), h.outer(), c);
                    lemma_greedy_split_unique(c, g.outer(), h@.0, h@.1, g@.0, g@.1);
                },
            }
        },
    }
}

/// Every foreground pixel of an image lies in exactly one shape of its
/// layout.
pub proof fn lemma_pixel_in_exactly_one_shape(img: PixelGrid, r: ShapesByColor, p: Point)
    requires
        is_layout_of(img, r),
        img.solid_at(p),
    ensures
        exists|g: int, k: int| in_layout(r, g, k) && #[trigger] shape_cells(shape_at(r, g, k)).contains(p),
        forall|g1: int, k1: int, g2: int, k2: int|
            in_layout(r, g1, k1) && in_layout(r, g2, k2) && #[trigger] shape_cells(shape_at(r, g1, k1)).contains(p)
                && #[trigger] shape_cells(shape_at(r, g2, k2)).contains(p) ==> g1 == g2 && k1 == k2,
{
    assert(layout_covers(r, p));
}

/// Two touching pixels of the same colour lie in the same shape of an
/// image's layout: one connected region never yields two shapes, however its
/// decomposition splits it.
pub proof fn lemma_touching_pixels_share_shape(
    img: PixelGrid,
    r: ShapesByColor,
    g1: int,
    k1: int,
    g2: int,
    k2: int,
    p: Point,
    q: Point,
)
    requires
        is_layout_of(img, r),
        in_layout(r, g1, k1),
        in_layout(r, g2, k2),
        shape_cells(shape_at(r, g1, k1)).contains(p),
        shape_cells(shape_at(r, g2, k2)).contains(q),
        adjacent(p, q),
        img.same_color_at(p, q),
    ensures
        g1 == g2 && k1 == k2,
{
    assert(crate::layout::is_region(img, shape_cells(shape_at(r, g1, k1)), r[g1].0));
    assert(shape_cells(shape_at(r, g1, k1)).contains(q));
}


/// The shape holding the first `n` cells of a listing that grows by links
/// holds them all.
proof fn lemma_listing_in_shape(m: NeighboursSeq, c: Set<Point>, o: Seq<Point>, n: int)
    requires
        forall|p: Point, q: Point| c.contains(p) && #[trigger] links(m, p, q) && has_key(m, q) ==> c.contains(q),
        0 < o.len(),
        c.contains(o[0]),
        grows_by_links(m, o),
        forall|i: int| 0 <= i < o.len() ==> has_key(m, #[trigger] o[i]),
        0 <= n <= o.len(),
    ensures
        forall|i: int| 0 <= i < n ==> c.contains(#[trigger] o[i]),
    decreases n,
{
    if n > 0 {
        lemma_listing_in_shape(m, c, o, n - 1);
        let i = n - 1;
        if i > 0 {
            assert(linked_from(m, o, i, o[i]));
            let j = choose|j: int| 0 <= j < i && #[trigger] links(m, o[j], o[i]);
            assert(c.contains(o[j]));
            assert(has_key(m, o[i]));
        }
    }
}

/// A neighbour map whose keys form one connected piece yields exactly one
/// shape, the most compact shape for all of its keys: however the
/// decomposition splits that piece, it never becomes two top-level shapes.
pub proof fn lemma_one_piece_one_shape(m: NeighboursSeq, r: ShapesByColor, o: Seq<Point>)
    requires
        map_wf(m),
        groups_ok(r),
        forall|g: int, k: int|
            #![trigger shape_at(r, g, k)]
            in_layout(r, g, k) ==> classified_as(shape_cells(shape_at(r, g, k)), shape_at(r, g, k))
                && is_piece(m, shape_cells(shape_at(r, g, k)), r[g].0),
        shapes_disjoint(r),
        forall|p: Point| has_key(m, p) <==> layout_covers(r, p),
        0 < o.len(),
        grows_by_links(m, o),
        forall|p: Point| has_key(m, p) <==> o.contains(p),
    ensures
        r.len() == 1,
        r[0].1@.len() == 1,
        classified_as(o.to_set(), r[0].1@[0]),
{
    assert(o.contains(o[0]));
    assert(layout_covers(r, o[0]));
    let (g0, k0) = choose|g: int, k: int| in_layout(r, g, k) && #[trigger] shape_cells(shape_at(r, g, k)).contains(o[0]);
    let c = shape_cells(shape_at(r, g0, k0));
    assert(is_piece(m, c, r[g0].0));
    let w = choose|w: Seq<Point>| #[trigger] w.to_set() == c && component_ok(m, w) && crate::components::key_color(m, w[0], r[g0].0);
    assert forall|p: Point, q: Point| c.contains(p) && #[trigger] links(m, p, q) && has_key(m, q) implies c.contains(q) by {
        assert(w.to_set().contains(p));
        assert(w.contains(p));
        assert(w.contains(q));
        assert(w.to_set().contains(q));
    }
    assert forall|i: int| 0 <= i < o.len() implies has_key(m, #[trigger] o[i]) by {
        assert(o.contains(o[i]));
    }
    lemma_listing_in_shape(m, c, o, o.len() as int);
    assert(c =~= o.to_set()) by {
        assert forall|p: Point| c.contains(p) implies o.to_set().contains(p) by {
            assert(layout_covers(r, p));
            assert(has_key(m, p));
        }
        assert forall|p: Point| o.to_set().contains(p) implies c.contains(p) by {
            let i = choose|i: int| 0 <= i < o.len() && o[i] == p;
        }
    }
    // any other shape would share a cell with this one
    assert forall|g: int, k: int| in_layout(r, g, k) implies g == g0 && k == k0 by {
        let s = shape_at(r, g, k);
        assert(is_piece(m, shape_cells(s), r[g].0));
        let w2 = choose|w2: Seq<Point>| #[trigger] w2.to_set() == shape_cells(s) && component_ok(m, w2) && crate::components::key_color(m, w2[0], r[g].0);
        assert(w2.to_set().contains(w2[0]));
        let p = w2[0];
        assert(shape_cells(s).contains(p));
        assert(layout_covers(r, p));
        assert(has_key(m, p));
        assert(o.contains(p));
        assert(o.to_set().contains(p));
        assert(c.contains(p));
        if g != g0 || k != k0 {
            assert(shape_cells(shape_at(r, g0, k0)).contains(p));
            assert(shape_cells(shape_at(r, g, k)).contains(p));
        }
    }
    assert(r.len() == 1) by {
        if r.len() > 1 {
            let g = if g0 == 0 { 1int } else { 0int };
            assert(r[g].1@.len() > 0);
            assert(in_layout(r, g, 0));
        }
    }
    assert(r[0].1@.len() == 1) by {
        if r[0].1@.len() > 1 {
            let k = if k0 == 0 { 1int } else { 0int };
            assert(in_layout(r, 0, k));
        }
    }
}


/// Rebuilding a neighbour map from the cells of a simplified shape and
/// laying it out again gives one shape, the same as the first: the same
/// pixel, the same rectangle, or a complex geometry with the same outer
/// rectangle, rectangles and single cells.
pub proof fn lemma_layout_of_shape_cells_is_stable(s: Shape, m: NeighboursSeq, r: ShapesByColor, o: Seq<Point>)
    requires
        classified_as(shape_cells(s), s),
        map_wf(m),
        groups_ok(r),
        forall|g: int, k: int|
            #![trigger shape_at(r, g, k)]
            in_layout(r, g, k) ==> classified_as(shape_cells(shape_at(r, g, k)), shape_at(r, g, k))
                && is_piece(m, shape_cells(shape_at(r, g, k)), r[g].0),
        shapes_disjoint(r),
        forall|p: Point| has_key(m, p) <==> layout_covers(r, p),
        0 < o.len(),
        grows_by_links(m, o),
        forall|p: Point| has_key(m, p) <==> o.contains(p),
        o.to_set() == shape_cells(s),
    ensures
        r.len() == 1,
        r[0].1@.len() == 1,
        s is Pixel ==> r[0].1@[0] == s,
        s is Box ==> r[0].1@[0] == s,
        s is Complex ==> r[0].1@[0] is Complex && r[0].1@[0]->Complex_0.outer() == s->Complex_0.outer()
            && same_pieces(
            (r[0].1@[0]->Complex_0@.0, r[0].1@[0]->Complex_0@.1),
            (s->Complex_0@.0, s->Complex_0@.1),
        ),
{
    lemma_one_piece_one_shape(m, r, o);
    lemma_reclassification_is_stable(s, r[0].1@[0]);
}

} // verus!
