//! Shapes and the decomposition of a region into rectangles and single
//! cells, with the rule it follows.
use vstd::prelude::*;

use crate::band::{band_boxes, is_band_split, is_tallest_run, lemma_band_box_inside, tallest_run};
use crate::components::{
    component_ok, extract_components, has_key, linked_from, links, neighbours_map_of_points, NeighboursSeq,
};
use crate::pieces::{
    covered, in_some_box, lemma_contains_concat, lemma_merge_pieces, lemma_no_pieces,
    lemma_single_box, lemma_single_point, pieces_ok,
};
use crate::points::{
    are_points_is_bbox, calc_bbox_by_points, contains_point, is_bbox_of, is_full_box, origin_box,
};
use crate::types::{adjacent, BBox, Color, Point};

verus! {

/// Copies a list of cells.
fn copy_points(v: &Vec<Point>) -> (r: Vec<Point>)
    ensures
        r@ == v@,
{
    let mut r: Vec<Point> = Vec::new();
    let mut i: usize = 0;
    while i < v.len()
        invariant
            0 <= i <= v@.len(),
            r@ == v@.subrange(0, i as int),
        decreases v@.len() - i,
    {
        r.push(v[i]);
        i = i + 1;
        assert(r@ =~= v@.subrange(0, i as int));
    }
    assert(r@ =~= v@);
    r
}

/// Copies a list of rectangles.
fn copy_boxes(v: &Vec<BBox>) -> (r: Vec<BBox>)
    ensures
        r@ == v@,
{
    let mut r: Vec<BBox> = Vec::new();
    let mut i: usize = 0;
    while i < v.len()
        invariant
            0 <= i <= v@.len(),
            r@ == v@.subrange(0, i as int),
        decreases v@.len() - i,
    {
        r.push(v[i]);
        i = i + 1;
        assert(r@ =~= v@.subrange(0, i as int));
    }
    assert(r@ =~= v@);
    r
}

/// The rectangles and single cells that a region is split into.
#[derive(Clone, Debug)]
pub struct SplittedComplexGeometry {
    bboxes: Vec<BBox>,
    points: Vec<Point>,
}

impl View for SplittedComplexGeometry {
    type V = (Seq<BBox>, Seq<Point>);

    closed spec fn view(&self) -> (Seq<BBox>, Seq<Point>) {
        (self.bboxes@, self.points@)
    }
}

/// The cells of `s` that no rectangle of `bs` covers.
pub open spec fn rest_of(s: Set<Point>, bs: Seq<BBox>) -> Set<Point> {
    Set::new(|p: Point| s.contains(p) && !in_some_box(bs, p))
}

/// `o[k]` touches one of the cells before it.
pub open spec fn touches_earlier(o: Seq<Point>, k: int) -> bool {
    exists|j: int| 0 <= j < k && adjacent(o[j], o[k])
}

/// The cells can be listed so that each touches an earlier one.
pub open spec fn cells_connected(c: Set<Point>) -> bool {
    exists|o: Seq<Point>|
        #[trigger] o.to_set() == c && forall|k: int| 1 <= k < o.len() ==> #[trigger] touches_earlier(o, k)
}

/// `cs` lists the connected pieces of `s`: each non-empty, connected, and
/// holding every cell of `s` that touches it; no two share a cell; together
/// they hold `s`.
pub open spec fn is_component_list(s: Set<Point>, cs: Seq<Set<Point>>) -> bool {
    &&& forall|k: int|
        0 <= k < cs.len() ==> (#[trigger] cs[k]) != Set::<Point>::empty() && cs[k].subset_of(s)
            && cells_connected(cs[k])
    &&& forall|k: int, p: Point, q: Point|
        0 <= k < cs.len() && #[trigger] cs[k].contains(p) && #[trigger] s.contains(q) && adjacent(p, q)
            ==> cs[k].contains(q)
    &&& forall|k1: int, k2: int|
        0 <= k1 < cs.len() && 0 <= k2 < cs.len() && k1 != k2 ==> (#[trigger] cs[k1]).disjoint(#[trigger] cs[k2])
    &&& forall|p: Point| s.contains(p) ==> exists|k: int| 0 <= k < cs.len() && #[trigger] cs[k].contains(p)
}

/// The pieces that the band rectangles give: the rectangles of more than
/// one cell, and the cells of the others, in order.
pub open spec fn band_pieces(rs: Seq<BBox>) -> (Seq<BBox>, Seq<Point>)
    decreases rs.len(),
{
    if rs.len() == 0 {
        (Seq::empty(), Seq::empty())
    } else {
        let prev = band_pieces(rs.drop_last());
        let r = rs.last();
        if r.is_point_spec() {
            (prev.0, prev.1.push(r.min))
        } else {
            (prev.0.push(r), prev.1)
        }
    }
}

/// The pieces of several parts, one part after the other.
pub open spec fn joined_pieces(parts: Seq<(Seq<BBox>, Seq<Point>)>) -> (Seq<BBox>, Seq<Point>)
    decreases parts.len(),
{
    if parts.len() == 0 {
        (Seq::empty(), Seq::empty())
    } else {
        let prev = joined_pieces(parts.drop_last());
        (prev.0 + parts.last().0, prev.1 + parts.last().1)
    }
}

/// `(bs, ps)` is what the decomposition rule makes of `s` inside `outer`:
/// the band pieces at the rows of the tallest run, then, for each connected
/// piece of what the band rectangles leave (taken in some order), its own
/// pieces.
pub open spec fn greedy_split(s: Set<Point>, outer: BBox, bs: Seq<BBox>, ps: Seq<Point>) -> bool
    decreases s.len(), 0nat,
{
    if s.len() == 0 {
        bs.len() == 0 && ps.len() == 0
    } else {
        exists|
            x: usize,
            a: usize,
            b: usize,
            rs: Seq<BBox>,
            cs: Seq<Set<Point>>,
            parts: Seq<(Seq<BBox>, Seq<Point>)>,
        |
            #![trigger is_tallest_run(s, outer, x, a, b), is_band_split(s, outer, a, b, rs), is_component_list(rest_of(s, rs), cs), joined_pieces(parts)]
            is_tallest_run(s, outer, x, a, b) && is_band_split(s, outer, a, b, rs) && is_component_list(
                rest_of(s, rs),
                cs,
            ) && parts.len() == cs.len() && bs == band_pieces(rs).0 + joined_pieces(parts).0 && ps
                == band_pieces(rs).1 + joined_pieces(parts).1 && forall|k: int|
                #![trigger cs[k]]
                0 <= k < cs.len() ==> cs[k].len() < s.len() && part_of(cs[k], parts[k])
    }
}

/// The pieces that one connected piece `c` gives: its one cell, its filled
/// rectangle, or its own decomposition inside its outer rectangle.
pub open spec fn part_of(c: Set<Point>, part: (Seq<BBox>, Seq<Point>)) -> bool
    decreases c.len(), 1nat,
{
    if c.len() == 1 {
        exists|p: Point| c == set![p] && part == (Seq::<BBox>::empty(), seq![p])
    } else if is_full_box(c) {
        exists|b: BBox| b.wf() && b.cells() == c && part == (seq![b], Seq::<Point>::empty())
    } else {
        exists|b: BBox| is_bbox_of(b, c) && greedy_split(c, b, part.0, part.1)
    }
}

/// A connected piece of the neighbour map of `rest` is a connected set of
/// cells of `rest` holding every cell of `rest` that touches it.
proof fn lemma_piece_of_rest(m: NeighboursSeq, rest: Seq<Point>, comp: Seq<Point>)
    requires
        m.len() == rest.len(),
        forall|i: int| 0 <= i < m.len() ==> (#[trigger] m[i]).0 == rest[i],
        forall|i: int, q: Point|
            0 <= i < m.len() ==> (#[trigger] m[i].2@.contains(q) <==> (rest.contains(q) && adjacent(
                m[i].0,
                q,
            ))),
        component_ok(m, comp),
    ensures
        comp.to_set() != Set::<Point>::empty(),
        comp.to_set().subset_of(rest.to_set()),
        cells_connected(comp.to_set()),
        forall|p: Point, q: Point|
            comp.to_set().contains(p) && rest.contains(q) && adjacent(p, q) ==> comp.to_set().contains(q),
{
    assert(comp.to_set().contains(comp[0]));
    assert forall|q: Point| comp.to_set().contains(q) implies rest.to_set().contains(q) by {
        let t = choose|t: int| 0 <= t < comp.len() && comp[t] == q;
        assert(has_key(m, comp[t]));
        let i = choose|i: int| 0 <= i < m.len() && m[i].0 == q;
        assert(rest[i] == q);
    }
    assert forall|k: int| 1 <= k < comp.len() implies #[trigger] touches_earlier(comp, k) by {
        assert(linked_from(m, comp, k, comp[k]));
        let j = choose|j: int| 0 <= j < k && #[trigger] links(m, comp[j], comp[k]);
        let i = choose|i: int| 0 <= i < m.len() && m[i].0 == comp[j] && m[i].2@.contains(comp[k]);
        assert(adjacent(comp[j], comp[k]));
    }
    assert forall|p: Point, q: Point|
        comp.to_set().contains(p) && rest.contains(q) && adjacent(p, q) implies comp.to_set().contains(q) by {
        let t = choose|t: int| 0 <= t < comp.len() && comp[t] == p;
        assert(has_key(m, comp[t]));
        let i = choose|i: int| 0 <= i < m.len() && m[i].0 == p;
        assert(m[i].2@.contains(q));
        assert(links(m, p, q));
        let u = choose|u: int| 0 <= u < rest.len() && rest[u] == q;
        assert(m[u].0 == q);
        assert(has_key(m, q));
        assert(comp.contains(p));
    }
}

/// A well-formed complex geometry: its pieces decompose its cells, and its
/// outer rectangle is the smallest one around them.
pub open spec fn geometry_wf(v: (Seq<BBox>, Seq<Point>, BBox)) -> bool {
    &&& pieces_ok(v.0, v.1)
    &&& covered(v.0, v.1) != Set::<Point>::empty() ==> is_bbox_of(v.2, covered(v.0, v.1))
    &&& covered(v.0, v.1) == Set::<Point>::empty() ==> v.2 == origin_box()
}

/// A region with its outer rectangle and its decomposition.
#[derive(Clone, Debug)]
pub struct ComplexGeometry {
    bboxes: Vec<BBox>,
    points: Vec<Point>,
    outer_bbox: BBox,
}

impl View for ComplexGeometry {
    type V = (Seq<BBox>, Seq<Point>, BBox);

    closed spec fn view(&self) -> (Seq<BBox>, Seq<Point>, BBox) {
        (self.bboxes@, self.points@, self.outer_bbox)
    }
}

impl ComplexGeometry {
    pub open spec fn cells(&self) -> Set<Point> {
        covered(self@.0, self@.1)
    }

    pub open spec fn outer(&self) -> BBox {
        self@.2
    }

    pub open spec fn wf(&self) -> bool {
        geometry_wf(self@)
    }
}

/// A shape: one cell, a filled rectangle, or anything else.
#[derive(Clone, Debug)]
pub enum Shape {
    Pixel(Point),
    Box(BBox),
    Complex(ComplexGeometry),
}

/// The cells a shape covers.
pub open spec fn shape_cells(s: Shape) -> Set<Point> {
    match s {
        Shape::Pixel(p) => set![p],
        Shape::Box(b) => b.cells(),
        Shape::Complex(g) => g.cells(),
    }
}

/// `s` is the most compact shape for the cells `c`: a pixel for one cell, a
/// rectangle (of more than one cell) for cells that fill one, and otherwise
/// a complex geometry of those cells that is neither.
pub open spec fn classified_as(c: Set<Point>, s: Shape) -> bool {
    match s {
        Shape::Pixel(p) => c == set![p],
        Shape::Box(b) => b.wf() && !b.is_point_spec() && b.cells() == c,
        Shape::Complex(g) => g.wf() && g.cells() == c && !g.outer().is_point_spec() && !is_full_box(c)
            && greedy_split(c, g.outer(), g@.0, g@.1),
    }
}

/// No rectangle is a single cell, and no complex geometry is a single cell or
/// fills its outer rectangle.
pub open spec fn normalized(s: Shape) -> bool {
    match s {
        Shape::Pixel(_) => true,
        Shape::Box(b) => !b.is_point_spec(),
        Shape::Complex(g) => !g.outer().is_point_spec() && !g.outer().cells().subset_of(g.cells()),
    }
}

/// The pieces that a classified shape adds to a decomposition.
pub open spec fn shape_pieces(s: Shape) -> (Seq<BBox>, Seq<Point>) {
    match s {
        Shape::Pixel(p) => (Seq::empty(), seq![p]),
        Shape::Box(b) => (seq![b], Seq::empty()),
        Shape::Complex(g) => (g@.0, g@.1),
    }
}

/// A classified shape covers exactly the cells it was classified for.
pub proof fn lemma_shape_cells_of_classified(c: Set<Point>, s: Shape)
    requires
        classified_as(c, s),
    ensures
        shape_cells(s) == c,
{
}

proof fn lemma_shape_pieces(c: Set<Point>, s: Shape)
    requires
        classified_as(c, s),
    ensures
        pieces_ok(shape_pieces(s).0, shape_pieces(s).1),
        covered(shape_pieces(s).0, shape_pieces(s).1) == c,
        shape_cells(s) == c,
{
    match s {
        Shape::Pixel(p) => {
            lemma_single_point(p);
        },
        Shape::Box(b) => {
            lemma_single_box(b);
        },
        Shape::Complex(g) => {},
    }
}


/// Whether some rectangle of `bboxes` covers `p`.
fn in_any_box(bboxes: &Vec<BBox>, p: &Point) -> (r: bool)
    ensures
        r == in_some_box(bboxes@, *p),
{
    let mut i: usize = 0;
    while i < bboxes.len()
        invariant
            0 <= i <= bboxes@.len(),
            forall|k: int| 0 <= k < i ==> !(#[trigger] bboxes@[k]).has(*p),
        decreases bboxes@.len() - i,
    {
        if bboxes[i].contains(p) {
            return true;
        }
        i = i + 1;
    }
    false
}

/// A connected piece that a shape was classified for gives that shape's
/// pieces by the decomposition rule.
proof fn lemma_classified_part(c: Set<Point>, sh: Shape)
    requires
        c.finite(),
        classified_as(c, sh),
    ensures
        part_of(c, shape_pieces(sh)),
{
    match sh {
        Shape::Pixel(p) => {
            assert(c.len() == 1);
        },
        Shape::Box(b) => {
            assert(b.cells().contains(b.min) && b.cells().contains(b.max));
            lemma_two_cells(c, b.min, b.max);
            assert(is_full_box(c));
        },
        Shape::Complex(g) => {
            let o = g.outer();
            assert(c != Set::<Point>::empty()) by {
                if c == Set::<Point>::empty() {
                    assert(g.cells() == Set::<Point>::empty());
                }
            }
            assert(is_bbox_of(o, c));
            let p1 = choose|p: Point| c.contains(p) && p.x == o.min.x;
            let p2 = choose|p: Point| c.contains(p) && p.x == o.max.x;
            let p3 = choose|p: Point| c.contains(p) && p.y == o.min.y;
            let p4 = choose|p: Point| c.contains(p) && p.y == o.max.y;
            if o.min.x != o.max.x {
                lemma_two_cells(c, p1, p2);
            } else {
                assert(o.min.y != o.max.y);
                lemma_two_cells(c, p3, p4);
            }
        },
    }
}

/// A finite set holding two distinct cells has more than one element.
proof fn lemma_two_cells(c: Set<Point>, p: Point, q: Point)
    requires
        c.finite(),
        c.contains(p),
        c.contains(q),
        p != q,
    ensures
        c.len() > 1,
{
    let two = set![p, q];
    assert(two.subset_of(c));
    vstd::set_lib::lemma_len_subset(two, c);
    assert(two.len() == 2) by {
        assert(set![p].len() == 1);
        assert(!set![p].contains(q));
    }
}

/// The first step taken, and each connected piece of the rest classified,
/// give the decomposition rule's pieces.
proof fn lemma_first_step_gives_greedy(
    s: Set<Point>,
    outer: BBox,
    x: usize,
    a: usize,
    b: usize,
    rs: Seq<BBox>,
    cs: Seq<Set<Point>>,
    parts: Seq<(Seq<BBox>, Seq<Point>)>,
    bs: Seq<BBox>,
    ps: Seq<Point>,
)
    requires
        s.finite(),
        s != Set::<Point>::empty(),
        is_tallest_run(s, outer, x, a, b),
        is_band_split(s, outer, a, b, rs),
        is_component_list(rest_of(s, rs), cs),
        parts.len() == cs.len(),
        forall|j: int| 0 <= j < cs.len() ==> #[trigger] part_of(cs[j], parts[j]),
        bs == band_pieces(rs).0 + joined_pieces(parts).0,
        ps == band_pieces(rs).1 + joined_pieces(parts).1,
    ensures
        greedy_split(s, outer, bs, ps),
{
    let rest = rest_of(s, rs);
    // some band cell is missing from the rest
    assert(crate::band::is_run(s, outer, x, a, b));
    let i = choose|i: int| 0 <= i < rs.len() && #[trigger] rs[i].min.x <= x <= rs[i].max.x;
    let w = Point { x, y: a };
    assert(crate::band::is_band_box(s, outer, a, b, rs[i]));
    assert(rs[i].has(w));
    assert(s.contains(w));
    assert(rest.subset_of(s.remove(w)));
    vstd::set_lib::lemma_len_subset(rest, s.remove(w));
    assert forall|k: int| 0 <= k < cs.len() implies (#[trigger] cs[k]).len() < s.len() by {
        assert(cs[k].subset_of(rest));
        vstd::set_lib::lemma_len_subset(cs[k], rest);
    }
    assert(s.len() != 0) by {
        if s.len() == 0 {
            assert(s.contains(w));
        }
    }
    assert forall|k: int|
        #![trigger cs[k]]
        0 <= k < cs.len() implies cs[k].len() < s.len() && part_of(cs[k], parts[k]) by {
        assert(part_of(cs[k], parts[k]));
    }
}

/// The cells of `points` that no rectangle of `bboxes` covers, in order.
fn points_outside(points: &Vec<Point>, bboxes: &Vec<BBox>) -> (rest: Vec<Point>)
    requires
        points@.no_duplicates(),
    ensures
        rest@.no_duplicates(),
        rest@.to_set() == rest_of(points@.to_set(), bboxes@),
        rest@.len() == rest_of(points@.to_set(), bboxes@).len(),
        rest_of(points@.to_set(), bboxes@).finite(),
        forall|q: Point|
            rest@.contains(q) <==> exists|j: int|
                0 <= j < points@.len() && #[trigger] points@[j] == q && !in_some_box(bboxes@, q),
{
        let ghost bs = bboxes@;
        let mut rest: Vec<Point> = Vec::new();
        let mut i: usize = 0;
        while i < points.len()
            invariant
                0 <= i <= points@.len(),
                bs == bboxes@,
                points@.no_duplicates(),
                rest@.no_duplicates(),
                forall|q: Point|
                    rest@.contains(q) <==> exists|j: int|
                        0 <= j < i && #[trigger] points@[j] == q && !in_some_box(bs, q),
            decreases points@.len() - i,
        {
            let p = points[i];
            if !in_any_box(bboxes, &p) {
                let ghost rest0 = rest@;
                rest.push(p);
                proof {
                    assert forall|q: Point|
                        rest@.contains(q) <==> exists|j: int|
                            0 <= j < i + 1 && #[trigger] points@[j] == q && !in_some_box(bs, q) by {
                        assert(rest@ =~= rest0 + seq![p]);
                        lemma_contains_concat(rest0, seq![p], q);
                        if q == p {
                            assert(points@[i as int] == q);
                            assert(seq![p][0] == q);
                        }
                    }
                    assert forall|a: int, b: int|
                        0 <= a < rest@.len() && 0 <= b < rest@.len() && a != b implies rest@[a] != rest@[b] by {
                        if a == rest0.len() || b == rest0.len() {
                            let o = if a == rest0.len() {
                                b
                            } else {
                                a
                            };
                            if rest@[o] == p {
                                assert(rest0.contains(p));
                                let j = choose|j: int|
                                    0 <= j < i && #[trigger] points@[j] == p && !in_some_box(bs, p);
                                assert(points@[i as int] == p);
                            }
                        }
                    }
                }
            } else {
                proof {
                    assert forall|q: Point|
                        rest@.contains(q) <==> exists|j: int|
                            0 <= j < i + 1 && #[trigger] points@[j] == q && !in_some_box(bs, q) by {
                        if q == p {
                            assert(in_some_box(bs, q));
                        }
                    }
                }
            }
            i = i + 1;
        }
        let ghost rest_set = rest@.to_set();
        proof {
            assert forall|q: Point| rest_set.contains(q) <==> rest_of(points@.to_set(), bs).contains(q) by {
                if rest_of(points@.to_set(), bs).contains(q) {
                    let j = choose|j: int| 0 <= j < points@.len() && points@[j] == q;
                }
                if rest_set.contains(q) {
                    let j = choose|j: int| 0 <= j < points@.len() && #[trigger] points@[j] == q && !in_some_box(bs, q);
                    assert(points@.contains(q));
                }
            }
            assert(rest_set =~= rest_of(points@.to_set(), bs));
            rest@.unique_seq_to_set();
            vstd::seq_lib::seq_to_set_is_finite(rest@);
        }
        rest
}

/// What the split of the rest into shapes gives, from the facts about the
/// rest, its neighbour map, its connected pieces and their shapes.
proof fn lemma_split_facts(
    points: Seq<Point>,
    bs: Seq<BBox>,
    rest: Seq<Point>,
    m: NeighboursSeq,
    comps: Seq<(Color, Vec<Point>)>,
    shapes: Seq<Shape>,
)
    requires
        points.no_duplicates(),
        rest.no_duplicates(),
        forall|q: Point|
            rest.contains(q) <==> exists|j: int| 0 <= j < points.len() && #[trigger] points[j] == q && !in_some_box(bs, q),
        m.len() == rest.len(),
        forall|i: int| 0 <= i < m.len() ==> (#[trigger] m[i]).0 == rest[i],
        forall|i: int, q: Point|
            0 <= i < m.len() ==> (#[trigger] m[i].2@.contains(q) <==> (rest.contains(q) && adjacent(m[i].0, q))),
        forall|c: int| 0 <= c < comps.len() ==> component_ok(m, #[trigger] comps[c].1@),
        forall|c1: int, c2: int, p: Point|
            0 <= c1 < comps.len() && 0 <= c2 < comps.len() && c1 != c2 && #[trigger] comps[c1].1@.contains(p)
                ==> !#[trigger] comps[c2].1@.contains(p),
        forall|p: Point| has_key(m, p) <==> exists|c: int| 0 <= c < comps.len() && #[trigger] comps[c].1@.contains(p),
        shapes.len() == comps.len(),
        forall|j: int| 0 <= j < shapes.len() ==> classified_as(comps[j].1@.to_set(), #[trigger] shapes[j]),
    ensures
        forall|k: int| 0 <= k < shapes.len() ==> classified_as(shape_cells(#[trigger] shapes[k]), shapes[k]),
        forall|k1: int, k2: int, p: Point|
            0 <= k1 < shapes.len() && 0 <= k2 < shapes.len() && k1 != k2
                && #[trigger] shape_cells(shapes[k1]).contains(p) ==> !#[trigger] shape_cells(shapes[k2]).contains(p),
        forall|p: Point|
            (points.contains(p) && !in_some_box(bs, p)) <==> exists|k: int|
                0 <= k < shapes.len() && #[trigger] shape_cells(shapes[k]).contains(p),
        is_component_list(rest_of(points.to_set(), bs), Seq::new(shapes.len(), |k: int| shape_cells(shapes[k]))),
        shapes.len() == 0 <==> rest_of(points.to_set(), bs) == Set::<Point>::empty(),
{
    {
        assert forall|j: int| 0 <= j < shapes.len() implies shape_cells(#[trigger] shapes[j])
            == comps[j].1@.to_set() && classified_as(shape_cells(shapes[j]), shapes[j]) by {
            lemma_shape_pieces(comps[j].1@.to_set(), shapes[j]);
        }
        assert forall|k1: int, k2: int, p: Point|
            0 <= k1 < shapes.len() && 0 <= k2 < shapes.len() && k1 != k2
                && #[trigger] shape_cells(shapes[k1]).contains(p) implies !#[trigger] shape_cells(
                shapes[k2],
            ).contains(p) by {
            assert(comps[k1].1@.contains(p));
            if shape_cells(shapes[k2]).contains(p) {
                assert(comps[k2].1@.contains(p));
            }
        }
        assert forall|p: Point|
            (points.contains(p) && !in_some_box(bs, p)) <==> exists|j: int|
                0 <= j < shapes.len() && #[trigger] shape_cells(shapes[j]).contains(p) by {
            if points.contains(p) && !in_some_box(bs, p) {
                let j = choose|j: int| 0 <= j < points.len() && points[j] == p;
                assert(rest.contains(p));
                let t = choose|t: int| 0 <= t < rest.len() && rest[t] == p;
                assert(m[t].0 == p);
                assert(crate::components::has_key(m, p));
                let c = choose|c: int| 0 <= c < comps.len() && #[trigger] comps[c].1@.contains(p);
                assert(shape_cells(shapes[c]).contains(p));
            }
            if exists|j: int| 0 <= j < shapes.len() && #[trigger] shape_cells(shapes[j]).contains(p) {
                let j = choose|j: int| 0 <= j < shapes.len() && #[trigger] shape_cells(shapes[j]).contains(p);
                assert(comps[j].1@.to_set().contains(p));
                assert(crate::components::has_key(m, p));
                let mi = choose|mi: int| 0 <= mi < m.len() && m[mi].0 == p;
                assert(rest[mi] == p);
                assert(rest.contains(p));
                let w = choose|w: int| 0 <= w < points.len() && #[trigger] points[w] == p && !in_some_box(bs, p);
                assert(points.contains(p));
            }
        }
    }
    {
        let cs = Seq::new(shapes.len(), |k: int| shape_cells(shapes[k]));
        let rs_set = rest_of(points.to_set(), bs);
        assert forall|q: Point| rest.contains(q) <==> rs_set.contains(q) by {
            if rs_set.contains(q) {
                let j = choose|j: int| 0 <= j < points.len() && points[j] == q;
            }
            if rest.contains(q) {
                let w = choose|w: int| 0 <= w < points.len() && #[trigger] points[w] == q && !in_some_box(bs, q);
                assert(points.contains(q));
            }
        }
        assert forall|k: int| 0 <= k < cs.len() implies (#[trigger] cs[k]) != Set::<Point>::empty()
            && cs[k].subset_of(rs_set) && cells_connected(cs[k]) && (forall|p: Point, q: Point|
            cs[k].contains(p) && rs_set.contains(q) && adjacent(p, q) ==> cs[k].contains(q)) by {
            let comp = comps[k].1@;
            assert(shape_cells(shapes[k]) == comp.to_set());
            lemma_piece_of_rest(m, rest, comp);
            assert forall|q: Point| comp.to_set().contains(q) implies rs_set.contains(q) by {
                assert(rest.to_set().contains(q));
            }
        }
        assert forall|k: int, p: Point, q: Point|
            0 <= k < cs.len() && #[trigger] cs[k].contains(p) && #[trigger] rs_set.contains(q) && adjacent(p, q)
                implies cs[k].contains(q) by {
            assert(cs[k] == cs[k]);
        }
        assert forall|k1: int, k2: int|
            0 <= k1 < cs.len() && 0 <= k2 < cs.len() && k1 != k2 implies (#[trigger] cs[k1]).disjoint(#[trigger] cs[k2]) by {
            assert forall|p: Point| cs[k1].contains(p) implies !cs[k2].contains(p) by {
                assert(shape_cells(shapes[k1]).contains(p));
            }
        }
        assert forall|p: Point| rs_set.contains(p) implies exists|k: int| 0 <= k < cs.len() && #[trigger] cs[k].contains(p) by {
            assert(points.contains(p) && !in_some_box(bs, p)) by {
                let j = choose|j: int| 0 <= j < points.len() && points[j] == p;
            }
            let k = choose|k: int| 0 <= k < shapes.len() && #[trigger] shape_cells(shapes[k]).contains(p);
            assert(cs[k].contains(p));
        }
    }
    {
        let rs_set = rest_of(points.to_set(), bs);
        if rs_set != Set::<Point>::empty() {
            assert(exists|p: Point| rs_set.contains(p)) by {
                if !(exists|p: Point| rs_set.contains(p)) {
                    assert(rs_set =~= Set::<Point>::empty());
                }
            }
            let p = choose|p: Point| rs_set.contains(p);
            assert(points.contains(p) && !in_some_box(bs, p)) by {
                let j = choose|j: int| 0 <= j < points.len() && points[j] == p;
            }
        }
        if shapes.len() > 0 {
            let cs = Seq::new(shapes.len(), |k: int| shape_cells(shapes[k]));
            assert(cs[0] != Set::<Point>::empty());
            assert(exists|p: Point| cs[0].contains(p)) by {
                if !(exists|p: Point| cs[0].contains(p)) {
                    assert(cs[0] =~= Set::<Point>::empty());
                }
            }
            let p = choose|p: Point| cs[0].contains(p);
            assert(rs_set.contains(p));
        }
    }
}

impl SplittedComplexGeometry {
    /// Decomposes `points` (all inside `outer_bbox`): first the widest
    /// rectangles at the rows of the tallest vertical run, then, one
    /// connected piece at a time, whatever those rectangles leave.
    pub fn new(points: &Vec<Point>, outer_bbox: &BBox) -> (r: SplittedComplexGeometry)
        requires
            points@.no_duplicates(),
            outer_bbox.wf(),
            forall|k: int| 0 <= k < points@.len() ==> outer_bbox.has(#[trigger] points@[k]),
        ensures
            pieces_ok(r@.0, r@.1),
            covered(r@.0, r@.1) == points@.to_set(),
            greedy_split(points@.to_set(), *outer_bbox, r@.0, r@.1),
        decreases points@.len(), 1nat,
    {
        let ghost s = points@.to_set();
        let mut obj = SplittedComplexGeometry { bboxes: Vec::new(), points: Vec::new() };
        proof {
            lemma_no_pieces();
            points@.unique_seq_to_set();
        }
        if points.len() == 0 {
            assert(s =~= Set::<Point>::empty());
            return obj;
        }
        proof {
            assert(points@.contains(points@[0]) && outer_bbox.has(points@[0]));
        }
        let (x, a, b) = tallest_run(points, outer_bbox);
        let rs = band_boxes(points, outer_bbox, a, b);
        let mut i: usize = 0;
        while i < rs.len()
            invariant
                0 <= i <= rs@.len(),
                s == points@.to_set(),
                outer_bbox.wf(),
                is_tallest_run(s, *outer_bbox, x, a, b),
                is_band_split(s, *outer_bbox, a, b, rs@),
                pieces_ok(obj@.0, obj@.1),
                forall|p: Point|
                    covered(obj@.0, obj@.1).contains(p) <==> exists|k: int|
                        0 <= k < i && #[trigger] rs@[k].has(p),
                obj@ == band_pieces(rs@.subrange(0, i as int)),
            decreases rs@.len() - i,
        {
            let r = rs[i];
            let ghost bs0 = obj@.0;
            let ghost ps0 = obj@.1;
            proof {
                assert(crate::band::is_band_box(s, *outer_bbox, a, b, rs@[i as int]));
                lemma_band_box_inside(s, *outer_bbox, a, b, r);
                assert forall|p: Point| covered(bs0, ps0).contains(p) implies !r.has(p) by {
                    let k = choose|k: int| 0 <= k < i && #[trigger] rs@[k].has(p);
                    assert(rs@[k].max.x < rs@[i as int].min.x);
                }
                assert(rs@.subrange(0, i + 1).drop_last() =~= rs@.subrange(0, i as int));
                assert(rs@.subrange(0, i + 1).last() == r);
            }
            if r.is_point() {
                obj.points.push(r.min);
                proof {
                    lemma_single_point(r.min);
                    assert(r.cells() =~= set![r.min]);
                    assert(covered(bs0, ps0).disjoint(set![r.min]));
                    lemma_merge_pieces(bs0, ps0, Seq::empty(), seq![r.min]);
                    assert(bs0 + Seq::<BBox>::empty() =~= bs0);
                    assert(obj@.1 =~= ps0 + seq![r.min]);
                }
            } else {
                obj.bboxes.push(r);
                proof {
                    lemma_single_box(r);
                    assert(covered(bs0, ps0).disjoint(r.cells()));
                    lemma_merge_pieces(bs0, ps0, seq![r], Seq::empty());
                    assert(ps0 + Seq::<Point>::empty() =~= ps0);
                    assert(obj@.0 =~= bs0 + seq![r]);
                }
            }
            proof {
                assert forall|p: Point|
                    covered(obj@.0, obj@.1).contains(p) <==> exists|k: int|
                        0 <= k < i + 1 && #[trigger] rs@[k].has(p) by {
                    if rs@[i as int].has(p) {
                        assert(r.cells().contains(p));
                    }
                }
            }
            i = i + 1;
        }
        proof {
            assert(rs@.subrange(0, rs@.len() as int) =~= rs@);
            assert(crate::band::is_run(s, *outer_bbox, x, a, b));
            let k = choose|k: int| 0 <= k < rs@.len() && #[trigger] rs@[k].min.x <= x <= rs@[k].max.x;
            let w = Point { x, y: a };
            assert(crate::band::is_band_box(s, *outer_bbox, a, b, rs@[k]));
            assert(rs@[k].has(w));
            assert(s.contains(w));
            assert(in_some_box(rs@, w));
            assert(rest_of(s, rs@).subset_of(s.remove(w)));
            vstd::set_lib::lemma_len_subset(rest_of(s, rs@), s.remove(w));
        }
        let rest_shapes = Self::split_points_by_bboxes(points, &rs);
        let ghost parts = Seq::new(rest_shapes@.len(), |j: int| shape_pieces(rest_shapes@[j]));
        let ghost band = band_pieces(rs@);
        let mut k: usize = 0;
        while k < rest_shapes.len()
            invariant
                0 <= k <= rest_shapes@.len(),
                s == points@.to_set(),
                parts == Seq::new(rest_shapes@.len(), |j: int| shape_pieces(rest_shapes@[j])),
                pieces_ok(obj@.0, obj@.1),
                forall|p: Point|
                    #[trigger] covered(obj@.0, obj@.1).contains(p) <==> (in_some_box(rs@, p) || exists|j: int|
                        0 <= j < k && #[trigger] shape_cells(rest_shapes@[j]).contains(p)),
                obj@.0 == band.0 + joined_pieces(parts.subrange(0, k as int)).0,
                obj@.1 == band.1 + joined_pieces(parts.subrange(0, k as int)).1,
                forall|j: int|
                    0 <= j < rest_shapes@.len() ==> classified_as(
                        shape_cells(#[trigger] rest_shapes@[j]),
                        rest_shapes@[j],
                    ),
                forall|j1: int, j2: int, p: Point|
                    0 <= j1 < rest_shapes@.len() && 0 <= j2 < rest_shapes@.len() && j1 != j2
                        && #[trigger] shape_cells(rest_shapes@[j1]).contains(p) ==> !#[trigger] shape_cells(
                        rest_shapes@[j2],
                    ).contains(p),
                forall|p: Point|
                    (points@.contains(p) && !in_some_box(rs@, p)) <==> exists|j: int|
                        0 <= j < rest_shapes@.len() && #[trigger] shape_cells(rest_shapes@[j]).contains(p),
            decreases rest_shapes@.len() - k,
        {
            let ghost bs0 = obj@.0;
            let ghost ps0 = obj@.1;
            let ghost sh = rest_shapes@[k as int];
            let ghost c = shape_cells(sh);
            proof {
                lemma_shape_pieces(c, sh);
                assert forall|p: Point|
                    #[trigger] covered(bs0, ps0).contains(p) <==> (in_some_box(rs@, p) || exists|j: int|
                        0 <= j < k && #[trigger] shape_cells(rest_shapes@[j]).contains(p)) by {}
                assert forall|p: Point| covered(bs0, ps0).contains(p) implies !c.contains(p) by {
                    if c.contains(p) {
                        assert(exists|j: int|
                            0 <= j < rest_shapes@.len() && #[trigger] shape_cells(rest_shapes@[j]).contains(p));
                        assert(!in_some_box(rs@, p));
                        let j = choose|j: int| 0 <= j < k && #[trigger] shape_cells(rest_shapes@[j]).contains(p);
                        assert(shape_cells(rest_shapes@[k as int]).contains(p));
                    }
                }
                assert(covered(bs0, ps0).disjoint(c));
                lemma_merge_pieces(bs0, ps0, shape_pieces(sh).0, shape_pieces(sh).1);
            }
            match &rest_shapes[k] {
                Shape::Pixel(p) => {
                    obj.points.push(*p);
                    proof {
                        assert(bs0 + Seq::<BBox>::empty() =~= bs0);
                        assert(obj@.1 =~= ps0 + seq![*p]);
                    }
                },
                Shape::Box(bx) => {
                    obj.bboxes.push(*bx);
                    proof {
                        assert(ps0 + Seq::<Point>::empty() =~= ps0);
                        assert(obj@.0 =~= bs0 + seq![*bx]);
                    }
                },
                Shape::Complex(g) => {
                    obj.merge(g.copy_inner_geometry());
                },
            }
            proof {
                assert(obj@.0 == bs0 + shape_pieces(sh).0);
                assert(obj@.1 == ps0 + shape_pieces(sh).1);
                assert(covered(obj@.0, obj@.1) == covered(bs0, ps0).union(c));
                let before = parts.subrange(0, k as int);
                let after = parts.subrange(0, k + 1);
                assert(after.drop_last() =~= before);
                assert(after.last() == shape_pieces(sh));
                assert(obj@.0 =~= band.0 + joined_pieces(after).0);
                assert(obj@.1 =~= band.1 + joined_pieces(after).1);
                assert forall|p: Point|
                    covered(obj@.0, obj@.1).contains(p) <==> (in_some_box(rs@, p) || exists|j: int|
                        0 <= j < k + 1 && #[trigger] shape_cells(rest_shapes@[j]).contains(p)) by {
                    assert(covered(obj@.0, obj@.1).contains(p) == (covered(bs0, ps0).contains(p) || c.contains(p)));
                    if c.contains(p) {
                        assert(shape_cells(rest_shapes@[k as int]).contains(p));
                    }
                    if exists|j: int| 0 <= j < k + 1 && #[trigger] shape_cells(rest_shapes@[j]).contains(p) {
                        let j = choose|j: int| 0 <= j < k + 1 && #[trigger] shape_cells(rest_shapes@[j]).contains(p);
                        if j == k {
                            assert(c.contains(p));
                        }
                    }
                }
            }
            k = k + 1;
        }
        proof {
            assert forall|p: Point| covered(obj@.0, obj@.1).contains(p) == s.contains(p) by {
                if in_some_box(rs@, p) {
                    let j = choose|j: int| 0 <= j < rs@.len() && #[trigger] rs@[j].has(p);
                    assert(crate::band::is_band_box(s, *outer_bbox, a, b, rs@[j]));
                    lemma_band_box_inside(s, *outer_bbox, a, b, rs@[j]);
                    assert(rs@[j].cells().contains(p));
                }
            }
            assert(covered(obj@.0, obj@.1) =~= s);
            assert(parts.subrange(0, parts.len() as int) =~= parts);
            let cs = Seq::new(rest_shapes@.len(), |k: int| shape_cells(rest_shapes@[k]));
            assert forall|j: int| 0 <= j < cs.len() implies #[trigger] part_of(cs[j], parts[j]) by {
                assert(classified_as(shape_cells(rest_shapes@[j]), rest_shapes@[j]));
                assert(cs[j].subset_of(s));
                vstd::set_lib::lemma_len_subset(cs[j], s);
                lemma_classified_part(cs[j], rest_shapes@[j]);
            }
            lemma_first_step_gives_greedy(s, *outer_bbox, x, a, b, rs@, cs, parts, obj@.0, obj@.1);
        }
        obj
    }

    /// Appends the pieces of `other`.
    pub fn merge(&mut self, other: SplittedComplexGeometry)
        ensures
            final(self)@.0 == old(self)@.0 + other@.0,
            final(self)@.1 == old(self)@.1 + other@.1,
    {
        let mut other = other;
        self.points.append(&mut other.points);
        self.bboxes.append(&mut other.bboxes);
    }

    /// Removes the cells of `heightiest_bboxes` from `points` and turns each
    /// connected piece of the rest into its most compact shape.
    fn split_points_by_bboxes(points: &Vec<Point>, heightiest_bboxes: &Vec<BBox>) -> (r: Vec<Shape>)
        requires
            points@.no_duplicates(),
        ensures
            forall|k: int| 0 <= k < r@.len() ==> classified_as(shape_cells(#[trigger] r@[k]), r@[k]),
            forall|k1: int, k2: int, p: Point|
                0 <= k1 < r@.len() && 0 <= k2 < r@.len() && k1 != k2
                    && #[trigger] shape_cells(r@[k1]).contains(p) ==> !#[trigger] shape_cells(
                    r@[k2],
                ).contains(p),
            forall|p: Point|
                (points@.contains(p) && !in_some_box(heightiest_bboxes@, p)) <==> exists|k: int|
                    0 <= k < r@.len() && #[trigger] shape_cells(r@[k]).contains(p),
            is_component_list(
                rest_of(points@.to_set(), heightiest_bboxes@),
                Seq::new(r@.len(), |k: int| shape_cells(r@[k])),
            ),
            r@.len() == 0 <==> rest_of(points@.to_set(), heightiest_bboxes@) == Set::<Point>::empty(),
        decreases rest_of(points@.to_set(), heightiest_bboxes@).len(), 4nat,
    {
        let ghost bs = heightiest_bboxes@;
        let rest = points_outside(points, heightiest_bboxes);
        let ghost rest_set = rest@.to_set();
        let mut shapes: Vec<Shape> = Vec::new();
        if rest.len() == 0 {
            proof {
                assert forall|p: Point|
                    (points@.contains(p) && !in_some_box(heightiest_bboxes@, p)) implies false by {
                    let j = choose|j: int| 0 <= j < points@.len() && points@[j] == p;
                    assert(rest@.contains(p));
                }
                let cs = Seq::new(shapes@.len(), |k: int| shape_cells(shapes@[k]));
                assert forall|p: Point| rest_of(points@.to_set(), bs).contains(p) implies exists|k: int|
                    0 <= k < cs.len() && #[trigger] cs[k].contains(p) by {
                    let j = choose|j: int| 0 <= j < points@.len() && points@[j] == p;
                    assert(rest@.contains(p));
                }
                assert(rest_set =~= Set::<Point>::empty());
            }
            return shapes;
        }
        let m = neighbours_map_of_points(&rest);
        let comps = extract_components(&m);
        let mut k: usize = 0;
        while k < comps.len()
            invariant
                0 <= k <= comps@.len(),
                rest@.no_duplicates(),
                bs == heightiest_bboxes@,
                rest_set == rest_of(points@.to_set(), bs),
                rest_set.finite(),
                rest@.len() == rest_set.len(),
                rest_set == rest@.to_set(),
                m@.len() == rest@.len(),
                forall|i: int| 0 <= i < m@.len() ==> (#[trigger] m@[i]).0 == rest@[i],
                forall|c: int| 0 <= c < comps@.len() ==> component_ok(m@, #[trigger] comps@[c].1@),
                shapes@.len() == k,
                forall|j: int|
                    0 <= j < k ==> classified_as(comps@[j].1@.to_set(), #[trigger] shapes@[j]),
            decreases comps@.len() - k,
        {
            let ghost comp = comps@[k as int].1@;
            proof {
                assert(component_ok(m@, comp));
                assert(comp.to_set().subset_of(rest_set)) by {
                    assert forall|q: Point| comp.to_set().contains(q) implies rest_set.contains(q) by {
                        let t = choose|t: int| 0 <= t < comp.len() && comp[t] == q;
                        assert(crate::components::has_key(m@, comp[t]));
                        let mi = choose|mi: int| 0 <= mi < m@.len() && m@[mi].0 == q;
                        assert(rest@[mi] == q);
                    }
                }
                comp.unique_seq_to_set();
                rest@.unique_seq_to_set();
                vstd::set_lib::lemma_len_subset(comp.to_set(), rest_set);
            }
            let sh = Shape::from_points(&comps[k].1);
            shapes.push(sh);
            k = k + 1;
        }
        proof {
            lemma_split_facts(points@, bs, rest@, m@, comps@, shapes@);
        }
        shapes
    }

    pub fn get_bboxes(&self) -> (r: &Vec<BBox>)
        ensures
            r@ == self@.0,
    {
        &self.bboxes
    }

    pub fn get_points(&self) -> (r: &Vec<Point>)
        ensures
            r@ == self@.1,
    {
        &self.points
    }
}

impl ComplexGeometry {
    /// The geometry of `points`: their outer rectangle and their
    /// decomposition into rectangles and single cells.
    pub fn new(points: Vec<Point>) -> (r: ComplexGeometry)
        requires
            points@.no_duplicates(),
        ensures
            r.wf(),
            r.cells() == points@.to_set(),
            points@.len() == 0 ==> r.outer() == origin_box(),
            points@.len() > 0 ==> is_bbox_of(r.outer(), points@.to_set()),
            greedy_split(points@.to_set(), r.outer(), r@.0, r@.1),
        decreases points@.len(), 2nat,
    {
        let outer_bbox = calc_bbox_by_points(&points);
        proof {
            if points@.len() > 0 {
                assert forall|k: int| 0 <= k < points@.len() implies outer_bbox.has(#[trigger] points@[k]) by {
                    assert(points@.to_set().contains(points@[k]));
                }
            }
        }
        let inner = SplittedComplexGeometry::new(&points, &outer_bbox);
        let r = ComplexGeometry { bboxes: inner.bboxes, points: inner.points, outer_bbox };
        proof {
            if points@.len() > 0 {
                assert(points@.to_set().contains(points@[0]));
            } else {
                assert(points@.to_set() =~= Set::<Point>::empty());
            }
        }
        r
    }

    /// Whether one of the pieces covers `point`.
    pub fn contains(&self, point: &Point) -> (r: bool)
        ensures
            r == self.cells().contains(*point),
    {
        let mut i: usize = 0;
        while i < self.bboxes.len()
            invariant
                0 <= i <= self.bboxes@.len(),
                forall|k: int| 0 <= k < i ==> !(#[trigger] self.bboxes@[k]).has(*point),
            decreases self.bboxes@.len() - i,
        {
            if self.bboxes[i].contains(point) {
                return true;
            }
            i = i + 1;
        }
        contains_point(&self.points, point)
    }

    pub fn get_bboxes(&self) -> (r: &Vec<BBox>)
        ensures
            r@ == self@.0,
    {
        &self.bboxes
    }

    pub fn get_points(&self) -> (r: &Vec<Point>)
        ensures
            r@ == self@.1,
    {
        &self.points
    }

    pub fn get_outer_bbox(&self) -> (r: &BBox)
        ensures
            *r == self.outer(),
    {
        &self.outer_bbox
    }

    /// The outer rectangle, when the pieces cover every cell of it.
    pub fn try_get_as_bbox(&self) -> (r: Option<BBox>)
        ensures
            r is Some <==> self.outer().cells().subset_of(self.cells()),
            r is Some ==> r->0 == self.outer(),
    {
        let outer = self.outer_bbox;
        if outer.min.x > outer.max.x || outer.min.y > outer.max.y {
            return Some(outer);
        }
        let mut x: usize = outer.min.x;
        let mut more_x = true;
        let ghost mut done_x: int = outer.min.x as int;
        while more_x
            invariant
                outer == self.outer(),
                outer.wf(),
                outer.min.x <= x <= outer.max.x,
                more_x ==> done_x == x,
                !more_x ==> done_x == outer.max.x + 1,
                forall|p: Point| outer.has(p) && p.x < done_x ==> #[trigger] self.cells().contains(p),
            decreases outer.max.x + 1 - done_x,
        {
            let mut y: usize = outer.min.y;
            let mut more_y = true;
            let ghost mut done_y: int = outer.min.y as int;
            while more_y
                invariant
                    outer == self.outer(),
                    outer.wf(),
                    more_x,
                    done_x == x,
                    outer.min.x <= x <= outer.max.x,
                    outer.min.y <= y <= outer.max.y,
                    more_y ==> done_y == y,
                    !more_y ==> done_y == outer.max.y + 1,
                    forall|p: Point| outer.has(p) && p.x < done_x ==> #[trigger] self.cells().contains(p),
                    forall|p: Point|
                        outer.has(p) && p.x == x && p.y < done_y ==> #[trigger] self.cells().contains(p),
                decreases outer.max.y + 1 - done_y,
            {
                let p = Point::new(x, y);
                if !self.contains(&p) {
                    assert(outer.cells().contains(p));
                    return None;
                }
                if y == outer.max.y {
                    more_y = false;
                } else {
                    y = y + 1;
                }
                proof {
                    done_y = done_y + 1;
                }
            }
            if x == outer.max.x {
                more_x = false;
            } else {
                x = x + 1;
            }
            proof {
                done_x = done_x + 1;
            }
        }
        Some(outer)
    }

    /// The one cell, when the outer rectangle is a single cell.
    pub fn try_get_as_point(&self) -> (r: Option<Point>)
        ensures
            r is Some <==> self.outer().is_point_spec(),
            r is Some ==> r->0 == self.outer().min,
    {
        let outer = &self.outer_bbox;
        if outer.is_point() {
            return Some(outer.min);
        }
        None
    }

    /// A copy of the pieces.
    fn copy_inner_geometry(&self) -> (r: SplittedComplexGeometry)
        ensures
            r@ == (self@.0, self@.1),
    {
        SplittedComplexGeometry { bboxes: copy_boxes(&self.bboxes), points: copy_points(&self.points) }
    }

    /// A copy of the geometry.
    pub fn copy(&self) -> (r: ComplexGeometry)
        ensures
            r@ == self@,
    {
        ComplexGeometry {
            bboxes: copy_boxes(&self.bboxes),
            points: copy_points(&self.points),
            outer_bbox: self.outer_bbox,
        }
    }
}

/// What simplifying `s` gives: a one-cell rectangle or geometry becomes a
/// pixel, a geometry whose pieces cover its outer rectangle becomes that
/// rectangle, and anything else stays.
pub open spec fn simplifies_to(s: Shape, t: Shape) -> bool {
    match s {
        Shape::Pixel(p) => t == Shape::Pixel(p),
        Shape::Box(b) => if b.is_point_spec() {
            t == Shape::Pixel(b.min)
        } else {
            t == Shape::Box(b)
        },
        Shape::Complex(g) => if g.outer().is_point_spec() {
            t == Shape::Pixel(g.outer().min)
        } else if g.outer().cells().subset_of(g.cells()) {
            t == Shape::Box(g.outer())
        } else {
            t is Complex && t->Complex_0@ == g@
        },
    }
}

/// The two shapes are the same variant with the same value.
pub open spec fn same_shape(a: Shape, b: Shape) -> bool {
    match (a, b) {
        (Shape::Pixel(p), Shape::Pixel(q)) => p == q,
        (Shape::Box(x), Shape::Box(y)) => x == y,
        (Shape::Complex(g), Shape::Complex(h)) => g@ == h@,
        _ => false,
    }
}

/// Shapes of the same variant and value cover the same cells and are
/// classified alike.
pub proof fn lemma_same_shape(a: Shape, b: Shape, c: Set<Point>)
    requires
        same_shape(a, b),
    ensures
        shape_cells(a) == shape_cells(b),
        classified_as(c, a) ==> classified_as(c, b),
        normalized(a) == normalized(b),
{
}

impl Shape {
    /// A copy of the shape.
    pub fn copy(&self) -> (r: Shape)
        ensures
            same_shape(*self, r),
            shape_cells(r) == shape_cells(*self),
            forall|c: Set<Point>| classified_as(c, *self) ==> classified_as(c, r),
    {
        match self {
            Shape::Pixel(p) => Shape::Pixel(*p),
            Shape::Box(b) => Shape::Box(*b),
            Shape::Complex(g) => Shape::Complex(g.copy()),
        }
    }

    /// The most compact shape for a non-empty set of cells.
    pub fn from_points(points: &Vec<Point>) -> (r: Shape)
        requires
            points@.no_duplicates(),
            points@.len() > 0,
        ensures
            classified_as(points@.to_set(), r),
        decreases points@.len(), 3nat,
    {
        let ghost s = points@.to_set();
        let mut shape = if points.len() == 1 {
            proof {
                assert(s =~= set![points@[0]]);
            }
            Shape::Pixel(points[0])
        } else {
            proof {
                assert(s.contains(points@[0]) && s.contains(points@[1]));
                assert(points@[0] != points@[1]);
            }
            match are_points_is_bbox(points) {
                Some(bbox) => {
                    proof {
                        assert(bbox.has(points@[0]) && bbox.has(points@[1]));
                    }
                    Shape::Box(bbox)
                },
                None => {
                    let g = ComplexGeometry::new(copy_points(points));
                    proof {
                        assert(g.outer().has(points@[0]) && g.outer().has(points@[1]));
                        if g.outer().cells().subset_of(g.cells()) {
                            assert(g.outer().cells() =~= s);
                            assert(is_full_box(s));
                        }
                    }
                    Shape::Complex(g)
                },
            }
        };
        shape.simplify();
        shape
    }

    /// Replaces the shape by its most compact equivalent where one exists.
    pub fn simplify(&mut self)
        ensures
            simplifies_to(*old(self), *final(self)),
            normalized(*final(self)),
    {
        let next: Option<Shape> = match self {
            Shape::Complex(complex_geometry) => {
                if let Some(point) = complex_geometry.try_get_as_point() {
                    Some(Shape::Pixel(point))
                } else if let Some(bbox) = complex_geometry.try_get_as_bbox() {
                    Some(Shape::Box(bbox))
                } else {
                    None
                }
            },
            Shape::Box(bbox) => {
                if bbox.is_point() {
                    Some(Shape::Pixel(bbox.min))
                } else {
                    None
                }
            },
            Shape::Pixel(_) => None,
        };
        if let Some(n) = next {
            *self = n;
        }
    }

    /// The simplified form of the shape.
    pub fn get_simplified(&self) -> (r: Shape)
        ensures
            simplifies_to(*self, r),
            normalized(r),
    {
        let mut cloned = self.copy();
        cloned.simplify();
        cloned
    }
}

} // verus!
