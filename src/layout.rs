//! Shapes of an image grouped by colour.
use vstd::prelude::*;

use crate::components::{
    component_ok, extract_components, has_key, key_color, leads, linked_from, links, map_wf, NeighboursMap,
    NeighboursSeq,
};
use crate::geometry::{classified_as, lemma_same_shape, same_shape, shape_cells, Shape};
use crate::grid::{color_of, get_neighbours_map, PixelGrid};
use crate::types::{adjacent, scan_before, Color, Point};

verus! {

pub type ShapesByColor = Seq<(Color, Vec<Shape>)>;

/// The keys of the map come in row-major order.
pub open spec fn keys_row_major(m: NeighboursSeq) -> bool {
    forall|a: int, b: int| 0 <= a < b < m.len() ==> scan_before(#[trigger] m[a].0, #[trigger] m[b].0)
}

/// `(g, k)` names the `k`-th shape of the `g`-th colour.
pub open spec fn in_layout(r: ShapesByColor, g: int, k: int) -> bool {
    0 <= g < r.len() && 0 <= k < r[g].1@.len()
}

pub open spec fn shape_at(r: ShapesByColor, g: int, k: int) -> Shape {
    r[g].1@[k]
}

/// Each colour has one group, and no group is empty.
pub open spec fn groups_ok(r: ShapesByColor) -> bool {
    &&& forall|g1: int, g2: int| 0 <= g1 < r.len() && 0 <= g2 < r.len() && g1 != g2 ==> r[g1].0 != r[g2].0
    &&& forall|g: int| 0 <= g < r.len() ==> (#[trigger] r[g]).1@.len() > 0
}

/// No cell belongs to two shapes.
pub open spec fn shapes_disjoint(r: ShapesByColor) -> bool {
    forall|g1: int, k1: int, g2: int, k2: int, p: Point|
        in_layout(r, g1, k1) && in_layout(r, g2, k2) && (g1 != g2 || k1 != k2)
            && #[trigger] shape_cells(shape_at(r, g1, k1)).contains(p) ==> !#[trigger] shape_cells(
            shape_at(r, g2, k2),
        ).contains(p)
}

/// Some shape holds `p`.
pub open spec fn layout_covers(r: ShapesByColor, p: Point) -> bool {
    exists|g: int, k: int| in_layout(r, g, k) && #[trigger] shape_cells(shape_at(r, g, k)).contains(p)
}

/// `c` is a connected piece of the map (of keys linked to one another and
/// closed under links) whose first cell has colour `col`.
pub open spec fn is_piece(m: NeighboursSeq, c: Set<Point>, col: Color) -> bool {
    exists|o: Seq<Point>| #[trigger] o.to_set() == c && component_ok(m, o) && key_color(m, o[0], col)
}

/// Some position of the groups comes from position `j`.
pub open spec fn placed(r: ShapesByColor, origin: Seq<Seq<int>>, j: int) -> bool {
    exists|g: int, k: int| in_layout(r, g, k) && #[trigger] origin[g][k] == j
}

/// Whether some group has colour `c`.
fn has_group(groups: &Vec<(Color, Vec<Shape>)>, c: Color) -> (r: bool)
    ensures
        r == exists|h: int| 0 <= h < groups@.len() && #[trigger] groups@[h].0 == c,
{
    let mut g: usize = 0;
    while g < groups.len()
        invariant
            0 <= g <= groups@.len(),
            forall|h: int| 0 <= h < g ==> #[trigger] groups@[h].0 != c,
        decreases groups@.len() - g,
    {
        if groups[g].0 == c {
            return true;
        }
        g = g + 1;
    }
    false
}

/// Copies of the shapes of colour `c` from position `from` on, with their
/// positions.
fn collect_color(flat: &Vec<(Color, Shape)>, from: usize, c: Color) -> (res: (Vec<Shape>, Ghost<Seq<int>>))
    requires
        from < flat@.len(),
        flat@[from as int].0 == c,
    ensures
        res.1@.len() == res.0@.len(),
        res.0@.len() > 0,
        forall|a: int| 0 <= a < res.1@.len() ==> from <= #[trigger] res.1@[a] < flat@.len(),
        forall|a: int, b: int| 0 <= a < b < res.1@.len() ==> #[trigger] res.1@[a] < #[trigger] res.1@[b],
        forall|a: int|
            0 <= a < res.1@.len() ==> flat@[#[trigger] res.1@[a]].0 == c && same_shape(
                flat@[res.1@[a]].1,
                res.0@[a],
            ),
        forall|u: int|
            #![trigger flat@[u]]
            from <= u < flat@.len() && flat@[u].0 == c ==> exists|a: int|
                0 <= a < res.1@.len() && #[trigger] res.1@[a] == u,
{
    let mut list: Vec<Shape> = Vec::new();
    let ghost mut idxs: Seq<int> = Seq::empty();
    let mut t: usize = from;
    while t < flat.len()
        invariant
            from <= t <= flat@.len(),
            from < flat@.len(),
            flat@[from as int].0 == c,
            idxs.len() == list@.len(),
            forall|a: int| 0 <= a < idxs.len() ==> from <= #[trigger] idxs[a] < t,
            forall|a: int, b: int| 0 <= a < b < idxs.len() ==> #[trigger] idxs[a] < #[trigger] idxs[b],
            forall|a: int|
                0 <= a < idxs.len() ==> flat@[#[trigger] idxs[a]].0 == c && same_shape(
                    flat@[idxs[a]].1,
                    list@[a],
                ),
            forall|u: int|
                #![trigger flat@[u]]
                from <= u < t && flat@[u].0 == c ==> exists|a: int| 0 <= a < idxs.len() && #[trigger] idxs[a] == u,
            t > from ==> list@.len() > 0,
        decreases flat@.len() - t,
    {
        if flat[t].0 == c {
            let sh = flat[t].1.copy();
            let ghost idxs0 = idxs;
            list.push(sh);
            proof {
                idxs = idxs.push(t as int);
                assert forall|u: int|
                    #![trigger flat@[u]]
                    from <= u < t + 1 && flat@[u].0 == c implies exists|a: int|
                        0 <= a < idxs.len() && #[trigger] idxs[a] == u by {
                    if u == t {
                        assert(idxs[idxs.len() - 1] == u);
                    } else {
                        let a = choose|a: int| 0 <= a < idxs0.len() && #[trigger] idxs0[a] == u;
                        assert(idxs[a] == u);
                    }
                }
            }
        }
        t = t + 1;
    }
    proof {
        assert forall|u: int|
            #![trigger flat@[u]]
            from <= u < flat@.len() && flat@[u].0 == c implies exists|a: int|
                0 <= a < idxs.len() && #[trigger] idxs[a] == u by {
            let a = choose|a: int| 0 <= a < idxs.len() && #[trigger] idxs[a] == u;
            assert(idxs[a] == u);
        }
    }
    (list, Ghost(idxs))
}

/// Puts the shapes into one group per colour, colours in order of first
/// appearance, shapes of a colour in their order.
fn group_by_color(flat: &Vec<(Color, Shape)>) -> (res: (Vec<(Color, Vec<Shape>)>, Ghost<Seq<Seq<int>>>))
    ensures
        groups_ok(res.0@),
        res.1@.len() == res.0@.len(),
        forall|g: int| 0 <= g < res.0@.len() ==> (#[trigger] res.1@[g]).len() == res.0@[g].1@.len(),
        forall|g: int, k: int|
            #![trigger res.1@[g][k]]
            in_layout(res.0@, g, k) ==> 0 <= res.1@[g][k] < flat@.len() && flat@[res.1@[g][k]].0
                == res.0@[g].0 && same_shape(flat@[res.1@[g][k]].1, shape_at(res.0@, g, k)),
        forall|g1: int, k1: int, g2: int, k2: int|
            in_layout(res.0@, g1, k1) && in_layout(res.0@, g2, k2) && (g1 != g2 || k1 != k2) ==> #[trigger] res.1@[g1][k1]
                != #[trigger] res.1@[g2][k2],
        forall|j: int| 0 <= j < flat@.len() ==> #[trigger] placed(res.0@, res.1@, j),
        forall|g: int, k1: int, k2: int|
            in_layout(res.0@, g, k1) && in_layout(res.0@, g, k2) && k1 < k2 ==> #[trigger] res.1@[g][k1]
                < #[trigger] res.1@[g][k2],
{
    let mut groups: Vec<(Color, Vec<Shape>)> = Vec::new();
    let ghost mut origin: Seq<Seq<int>> = Seq::empty();
    let mut j: usize = 0;
    while j < flat.len()
        invariant
            0 <= j <= flat@.len(),
            groups_ok(groups@),
            origin.len() == groups@.len(),
            forall|g: int| 0 <= g < groups@.len() ==> (#[trigger] origin[g]).len() == groups@[g].1@.len(),
            forall|g: int, k: int|
                #![trigger origin[g][k]]
                in_layout(groups@, g, k) ==> 0 <= origin[g][k] < flat@.len() && flat@[origin[g][k]].0
                    == groups@[g].0 && same_shape(flat@[origin[g][k]].1, shape_at(groups@, g, k)),
            forall|g: int, k1: int, k2: int|
                in_layout(groups@, g, k1) && in_layout(groups@, g, k2) && k1 < k2 ==> #[trigger] origin[g][k1]
                    < #[trigger] origin[g][k2],
            forall|g: int, t: int|
                #![trigger groups@[g], flat@[t]]
                0 <= g < groups@.len() && 0 <= t < flat@.len() && flat@[t].0 == groups@[g].0
                    ==> exists|k: int| in_layout(groups@, g, k) && #[trigger] origin[g][k] == t,
            forall|t: int|
                #![trigger flat@[t]]
                0 <= t < j ==> exists|g: int| 0 <= g < groups@.len() && #[trigger] groups@[g].0 == flat@[t].0,
        decreases flat@.len() - j,
    {
        let c = flat[j].0;
        if !has_group(&groups, c) {
            let (list, Ghost(idxs)) = collect_color(flat, j, c);
            let ghost groups0 = groups@;
            let ghost origin0 = origin;
            groups.push((c, list));
            proof {
                let ng = groups0.len() as int;
                origin = origin.push(idxs);
                assert(groups@[ng].1@ == list@);
                assert(origin[ng] == idxs);
                assert forall|g2: int| 0 <= g2 < ng implies groups@[g2] == groups0[g2] && origin[g2] == origin0[g2] by {}
                assert forall|g: int, t: int|
                    #![trigger groups@[g], flat@[t]]
                    0 <= g < groups@.len() && 0 <= t < flat@.len() && flat@[t].0 == groups@[g].0
                        implies exists|k: int| in_layout(groups@, g, k) && #[trigger] origin[g][k] == t by {
                    if g < ng {
                        assert(groups0[g] == groups@[g]);
                        let k = choose|k: int| in_layout(groups0, g, k) && #[trigger] origin0[g][k] == t;
                        assert(origin[g][k] == t);
                    } else {
                        if t < j {
                            let h = choose|h: int| 0 <= h < groups0.len() && #[trigger] groups0[h].0 == flat@[t].0;
                            assert(groups0[h].0 == c);
                            assert(false);
                        }
                        let a = choose|a: int| 0 <= a < idxs.len() && #[trigger] idxs[a] == t;
                        assert(origin[ng][a] == t);
                    }
                }
                assert forall|t: int|
                    #![trigger flat@[t]]
                    0 <= t < j + 1 implies exists|g: int| 0 <= g < groups@.len() && #[trigger] groups@[g].0 == flat@[t].0 by {
                    if t == j {
                        assert(groups@[ng].0 == flat@[t].0);
                    } else {
                        let h = choose|h: int| 0 <= h < groups0.len() && #[trigger] groups0[h].0 == flat@[t].0;
                        assert(groups@[h].0 == flat@[t].0);
                    }
                }
                assert forall|g: int, k: int|
                    #![trigger origin[g][k]]
                    in_layout(groups@, g, k) implies 0 <= origin[g][k] < flat@.len() && flat@[origin[g][k]].0
                        == groups@[g].0 && same_shape(flat@[origin[g][k]].1, shape_at(groups@, g, k)) by {
                    if g < ng {
                        assert(origin0[g][k] == origin[g][k]);
                        assert(in_layout(groups0, g, k));
                    }
                }
                assert forall|g: int, k1: int, k2: int|
                    in_layout(groups@, g, k1) && in_layout(groups@, g, k2) && k1 < k2 implies #[trigger] origin[g][k1]
                        < #[trigger] origin[g][k2] by {
                    if g < ng {
                        assert(in_layout(groups0, g, k1) && in_layout(groups0, g, k2));
                        assert(origin0[g][k1] < origin0[g][k2]);
                    }
                }
            }
        }
        j = j + 1;
    }
    proof {
        assert forall|g1: int, k1: int, g2: int, k2: int|
            in_layout(groups@, g1, k1) && in_layout(groups@, g2, k2) && (g1 != g2 || k1 != k2) implies #[trigger] origin[g1][k1]
                != #[trigger] origin[g2][k2] by {
            if g1 == g2 {
                if k1 < k2 {
                    assert(origin[g1][k1] < origin[g1][k2]);
                } else {
                    assert(origin[g1][k2] < origin[g1][k1]);
                }
            } else {
                assert(flat@[origin[g1][k1]].0 == groups@[g1].0);
                assert(flat@[origin[g2][k2]].0 == groups@[g2].0);
            }
        }
        assert forall|t: int|
            #![trigger flat@[t]]
            0 <= t < flat@.len() implies exists|g: int, k: int|
            in_layout(groups@, g, k) && #[trigger] origin[g][k] == t by {
            let g = choose|g: int| 0 <= g < groups@.len() && #[trigger] groups@[g].0 == flat@[t].0;
            let k = choose|k: int| in_layout(groups@, g, k) && #[trigger] origin[g][k] == t;
            assert(in_layout(groups@, g, k) && origin[g][k] == t);
        }
    }
    let res = (groups, Ghost(origin));
    proof {
        assert(res.1@ == origin);
        assert forall|g: int, k1: int, k2: int|
            in_layout(res.0@, g, k1) && in_layout(res.0@, g, k2) && k1 < k2 implies #[trigger] res.1@[g][k1]
                < #[trigger] res.1@[g][k2] by {
            assert(origin[g][k1] < origin[g][k2]);
        }
        assert forall|t: int| 0 <= t < flat@.len() implies #[trigger] placed(res.0@, res.1@, t) by {
            assert(flat@[t] == flat@[t]);
            let (g, k) = choose|g: int, k: int| in_layout(groups@, g, k) && #[trigger] origin[g][k] == t;
            assert(in_layout(res.0@, g, k) && res.1@[g][k] == t);
        }
    }
    res
}


/// Splits the keys of the map into connected pieces, turns each into its
/// most compact shape, and groups the shapes by the colour of the piece.
#[verifier::rlimit(60)]
pub fn get_shapes_by_neighbour_points(neighbours: &NeighboursMap) -> (r: Vec<(Color, Vec<Shape>)>)
    requires
        map_wf(neighbours@),
        keys_row_major(neighbours@),
    ensures
        groups_ok(r@),
        forall|g: int, k: int|
            #![trigger shape_at(r@, g, k)]
            in_layout(r@, g, k) ==> classified_as(shape_cells(shape_at(r@, g, k)), shape_at(r@, g, k))
                && is_piece(neighbours@, shape_cells(shape_at(r@, g, k)), r@[g].0),
        shapes_disjoint(r@),
        forall|p: Point| has_key(neighbours@, p) <==> layout_covers(r@, p),
        forall|g: int, k1: int, k2: int, p1: Point, p2: Point|
            in_layout(r@, g, k1) && in_layout(r@, g, k2) && k1 < k2 && #[trigger] first_in_scan(
                shape_cells(shape_at(r@, g, k1)),
                p1,
            ) && #[trigger] first_in_scan(shape_cells(shape_at(r@, g, k2)), p2) ==> scan_before(p1, p2),
{
    let ghost m = neighbours@;
    let comps = extract_components(neighbours);
    let mut flat: Vec<(Color, Shape)> = Vec::new();
    let mut i: usize = 0;
    while i < comps.len()
        invariant
            0 <= i <= comps@.len(),
            m == neighbours@,
            forall|c: int| 0 <= c < comps@.len() ==> component_ok(m, #[trigger] comps@[c].1@),
            flat@.len() == i,
            forall|j: int|
                0 <= j < i ==> (#[trigger] flat@[j]).0 == comps@[j].0 && classified_as(
                    comps@[j].1@.to_set(),
                    flat@[j].1,
                ),
        decreases comps@.len() - i,
    {
        proof {
            assert(component_ok(m, comps@[i as int].1@));
        }
        let sh = Shape::from_points(&comps[i].1);
        flat.push((comps[i].0, sh));
        i = i + 1;
    }
    let (groups, Ghost(origin)) = group_by_color(&flat);
    proof {
        let r = groups@;
        assert forall|g: int, k: int|
            #![trigger shape_at(r, g, k)]
            in_layout(r, g, k) implies classified_as(shape_cells(shape_at(r, g, k)), shape_at(r, g, k))
                && is_piece(m, shape_cells(shape_at(r, g, k)), r[g].0) by {
            let j = origin[g][k];
            let c = comps@[j].1@.to_set();
            assert(flat@[j].0 == comps@[j].0);
            lemma_same_shape(flat@[j].1, shape_at(r, g, k), c);
            crate::geometry::lemma_shape_cells_of_classified(c, flat@[j].1);
            assert(component_ok(m, comps@[j].1@));
            assert(key_color(m, comps@[j].1@[0], comps@[j].0));
        }
        assert forall|g1: int, k1: int, g2: int, k2: int, p: Point|
            in_layout(r, g1, k1) && in_layout(r, g2, k2) && (g1 != g2 || k1 != k2)
                && #[trigger] shape_cells(shape_at(r, g1, k1)).contains(p) implies !#[trigger] shape_cells(
                shape_at(r, g2, k2),
            ).contains(p) by {
            let j1 = origin[g1][k1];
            let j2 = origin[g2][k2];
            assert(j1 != j2);
            lemma_same_shape(flat@[j1].1, shape_at(r, g1, k1), comps@[j1].1@.to_set());
            lemma_same_shape(flat@[j2].1, shape_at(r, g2, k2), comps@[j2].1@.to_set());
            crate::geometry::lemma_shape_cells_of_classified(comps@[j1].1@.to_set(), flat@[j1].1);
            crate::geometry::lemma_shape_cells_of_classified(comps@[j2].1@.to_set(), flat@[j2].1);
            assert(comps@[j1].1@.contains(p));
        }
        assert forall|g: int, k1: int, k2: int, i1: int, i2: int|
            in_layout(r, g, k1) && in_layout(r, g, k2) && k1 < k2 && #[trigger] leads(
                m,
                shape_cells(shape_at(r, g, k1)),
                i1,
            ) && #[trigger] leads(m, shape_cells(shape_at(r, g, k2)), i2) implies i1 < i2 by {
            let j1 = origin[g][k1];
            let j2 = origin[g][k2];
            assert(j1 < j2);
            lemma_same_shape(flat@[j1].1, shape_at(r, g, k1), comps@[j1].1@.to_set());
            lemma_same_shape(flat@[j2].1, shape_at(r, g, k2), comps@[j2].1@.to_set());
            crate::geometry::lemma_shape_cells_of_classified(comps@[j1].1@.to_set(), flat@[j1].1);
            crate::geometry::lemma_shape_cells_of_classified(comps@[j2].1@.to_set(), flat@[j2].1);
            assert(leads(m, comps@[j1].1@.to_set(), i1));
            assert(leads(m, comps@[j2].1@.to_set(), i2));
        }
        assert forall|p: Point| has_key(m, p) <==> layout_covers(r, p) by {
            if has_key(m, p) {
                let c = choose|c: int| 0 <= c < comps@.len() && #[trigger] comps@[c].1@.contains(p);
                assert(flat@[c] == flat@[c]);
                assert(placed(r, origin, c));
                let (g, k) = choose|g: int, k: int| in_layout(r, g, k) && #[trigger] origin[g][k] == c;
                lemma_same_shape(flat@[c].1, shape_at(r, g, k), comps@[c].1@.to_set());
                crate::geometry::lemma_shape_cells_of_classified(comps@[c].1@.to_set(), flat@[c].1);
                assert(comps@[c].1@.to_set().contains(p));
                assert(shape_cells(shape_at(r, g, k)).contains(p));
            }
            if layout_covers(r, p) {
                let (g, k) = choose|g: int, k: int| in_layout(r, g, k) && #[trigger] shape_cells(shape_at(r, g, k)).contains(p);
                let j = origin[g][k];
                lemma_same_shape(flat@[j].1, shape_at(r, g, k), comps@[j].1@.to_set());
                crate::geometry::lemma_shape_cells_of_classified(comps@[j].1@.to_set(), flat@[j].1);
                assert(comps@[j].1@.contains(p));
            }
        }
        lemma_order_by_first_cell(m, r);
    }
    groups
}


/// `q` touches, with the same colour, one of the first `n` cells of `o`.
pub open spec fn touched_from(img: PixelGrid, o: Seq<Point>, n: int, q: Point) -> bool {
    exists|j: int| 0 <= j < n && adjacent(#[trigger] o[j], q) && img.same_color_at(o[j], q)
}

/// `c` is a region of the image: foreground pixels of colour `col` that
/// are 4-connected through pixels of one colour (they can be listed so that
/// each touches an earlier one), holding every such pixel that touches them.
pub open spec fn is_region(img: PixelGrid, c: Set<Point>, col: Color) -> bool {
    &&& forall|p: Point| #[trigger] c.contains(p) ==> img.solid_at(p) && color_of(img.pixel(p.x as int, p.y as int)) == col
    &&& forall|p: Point, q: Point| c.contains(p) && adjacent(p, q) && #[trigger] img.same_color_at(p, q) ==> c.contains(q)
    &&& exists|o: Seq<Point>|
        #[trigger] o.to_set() == c && o.len() > 0 && forall|k: int| 1 <= k < o.len() ==> #[trigger] touched_from(img, o, k, o[k])
}

/// `p` is the first cell of `c` in row-major order.
pub open spec fn first_in_scan(c: Set<Point>, p: Point) -> bool {
    &&& c.contains(p)
    &&& forall|q: Point| c.contains(q) && q != p ==> scan_before(p, q)
}

/// The shapes of an image: one group per colour; each shape is the most
/// compact form of one region of that colour; the shapes share no pixel and
/// together hold every foreground pixel; the shapes of a colour come in the
/// row-major order of their first pixels.
pub open spec fn is_layout_of(img: PixelGrid, r: ShapesByColor) -> bool {
    &&& groups_ok(r)
    &&& forall|g: int, k1: int, k2: int, p1: Point, p2: Point|
        in_layout(r, g, k1) && in_layout(r, g, k2) && k1 < k2 && #[trigger] first_in_scan(
            shape_cells(shape_at(r, g, k1)),
            p1,
        ) && #[trigger] first_in_scan(shape_cells(shape_at(r, g, k2)), p2) ==> scan_before(p1, p2)
    &&& forall|g: int, k: int|
        #![trigger shape_at(r, g, k)]
        in_layout(r, g, k) ==> classified_as(shape_cells(shape_at(r, g, k)), shape_at(r, g, k))
            && is_region(img, shape_cells(shape_at(r, g, k)), r[g].0)
    &&& shapes_disjoint(r)
    &&& forall|p: Point| img.solid_at(p) <==> layout_covers(r, p)
}

proof fn lemma_same_pixel_along(img: PixelGrid, o: Seq<Point>, k: int)
    requires
        0 <= k < o.len(),
        forall|t: int| 1 <= t < o.len() ==> #[trigger] touched_from(img, o, t, o[t]),
    ensures
        img.pixel(o[k].x as int, o[k].y as int) == img.pixel(o[0].x as int, o[0].y as int),
    decreases k,
{
    if k > 0 {
        assert(touched_from(img, o, k, o[k]));
        let j = choose|j: int| 0 <= j < k && adjacent(#[trigger] o[j], o[k]) && img.same_color_at(o[j], o[k]);
        lemma_same_pixel_along(img, o, j);
    }
}

/// A connected piece of the image's neighbour map is a region.
proof fn lemma_piece_is_region(img: PixelGrid, m: NeighboursSeq, c: Set<Point>, col: Color)
    requires
        img.wf(),
        map_wf(m),
        forall|p: Point| has_key(m, p) <==> img.solid_at(p),
        forall|i: int| 0 <= i < m.len() ==> (#[trigger] m[i]).1 == color_of(img.pixel(m[i].0.x as int, m[i].0.y as int)),
        forall|i: int, q: Point|
            0 <= i < m.len() ==> (#[trigger] m[i].2@.contains(q) <==> (adjacent(m[i].0, q)
                && img.same_color_at(m[i].0, q))),
        is_piece(m, c, col),
    ensures
        is_region(img, c, col),
{
    let o = choose|o: Seq<Point>| #[trigger] o.to_set() == c && component_ok(m, o) && key_color(m, o[0], col);
    assert forall|k: int| 1 <= k < o.len() implies #[trigger] touched_from(img, o, k, o[k]) by {
        assert(linked_from(m, o, k, o[k]));
        let j = choose|j: int| 0 <= j < k && #[trigger] links(m, o[j], o[k]);
        let i = choose|i: int| 0 <= i < m.len() && m[i].0 == o[j] && m[i].2@.contains(o[k]);
        assert(adjacent(o[j], o[k]) && img.same_color_at(o[j], o[k]));
    }
    let i0 = choose|i: int| 0 <= i < m.len() && m[i].0 == o[0] && m[i].1 == col;
    assert forall|p: Point| #[trigger] c.contains(p) implies img.solid_at(p) && color_of(img.pixel(p.x as int, p.y as int)) == col by {
        let k = choose|k: int| 0 <= k < o.len() && o[k] == p;
        assert(has_key(m, o[k]));
        lemma_same_pixel_along(img, o, k);
    }
    assert forall|p: Point, q: Point| c.contains(p) && adjacent(p, q) && #[trigger] img.same_color_at(p, q) implies c.contains(q) by {
        let k = choose|k: int| 0 <= k < o.len() && o[k] == p;
        assert(has_key(m, o[k]));
        let i = choose|i: int| 0 <= i < m.len() && m[i].0 == p;
        assert(m[i].2@.contains(q));
        assert(links(m, p, q));
        assert(img.solid_at(p));
        assert(img.solid_at(q));
        assert(has_key(m, q));
        assert(o.contains(p));
    }
    assert(o.len() > 0);
}

/// The shapes of an image, grouped by colour.
pub fn get_shapes(img: &PixelGrid) -> (r: Vec<(Color, Vec<Shape>)>)
    requires
        img.wf(),
    ensures
        is_layout_of(*img, r@),
{
    let neighbours = get_neighbours_map(img);
    let r = get_shapes_by_neighbour_points(&neighbours);
    proof {
        assert forall|g: int, k: int|
            #![trigger shape_at(r@, g, k)]
            in_layout(r@, g, k) implies classified_as(shape_cells(shape_at(r@, g, k)), shape_at(r@, g, k))
                && is_region(*img, shape_cells(shape_at(r@, g, k)), r@[g].0) by {
            lemma_piece_is_region(*img, neighbours@, shape_cells(shape_at(r@, g, k)), r@[g].0);
        }
    }
    r
}

/// When the keys come in row-major order and the shapes of a colour come in
/// the order of their earliest keys, they come in the row-major order of
/// their first cells.
proof fn lemma_order_by_first_cell(m: NeighboursSeq, r: ShapesByColor)
    requires
        map_wf(m),
        keys_row_major(m),
        forall|q: Point| has_key(m, q) <==> layout_covers(r, q),
        forall|g: int, k1: int, k2: int, i1: int, i2: int|
            in_layout(r, g, k1) && in_layout(r, g, k2) && k1 < k2 && #[trigger] leads(
                m,
                shape_cells(shape_at(r, g, k1)),
                i1,
            ) && #[trigger] leads(m, shape_cells(shape_at(r, g, k2)), i2) ==> i1 < i2,
    ensures
        forall|g: int, k1: int, k2: int, p1: Point, p2: Point|
            in_layout(r, g, k1) && in_layout(r, g, k2) && k1 < k2 && #[trigger] first_in_scan(
                shape_cells(shape_at(r, g, k1)),
                p1,
            ) && #[trigger] first_in_scan(shape_cells(shape_at(r, g, k2)), p2) ==> scan_before(p1, p2),
{
    assert forall|g: int, k1: int, k2: int, p1: Point, p2: Point|
        in_layout(r, g, k1) && in_layout(r, g, k2) && k1 < k2 && #[trigger] first_in_scan(
            shape_cells(shape_at(r, g, k1)),
            p1,
        ) && #[trigger] first_in_scan(shape_cells(shape_at(r, g, k2)), p2) implies scan_before(p1, p2) by {
        let i1 = lemma_first_cell_leads(m, r, g, k1, p1);
        let i2 = lemma_first_cell_leads(m, r, g, k2, p2);
        assert(i1 < i2);
        assert(scan_before(m[i1].0, m[i2].0));
    }
}

/// The first cell, in row-major order, of a shape of the layout of a
/// row-major neighbour map is the shape's earliest key.
proof fn lemma_first_cell_leads(m: NeighboursSeq, r: ShapesByColor, g: int, k: int, p: Point) -> (i: int)
    requires
        map_wf(m),
        forall|q: Point| has_key(m, q) <==> layout_covers(r, q),
        keys_row_major(m),
        in_layout(r, g, k),
        first_in_scan(shape_cells(shape_at(r, g, k)), p),
    ensures
        leads(m, shape_cells(shape_at(r, g, k)), i),
        m[i].0 == p,
{
    let c = shape_cells(shape_at(r, g, k));
    assert(layout_covers(r, p));
    let i = choose|i: int| 0 <= i < m.len() && m[i].0 == p;
    assert forall|j: int| 0 <= j < i implies !c.contains(#[trigger] m[j].0) by {
        assert(scan_before(m[j].0, m[i].0));
        if c.contains(m[j].0) {
            assert(m[j].0 != p);
            assert(scan_before(p, m[j].0));
        }
    }
    i
}

/// The shapes of an image, grouped by colour.
#[derive(Debug)]
pub struct ShapesLayout {
    pub shapes: Vec<(Color, Vec<Shape>)>,
}

impl ShapesLayout {
    /// The shapes of colour `color`, if there are any.
    pub fn get(&self, color: &Color) -> (r: Option<&Vec<Shape>>)
        ensures
            r is Some <==> exists|g: int| 0 <= g < self.shapes@.len() && #[trigger] self.shapes@[g].0 == *color,
            r is Some ==> exists|g: int|
                0 <= g < self.shapes@.len() && #[trigger] self.shapes@[g].0 == *color && r->0@ == self.shapes@[g].1@,
    {
        let mut g: usize = 0;
        while g < self.shapes.len()
            invariant
                0 <= g <= self.shapes@.len(),
                forall|h: int| 0 <= h < g ==> #[trigger] self.shapes@[h].0 != *color,
            decreases self.shapes@.len() - g,
        {
            if self.shapes[g].0 == *color {
                return Some(&self.shapes[g].1);
            }
            g = g + 1;
        }
        None
    }

    /// The number of colours.
    pub fn len(&self) -> (r: usize)
        ensures
            r == self.shapes@.len(),
    {
        self.shapes.len()
    }
}

/// The shapes of an image, grouped by colour.
pub fn get_shapes_layout(img: &PixelGrid) -> (r: ShapesLayout)
    requires
        img.wf(),
    ensures
        is_layout_of(*img, r.shapes@),
{
    ShapesLayout { shapes: get_shapes(img) }
}

} // verus!
