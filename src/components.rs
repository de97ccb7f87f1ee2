//! Neighbour maps and their connected pieces.
use vstd::prelude::*;

use crate::pieces::lemma_contains_concat;
use crate::points::contains_point;
use crate::types::{adjacent, scan_before, Color, Point};

verus! {

/// For each foreground cell: the cell, its colour, and the cells linked to it.
pub type NeighboursMap = Vec<(Point, Color, Vec<Point>)>;

pub type NeighboursSeq = Seq<(Point, Color, Vec<Point>)>;

pub open spec fn has_key(m: NeighboursSeq, p: Point) -> bool {
    exists|i: int| 0 <= i < m.len() && m[i].0 == p
}

/// `q` is recorded as a neighbour of the key `p`.
pub open spec fn links(m: NeighboursSeq, p: Point, q: Point) -> bool {
    exists|i: int| 0 <= i < m.len() && m[i].0 == p && m[i].2@.contains(q)
}

/// Keys are unique and links go both ways between keys.
pub open spec fn map_wf(m: NeighboursSeq) -> bool {
    &&& forall|i: int, j: int| 0 <= i < m.len() && 0 <= j < m.len() && i != j ==> m[i].0 != m[j].0
    &&& forall|p: Point, q: Point| #[trigger] links(m, p, q) && has_key(m, q) ==> links(m, q, p)
}

/// Each cell after the first is linked from an earlier one: the cells form
/// one connected piece.
pub open spec fn grows_by_links(m: NeighboursSeq, s: Seq<Point>) -> bool {
    forall|k: int| 1 <= k < s.len() ==> #[trigger] linked_from(m, s, k, s[k])
}

/// `q` is linked from one of the first `n` cells of `s`.
pub open spec fn linked_from(m: NeighboursSeq, s: Seq<Point>, n: int, q: Point) -> bool {
    exists|j: int| 0 <= j < n && #[trigger] links(m, s[j], q)
}

/// Every key linked from a cell of `s` is in `s`.
pub open spec fn closed_under_links(m: NeighboursSeq, s: Seq<Point>) -> bool {
    forall|p: Point, q: Point| s.contains(p) && #[trigger] links(m, p, q) && has_key(m, q) ==> s.contains(q)
}

/// The key at `i` is marked in `v`.
pub open spec fn marked(m: NeighboursSeq, v: Seq<bool>, p: Point) -> bool {
    exists|i: int| 0 <= i < m.len() && m[i].0 == p && v[i]
}

pub open spec fn num_unmarked(v: Seq<bool>) -> nat
    decreases v.len(),
{
    if v.len() == 0 {
        0
    } else {
        num_unmarked(v.drop_last()) + if v.last() {
            0nat
        } else {
            1nat
        }
    }
}

proof fn lemma_mark_decreases(v: Seq<bool>, i: int)
    requires
        0 <= i < v.len(),
        !v[i],
    ensures
        num_unmarked(v.update(i, true)) < num_unmarked(v),
    decreases v.len(),
{
    let w = v.update(i, true);
    if i == v.len() - 1 {
        assert(w.drop_last() =~= v.drop_last());
    } else {
        assert(w.drop_last() =~= v.drop_last().update(i, true));
        lemma_mark_decreases(v.drop_last(), i);
    }
}

/// The index of the key `p`, if there is one.
fn find_key(m: &NeighboursMap, p: &Point) -> (r: Option<usize>)
    ensures
        r is Some ==> r->0 < m@.len() && m@[r->0 as int].0 == *p,
        r is None ==> !has_key(m@, *p),
{
    let mut i: usize = 0;
    while i < m.len()
        invariant
            0 <= i <= m@.len(),
            forall|k: int| 0 <= k < i ==> m@[k].0 != *p,
        decreases m@.len() - i,
    {
        if m[i].0 == *p {
            return Some(i);
        }
        i = i + 1;
    }
    None
}

/// The cell at offset `(dx, dy)` from `p`, when both of its coordinates fit.
pub open spec fn offset_cell(p: Point, dx: int, dy: int) -> Option<Point> {
    if 0 <= p.x + dx <= usize::MAX && 0 <= p.y + dy <= usize::MAX {
        Some(Point { x: (p.x + dx) as usize, y: (p.y + dy) as usize })
    } else {
        None
    }
}

/// The cell at offset `(dx, dy)` from `p` if `s` holds it, as a list of
/// at most one cell.
pub open spec fn listed_neighbour(p: Point, dx: int, dy: int, s: Seq<Point>) -> Seq<Point> {
    match offset_cell(p, dx, dy) {
        Some(q) => if s.contains(q) {
            seq![q]
        } else {
            Seq::empty()
        },
        None => Seq::empty(),
    }
}

/// The neighbours of `p` that `s` holds, in the order left, right, up, down.
pub open spec fn listed_neighbours(p: Point, s: Seq<Point>) -> Seq<Point> {
    listed_neighbour(p, -1, 0, s) + listed_neighbour(p, 1, 0, s) + listed_neighbour(p, 0, -1, s)
        + listed_neighbour(p, 0, 1, s)
}

/// Appends the cell at offset `(x_diff, y_diff)` from `p` when `points` holds it.
fn push_if_present(p: &Point, x_diff: i8, y_diff: i8, v: &mut Vec<Point>, points: &Vec<Point>)
    ensures
        final(v)@ == old(v)@ + listed_neighbour(*p, x_diff as int, y_diff as int, points@),
        forall|q: Point|
            #[trigger] final(v)@.contains(q) <==> (old(v)@.contains(q) || (q.x == p.x + x_diff && q.y
                == p.y + y_diff && points@.contains(q))),
{
    if let Some(q) = p.get_neighbour(x_diff, y_diff) {
        assert(offset_cell(*p, x_diff as int, y_diff as int) == Some(q));
        if contains_point(points, &q) {
            v.push(q);
            assert(v@ =~= old(v)@ + seq![q]);
            assert forall|r: Point| #[trigger] v@.contains(r) <==> (old(v)@.contains(r) || r == q) by {
                if v@.contains(r) && r != q {
                    let k = choose|k: int| 0 <= k < v@.len() && v@[k] == r;
                    assert(old(v)@[k] == r);
                }
                if old(v)@.contains(r) {
                    let k = choose|k: int| 0 <= k < old(v)@.len() && old(v)@[k] == r;
                    assert(v@[k] == r);
                }
                if r == q {
                    assert(v@[v@.len() - 1] == r);
                }
            }
        } else {
            assert(v@ =~= old(v)@ + Seq::<Point>::empty());
        }
    } else {
        assert(v@ =~= old(v)@ + Seq::<Point>::empty());
    }
}

/// Links each cell of `points` to those of its four neighbours that are in
/// `points` too (left, right, up, down). Every cell gets the colour black.
pub fn neighbours_map_of_points(points: &Vec<Point>) -> (m: NeighboursMap)
    requires
        points@.no_duplicates(),
    ensures
        m@.len() == points@.len(),
        forall|i: int| 0 <= i < m@.len() ==> (#[trigger] m@[i]).0 == points@[i],
        forall|i: int|
            0 <= i < m@.len() ==> (#[trigger] m@[i]).1 == (Color { r: 0, g: 0, b: 0 }) && m@[i].2@
                == listed_neighbours(m@[i].0, points@),
        (forall|i: int, j: int| 0 <= i < j < points@.len() ==> scan_before(#[trigger] points@[i], #[trigger] points@[j]))
            ==> forall|i: int, j: int| 0 <= i < j < m@.len() ==> scan_before(#[trigger] m@[i].0, #[trigger] m@[j].0),
        forall|i: int, q: Point|
            0 <= i < m@.len() ==> (#[trigger] m@[i].2@.contains(q) <==> (points@.contains(q)
                && adjacent(m@[i].0, q))),
        map_wf(m@),
{
    let mut m: NeighboursMap = Vec::new();
    let mut i: usize = 0;
    while i < points.len()
        invariant
            0 <= i <= points@.len(),
            m@.len() == i,
            forall|k: int| 0 <= k < i ==> (#[trigger] m@[k]).0 == points@[k],
            forall|k: int|
                0 <= k < i ==> (#[trigger] m@[k]).1 == (Color { r: 0, g: 0, b: 0 }) && m@[k].2@
                    == listed_neighbours(m@[k].0, points@),
            forall|k: int, q: Point|
                0 <= k < i ==> (#[trigger] m@[k].2@.contains(q) <==> (points@.contains(q)
                    && adjacent(m@[k].0, q))),
        decreases points@.len() - i,
    {
        let p = points[i];
        let mut nears: Vec<Point> = Vec::new();
        push_if_present(&p, -1, 0, &mut nears, points);
        push_if_present(&p, 1, 0, &mut nears, points);
        push_if_present(&p, 0, -1, &mut nears, points);
        push_if_present(&p, 0, 1, &mut nears, points);
        assert(nears@ =~= listed_neighbours(p, points@));
        assert forall|q: Point| nears@.contains(q) <==> (points@.contains(q) && adjacent(p, q)) by {
            let l = listed_neighbour(p, -1, 0, points@);
            let r = listed_neighbour(p, 1, 0, points@);
            let u = listed_neighbour(p, 0, -1, points@);
            let d = listed_neighbour(p, 0, 1, points@);
            lemma_contains_concat(l + r + u, d, q);
            lemma_contains_concat(l + r, u, q);
            lemma_contains_concat(l, r, q);
            if points@.contains(q) && adjacent(p, q) {
                if q.x + 1 == p.x && q.y == p.y {
                    assert(l == seq![q]);
                    assert(l[0] == q);
                } else if p.x + 1 == q.x && q.y == p.y {
                    assert(r == seq![q]);
                    assert(r[0] == q);
                } else if q.y + 1 == p.y {
                    assert(u == seq![q]);
                    assert(u[0] == q);
                } else {
                    assert(d == seq![q]);
                    assert(d[0] == q);
                }
            }
        }
        m.push((p, Color::new(0, 0, 0), nears));
        i = i + 1;
    }
    proof {
        assert forall|p: Point, q: Point| #[trigger] links(m@, p, q) && has_key(m@, q) implies links(
            m@,
            q,
            p,
        ) by {
            let i = choose|i: int| 0 <= i < m@.len() && m@[i].0 == p && m@[i].2@.contains(q);
            let j = choose|j: int| 0 <= j < m@.len() && m@[j].0 == q;
            assert(m@[i].0 == points@[i]);
            assert(m@[j].2@.contains(p));
        }
        assert forall|a: int, b: int|
            0 <= a < m@.len() && 0 <= b < m@.len() && a != b implies m@[a].0 != m@[b].0 by {
            assert(m@[a].0 == points@[a]);
            assert(m@[b].0 == points@[b]);
        }
    }
    m
}


fn push_all(stack: &mut Vec<Point>, items: &Vec<Point>)
    ensures
        final(stack)@ == old(stack)@ + items@,
{
    let mut k: usize = 0;
    while k < items.len()
        invariant
            0 <= k <= items@.len(),
            stack@ == old(stack)@ + items@.subrange(0, k as int),
        decreases items@.len() - k,
    {
        stack.push(items[k]);
        k = k + 1;
        assert(stack@ =~= old(stack)@ + items@.subrange(0, k as int));
    }
    assert(items@.subrange(0, k as int) =~= items@);
}

/// A connected piece: non-empty, no cell twice, every cell a key, connected
/// through links, and holding every key linked from it.
pub open spec fn component_ok(m: NeighboursSeq, s: Seq<Point>) -> bool {
    &&& s.len() > 0
    &&& s.no_duplicates()
    &&& forall|k: int| 0 <= k < s.len() ==> has_key(m, #[trigger] s[k])
    &&& grows_by_links(m, s)
    &&& closed_under_links(m, s)
}

/// `c` is the colour recorded for the key `p`.
pub open spec fn key_color(m: NeighboursSeq, p: Point, c: Color) -> bool {
    exists|i: int| 0 <= i < m.len() && m[i].0 == p && m[i].1 == c
}

/// `added` is what a depth-first collection from `start` adds: `start` first,
/// then keys that were unmarked in `before`, each linked from an earlier
/// one, no key twice; `after` marks exactly what `before` marked and
/// `added`; and every key linked from `added` is marked in `after`.
pub open spec fn collected(
    m: NeighboursSeq,
    before: Seq<bool>,
    after: Seq<bool>,
    start: Point,
    added: Seq<Point>,
) -> bool {
    &&& after.len() == m.len()
    &&& forall|i: int| 0 <= i < m.len() ==> (#[trigger] after[i] <==> (before[i] || added.contains(m[i].0)))
    &&& added.len() > 0
    &&& added[0] == start
    &&& added.no_duplicates()
    &&& forall|k: int| 0 <= k < added.len() ==> has_key(m, #[trigger] added[k]) && !marked(m, before, added[k])
    &&& grows_by_links(m, added)
    &&& forall|p: Point, q: Point| added.contains(p) && #[trigger] links(m, p, q) && has_key(m, q) ==> marked(m, after, q)
}

/// Collects, depth first, every key reachable through links from
/// `start_point` that `processed` has not marked, appending them to
/// `shape_points` and marking them. Nothing changes when `start_point` is no
/// key or is marked already.
pub fn collect_complex_shape(
    start_point: &Point,
    neighbours: &NeighboursMap,
    processed: &mut Vec<bool>,
    shape_points: &mut Vec<Point>,
)
    requires
        map_wf(neighbours@),
        old(processed)@.len() == neighbours@.len(),
    ensures
        !has_key(neighbours@, *start_point) || marked(neighbours@, old(processed)@, *start_point) ==> (
        final(processed)@ == old(processed)@ && final(shape_points)@ == old(shape_points)@),
        has_key(neighbours@, *start_point) && !marked(neighbours@, old(processed)@, *start_point) ==> {
            &&& final(shape_points)@.len() > old(shape_points)@.len()
            &&& final(shape_points)@.subrange(0, old(shape_points)@.len() as int) == old(shape_points)@
            &&& collected(
                neighbours@,
                old(processed)@,
                final(processed)@,
                *start_point,
                final(shape_points)@.subrange(old(shape_points)@.len() as int, final(shape_points)@.len() as int),
            )
        },
{
    let ghost m = neighbours@;
    match find_key(neighbours, start_point) {
        None => {
            return;
        },
        Some(i) => {
            if processed[i] {
                return;
            }
            proof {
                assert(!marked(m, processed@, *start_point)) by {
                    if marked(m, processed@, *start_point) {
                        let j = choose|j: int| 0 <= j < m.len() && m[j].0 == *start_point && processed@[j];
                        assert(j == i);
                    }
                }
            }
        },
    }
    let ghost before = processed@;
    let ghost old_shape = shape_points@;
    let mut fresh: Vec<Point> = Vec::new();
    collect_unmarked(start_point, neighbours, processed, &mut fresh);
    let ghost added = fresh@;
    proof {
        assert(collected(m, before, processed@, *start_point, added));
    }
    shape_points.append(&mut fresh);
    proof {
        assert(shape_points@.subrange(0, old_shape.len() as int) =~= old_shape);
        assert(shape_points@.subrange(old_shape.len() as int, shape_points@.len() as int) =~= added);
    }
}

/// Collects, depth first, every unmarked key reachable through links from
/// the unmarked key `start_point` into the empty `shape_points`, marking
/// each in `processed`.
fn collect_unmarked(
    start_point: &Point,
    neighbours: &NeighboursMap,
    processed: &mut Vec<bool>,
    shape_points: &mut Vec<Point>,
)
    requires
        map_wf(neighbours@),
        old(processed)@.len() == neighbours@.len(),
        old(shape_points)@.len() == 0,
        has_key(neighbours@, *start_point),
        !marked(neighbours@, old(processed)@, *start_point),
    ensures
        final(processed)@.len() == neighbours@.len(),
        forall|i: int|
            0 <= i < neighbours@.len() ==> (#[trigger] final(processed)@[i] <==> (old(processed)@[i]
                || final(shape_points)@.contains(neighbours@[i].0))),
        final(shape_points)@.len() > 0,
        final(shape_points)@[0] == *start_point,
        final(shape_points)@.no_duplicates(),
        forall|k: int|
            0 <= k < final(shape_points)@.len() ==> has_key(neighbours@, #[trigger] final(shape_points)@[k])
                && !marked(neighbours@, old(processed)@, final(shape_points)@[k]),
        grows_by_links(neighbours@, final(shape_points)@),
        forall|p: Point, q: Point|
            final(shape_points)@.contains(p) && #[trigger] links(neighbours@, p, q) && has_key(
                neighbours@,
                q,
            ) ==> marked(neighbours@, final(processed)@, q),
{
    let ghost m = neighbours@;
    let ghost old_proc = processed@;
    let mut stack: Vec<Point> = Vec::new();
    stack.push(*start_point);
    while stack.len() > 0
        invariant
            m == neighbours@,
            map_wf(m),
            old_proc == old(processed)@,
            old_proc.len() == m.len(),
            processed@.len() == m.len(),
            has_key(m, *start_point),
            !marked(m, old_proc, *start_point),
            forall|i: int|
                0 <= i < m.len() ==> (#[trigger] processed@[i] <==> (old_proc[i]
                    || shape_points@.contains(m[i].0))),
            shape_points@.no_duplicates(),
            forall|k: int|
                0 <= k < shape_points@.len() ==> has_key(m, #[trigger] shape_points@[k])
                    && !marked(m, old_proc, shape_points@[k]),
            shape_points@.len() == 0 ==> stack@ == seq![*start_point],
            shape_points@.len() > 0 ==> shape_points@[0] == *start_point,
            grows_by_links(m, shape_points@),
            forall|t: int|
                0 <= t < stack@.len() && shape_points@.len() > 0 ==> linked_from(
                    m,
                    shape_points@,
                    shape_points@.len() as int,
                    #[trigger] stack@[t],
                ),
            forall|p: Point, q: Point|
                shape_points@.contains(p) && #[trigger] links(m, p, q) && has_key(m, q) ==> marked(
                    m,
                    processed@,
                    q,
                ) || stack@.contains(q),
        decreases num_unmarked(processed@), stack@.len(),
    {
        let ghost stack0 = stack@;
        let ghost proc0 = processed@;
        let ghost shape0 = shape_points@;
        let p = stack.pop().unwrap();
        assert(stack0 == stack@.push(p));
        let found = find_key(neighbours, &p);
        let mut visit = false;
        let mut idx: usize = 0;
        match found {
            Some(i) => {
                if !processed[i] {
                    visit = true;
                    idx = i;
                }
            },
            None => {},
        }
        if visit {
            let i = idx;
            proof {
                lemma_mark_decreases(processed@, i as int);
            }
            processed.set(i, true);
            shape_points.push(p);
            let nears = &neighbours[i].2;
            push_all(&mut stack, nears);
            proof {
                assert(m[i as int].0 == p);
                assert(!shape0.contains(p)) by {
                    assert(!proc0[i as int]);
                }
                assert(!old_proc[i as int]);
                assert(!marked(m, old_proc, p)) by {
                    if marked(m, old_proc, p) {
                        let j = choose|j: int| 0 <= j < m.len() && m[j].0 == p && old_proc[j];
                        assert(j != i);
                    }
                }
                assert forall|j: int|
                    0 <= j < m.len() implies (#[trigger] processed@[j] <==> (old_proc[j]
                        || shape_points@.contains(m[j].0))) by {
                    if j != i {
                        assert(m[j].0 != p);
                        assert(shape_points@.contains(m[j].0) <==> shape0.contains(m[j].0)) by {
                            if shape_points@.contains(m[j].0) {
                                let k = choose|k: int|
                                    0 <= k < shape_points@.len() && shape_points@[k] == m[j].0;
                                assert(k < shape0.len());
                                assert(shape0[k] == m[j].0);
                            }
                            if shape0.contains(m[j].0) {
                                let k = choose|k: int| 0 <= k < shape0.len() && shape0[k] == m[j].0;
                                assert(shape_points@[k] == m[j].0);
                            }
                        }
                    } else {
                        assert(shape_points@[shape0.len() as int] == p);
                    }
                }
                assert forall|k: int|
                    0 <= k < shape_points@.len() implies has_key(m, #[trigger] shape_points@[k])
                        && !marked(m, old_proc, shape_points@[k]) by {
                    if k < shape0.len() {
                        assert(shape_points@[k] == shape0[k]);
                    }
                }
                if shape0.len() == 0 {
                    assert(p == *start_point);
                }
                assert(shape_points@[0] == *start_point);
                let last = shape0.len() as int;
                assert(shape_points@[last] == p);
                assert forall|k: int| 1 <= k < shape_points@.len() implies #[trigger] linked_from(
                    m,
                    shape_points@,
                    k,
                    shape_points@[k],
                ) by {
                    if k < shape0.len() {
                        assert(shape_points@[k] == shape0[k]);
                        assert(linked_from(m, shape0, k, shape0[k]));
                        let j = choose|j: int| 0 <= j < k && #[trigger] links(m, shape0[j], shape0[k]);
                        assert(shape_points@[j] == shape0[j]);
                        assert(links(m, shape_points@[j], shape_points@[k]));
                    } else {
                        assert(stack0[stack0.len() - 1] == p);
                        assert(linked_from(m, shape0, shape0.len() as int, stack0[stack0.len() - 1]));
                        let j = choose|j: int|
                            0 <= j < shape0.len() && #[trigger] links(m, shape0[j], stack0[stack0.len() - 1]);
                        assert(shape_points@[j] == shape0[j]);
                        assert(links(m, shape_points@[j], shape_points@[k]));
                    }
                }
                assert forall|t: int|
                    0 <= t < stack@.len() && shape_points@.len() > 0 implies linked_from(
                        m,
                        shape_points@,
                        shape_points@.len() as int,
                        #[trigger] stack@[t],
                    ) by {
                    if t < stack0.len() - 1 {
                        assert(stack@[t] == stack0[t]);
                        assert(linked_from(m, shape0, shape0.len() as int, stack0[t]));
                        let j = choose|j: int|
                            0 <= j < shape0.len() && #[trigger] links(m, shape0[j], stack0[t]);
                        assert(shape_points@[j] == shape0[j]);
                        assert(links(m, shape_points@[j], stack@[t]));
                    } else {
                        let w = t - (stack0.len() - 1);
                        assert(stack@[t] == m[i as int].2@[w]);
                        assert(m[i as int].2@.contains(stack@[t]));
                        assert(links(m, shape_points@[last], stack@[t]));
                    }
                }
                assert forall|a: Point, q: Point|
                    shape_points@.contains(a) && #[trigger] links(m, a, q) && has_key(m, q) implies marked(
                        m,
                        processed@,
                        q,
                    ) || stack@.contains(q) by {
                    let qi = choose|qi: int| 0 <= qi < m.len() && m[qi].0 == q;
                    if a == p {
                        let ai = choose|ai: int| 0 <= ai < m.len() && m[ai].0 == a && m[ai].2@.contains(q);
                        assert(ai == i);
                        let w = choose|w: int| 0 <= w < m[ai].2@.len() && m[ai].2@[w] == q;
                        assert(stack@[stack0.len() - 1 + w] == q);
                    } else {
                        assert(shape0.contains(a)) by {
                            let k = choose|k: int| 0 <= k < shape_points@.len() && shape_points@[k] == a;
                            assert(k < shape0.len());
                            assert(shape0[k] == a);
                        }
                        if q == p {
                            assert(processed@[i as int]);
                        } else if marked(m, proc0, q) {
                            let j = choose|j: int| 0 <= j < m.len() && m[j].0 == q && proc0[j];
                            assert(processed@[j]);
                        } else {
                            assert(stack0.contains(q));
                            let k = choose|k: int| 0 <= k < stack0.len() && stack0[k] == q;
                            assert(k < stack0.len() - 1);
                            assert(stack@[k] == q);
                        }
                    }
                }
            }
        } else {
            proof {
                if shape0.len() == 0 {
                    assert(p == *start_point);
                    assert(processed@ =~= old_proc) by {
                        assert forall|j: int| 0 <= j < m.len() implies processed@[j] == old_proc[j] by {
                            assert(!shape0.contains(m[j].0));
                        }
                    }
                    let j = choose|j: int| 0 <= j < m.len() && m[j].0 == p;
                    assert(found is Some);
                    assert(!processed@[j]);
                    assert(false);
                }
                assert forall|t: int|
                    0 <= t < stack@.len() && shape_points@.len() > 0 implies linked_from(
                        m,
                        shape_points@,
                        shape_points@.len() as int,
                        #[trigger] stack@[t],
                    ) by {
                    assert(stack@[t] == stack0[t]);
                }
                assert forall|a: Point, q: Point|
                    shape_points@.contains(a) && #[trigger] links(m, a, q) && has_key(m, q) implies marked(
                        m,
                        processed@,
                        q,
                    ) || stack@.contains(q) by {
                    if q == p {
                        let j = choose|j: int| 0 <= j < m.len() && m[j].0 == q;
                        assert(found is Some);
                        let fi = found->0;
                        assert(processed@[fi as int]);
                    } else if !marked(m, processed@, q) {
                        assert(stack0.contains(q));
                        let k = choose|k: int| 0 <= k < stack0.len() && stack0[k] == q;
                        assert(k < stack0.len() - 1);
                        assert(stack@[k] == q);
                    }
                }
            }
        }
    }
}

/// The key at `i` is the earliest key of the map that `c` holds.
pub open spec fn leads(m: NeighboursSeq, c: Set<Point>, i: int) -> bool {
    &&& 0 <= i < m.len()
    &&& c.contains(m[i].0)
    &&& forall|j: int| 0 <= j < i ==> !c.contains(#[trigger] m[j].0)
}

/// Some key of the map lies in `c`.
pub open spec fn has_leader(m: NeighboursSeq, c: Set<Point>) -> bool {
    exists|i: int| #[trigger] leads(m, c, i)
}

/// Splits the keys into connected pieces, in the order of their first keys.
/// Each piece comes with the colour of its first cell.
pub fn extract_components(neighbours: &NeighboursMap) -> (r: Vec<(Color, Vec<Point>)>)
    requires
        map_wf(neighbours@),
    ensures
        forall|c: int| 0 <= c < r@.len() ==> component_ok(neighbours@, #[trigger] r@[c].1@),
        forall|c: int|
            0 <= c < r@.len() ==> key_color(neighbours@, (#[trigger] r@[c]).1@[0], r@[c].0),
        forall|c1: int, c2: int, p: Point|
            0 <= c1 < r@.len() && 0 <= c2 < r@.len() && c1 != c2 && #[trigger] r@[c1].1@.contains(p)
                ==> !#[trigger] r@[c2].1@.contains(p),
        forall|p: Point|
            has_key(neighbours@, p) <==> exists|c: int|
                0 <= c < r@.len() && #[trigger] r@[c].1@.contains(p),
        forall|c: int| 0 <= c < r@.len() ==> #[trigger] has_leader(neighbours@, r@[c].1@.to_set()),
        forall|c1: int, c2: int, i1: int, i2: int|
            0 <= c1 < c2 < r@.len() && #[trigger] leads(neighbours@, r@[c1].1@.to_set(), i1) && #[trigger] leads(
                neighbours@,
                r@[c2].1@.to_set(),
                i2,
            ) ==> i1 < i2,
{
    let ghost m = neighbours@;
    let n = neighbours.len();
    let mut processed: Vec<bool> = Vec::new();
    let mut z: usize = 0;
    while z < n
        invariant
            0 <= z <= n,
            n == m.len(),
            processed@.len() == z,
            forall|j: int| 0 <= j < z ==> !processed@[j],
        decreases n - z,
    {
        processed.push(false);
        z = z + 1;
    }
    let mut comps: Vec<(Color, Vec<Point>)> = Vec::new();
    let ghost mut starts: Seq<int> = Seq::empty();
    let mut i: usize = 0;
    while i < n
        invariant
            0 <= i <= n,
            n == m.len(),
            m == neighbours@,
            map_wf(m),
            processed@.len() == n,
            forall|j: int|
                0 <= j < n ==> (#[trigger] processed@[j] <==> exists|c: int|
                    0 <= c < comps@.len() && #[trigger] comps@[c].1@.contains(m[j].0)),
            forall|j: int| 0 <= j < i ==> #[trigger] processed@[j],
            forall|c: int| 0 <= c < comps@.len() ==> component_ok(m, #[trigger] comps@[c].1@),
            forall|c: int| 0 <= c < comps@.len() ==> key_color(m, (#[trigger] comps@[c]).1@[0], comps@[c].0),
            forall|c1: int, c2: int, p: Point|
                0 <= c1 < comps@.len() && 0 <= c2 < comps@.len() && c1 != c2
                    && #[trigger] comps@[c1].1@.contains(p) ==> !#[trigger] comps@[c2].1@.contains(p),
            starts.len() == comps@.len(),
            forall|c: int| 0 <= c < comps@.len() ==> leads(m, comps@[c].1@.to_set(), #[trigger] starts[c]),
            forall|c: int| 0 <= c < comps@.len() ==> #[trigger] starts[c] < i,
            forall|c1: int, c2: int| 0 <= c1 < c2 < comps@.len() ==> #[trigger] starts[c1] < #[trigger] starts[c2],
        decreases n - i,
    {
        if !processed[i] {
            let ghost proc0 = processed@;
            let ghost comps0 = comps@;
            let start = neighbours[i].0;
            let mut shape: Vec<Point> = Vec::new();
            proof {
                assert(has_key(m, start));
                assert(!marked(m, proc0, start)) by {
                    if marked(m, proc0, start) {
                        let j = choose|j: int| 0 <= j < m.len() && m[j].0 == start && proc0[j];
                        assert(j == i);
                    }
                }
            }
            collect_complex_shape(&start, neighbours, &mut processed, &mut shape);
            proof {
                assert(shape@.subrange(0, 0) =~= Seq::<Point>::empty());
                assert(shape@.subrange(0, shape@.len() as int) =~= shape@);
            }
            let ghost sh = shape@;
            comps.push((neighbours[i].1, shape));
            proof {
                let last = comps0.len() as int;
                let starts0 = starts;
                starts = starts.push(i as int);
                assert forall|c: int| 0 <= c < comps@.len() implies leads(m, comps@[c].1@.to_set(), #[trigger] starts[c]) by {
                    if c < last {
                        assert(comps@[c] == comps0[c]);
                        assert(starts[c] == starts0[c]);
                    } else {
                        assert(comps@[c].1@ == sh);
                        assert(sh[0] == start);
                        assert(sh.to_set().contains(sh[0]));
                        assert forall|j: int| 0 <= j < i implies !sh.to_set().contains(#[trigger] m[j].0) by {
                            assert(proc0[j]);
                            if sh.to_set().contains(m[j].0) {
                                let t = choose|t: int| 0 <= t < sh.len() && sh[t] == m[j].0;
                                assert(!marked(m, proc0, sh[t]));
                            }
                        }
                    }
                }
                assert forall|c1: int, c2: int| 0 <= c1 < c2 < comps@.len() implies #[trigger] starts[c1] < #[trigger] starts[c2] by {
                    if c2 < last {
                        assert(starts0[c1] < starts0[c2]);
                    } else {
                        assert(starts0[c1] < i);
                    }
                }
                assert(comps@[last].1@ == sh);
                assert forall|c: int| 0 <= c < last implies comps@[c] == comps0[c] by {}
                // every cell of an earlier piece is marked before the call
                assert forall|c: int, p: Point|
                    0 <= c < last && comps0[c].1@.contains(p) implies marked(m, proc0, p) by {
                    let k = choose|k: int| 0 <= k < comps0[c].1@.len() && comps0[c].1@[k] == p;
                    assert(has_key(m, comps0[c].1@[k]));
                    let j = choose|j: int| 0 <= j < m.len() && m[j].0 == p;
                    assert(proc0[j]);
                }
                assert forall|j: int|
                    0 <= j < n implies (#[trigger] processed@[j] <==> exists|c: int|
                        0 <= c < comps@.len() && #[trigger] comps@[c].1@.contains(m[j].0)) by {
                    if processed@[j] {
                        if proc0[j] {
                            let c = choose|c: int|
                                0 <= c < comps0.len() && #[trigger] comps0[c].1@.contains(m[j].0);
                            assert(comps@[c] == comps0[c]);
                        } else {
                            assert(comps@[last].1@.contains(m[j].0));
                        }
                    }
                    if exists|c: int| 0 <= c < comps@.len() && #[trigger] comps@[c].1@.contains(m[j].0) {
                        let c = choose|c: int|
                            0 <= c < comps@.len() && #[trigger] comps@[c].1@.contains(m[j].0);
                        if c < last {
                            assert(comps0[c].1@.contains(m[j].0));
                            assert(proc0[j]);
                        }
                    }
                }
                assert(closed_under_links(m, sh)) by {
                    assert forall|p: Point, q: Point|
                        sh.contains(p) && #[trigger] links(m, p, q) && has_key(m, q) implies sh.contains(q) by {
                        assert(marked(m, processed@, q));
                        let j = choose|j: int| 0 <= j < m.len() && m[j].0 == q && processed@[j];
                        if !sh.contains(q) {
                            assert(proc0[j]);
                            let c = choose|c: int|
                                0 <= c < comps0.len() && #[trigger] comps0[c].1@.contains(m[j].0);
                            assert(component_ok(m, comps@[c].1@));
                            let k = choose|k: int| 0 <= k < sh.len() && sh[k] == p;
                            assert(has_key(m, sh[k]));
                            assert(links(m, q, p));
                            assert(comps0[c].1@.contains(p));
                            assert(marked(m, proc0, p));
                            assert(!marked(m, proc0, sh[k]));
                        }
                    }
                }
                assert(component_ok(m, comps@[last].1@));
                assert(key_color(m, comps@[last].1@[0], comps@[last].0));
                assert forall|c1: int, c2: int, p: Point|
                    0 <= c1 < comps@.len() && 0 <= c2 < comps@.len() && c1 != c2
                        && #[trigger] comps@[c1].1@.contains(p) implies !#[trigger] comps@[c2].1@.contains(p) by {
                    if c1 == last && comps@[c2].1@.contains(p) {
                        assert(marked(m, proc0, p));
                        let k = choose|k: int| 0 <= k < sh.len() && sh[k] == p;
                        assert(!marked(m, proc0, sh[k]));
                    }
                    if c2 == last && comps@[c2].1@.contains(p) {
                        assert(comps0[c1].1@.contains(p));
                        assert(marked(m, proc0, p));
                        let k = choose|k: int| 0 <= k < sh.len() && sh[k] == p;
                        assert(!marked(m, proc0, sh[k]));
                    }
                }
            }
        }
        i = i + 1;
    }
    proof {
        assert forall|c: int| 0 <= c < comps@.len() implies #[trigger] has_leader(m, comps@[c].1@.to_set()) by {
            assert(leads(m, comps@[c].1@.to_set(), starts[c]));
        }
        assert forall|c1: int, c2: int, i1: int, i2: int|
            0 <= c1 < c2 < comps@.len() && #[trigger] leads(m, comps@[c1].1@.to_set(), i1) && #[trigger] leads(
                m,
                comps@[c2].1@.to_set(),
                i2,
            ) implies i1 < i2 by {
            assert(leads(m, comps@[c1].1@.to_set(), starts[c1]));
            assert(leads(m, comps@[c2].1@.to_set(), starts[c2]));
            assert(starts[c1] < starts[c2]);
            if i1 < starts[c1] {
                assert(!comps@[c1].1@.to_set().contains(m[i1].0));
            }
            if starts[c1] < i1 {
                assert(!comps@[c1].1@.to_set().contains(m[starts[c1]].0));
            }
            if i2 < starts[c2] {
                assert(!comps@[c2].1@.to_set().contains(m[i2].0));
            }
            if starts[c2] < i2 {
                assert(!comps@[c2].1@.to_set().contains(m[starts[c2]].0));
            }
        }
        assert forall|p: Point|
            has_key(m, p) implies exists|c: int| 0 <= c < comps@.len() && #[trigger] comps@[c].1@.contains(p) by {
            let j = choose|j: int| 0 <= j < m.len() && m[j].0 == p;
            assert(processed@[j]);
        }
        assert forall|p: Point|
            (exists|c: int| 0 <= c < comps@.len() && #[trigger] comps@[c].1@.contains(p)) implies has_key(m, p) by {
            let c = choose|c: int| 0 <= c < comps@.len() && #[trigger] comps@[c].1@.contains(p);
            let k = choose|k: int| 0 <= k < comps@[c].1@.len() && comps@[c].1@[k] == p;
            assert(component_ok(m, comps@[c].1@));
            assert(has_key(m, comps@[c].1@[k]));
        }
    }
    comps
}

} // verus!
