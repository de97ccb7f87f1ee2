//! Decoded images and the neighbour map of their foreground pixels.
use vstd::prelude::*;

use crate::components::{has_key, links, map_wf, offset_cell, NeighboursMap};
use crate::pieces::lemma_contains_concat;
use crate::types::{adjacent, scan_before, Color, Point};

verus! {

/// A decoded image: `width * height` RGBA pixels, row by row.
pub struct PixelGrid {
    width: usize,
    height: usize,
    pixels: Vec<[u8; 4]>,
}

/// Foreground: fully opaque and not pure white.
pub open spec fn is_solid_spec(rgba: Seq<u8>) -> bool {
    rgba[3] == 255 && !(rgba[0] == 255 && rgba[1] == 255 && rgba[2] == 255)
}

/// The colour of a pixel, without its alpha.
pub open spec fn color_of(rgba: Seq<u8>) -> Color {
    Color { r: rgba[0], g: rgba[1], b: rgba[2] }
}

proof fn lemma_index_in_grid(x: int, y: int, w: int, h: int)
    requires
        0 <= x < w,
        0 <= y < h,
    ensures
        0 <= y * w + x < w * h,
{
    assert(y * w + x < w * h) by (nonlinear_arith)
        requires
            0 <= x < w,
            0 <= y < h,
    ;
    assert(0 <= y * w) by (nonlinear_arith)
        requires
            0 <= y,
            0 <= w,
    ;
}

impl PixelGrid {
    pub closed spec fn width_spec(&self) -> nat {
        self.width as nat
    }

    pub closed spec fn height_spec(&self) -> nat {
        self.height as nat
    }

    /// The RGBA value at `(x, y)`.
    pub closed spec fn pixel(&self, x: int, y: int) -> Seq<u8> {
        self.pixels@[y * self.width + x]@
    }

    pub closed spec fn wf(&self) -> bool {
        self.pixels@.len() == self.width * self.height
    }

    /// The cell lies inside the image.
    pub open spec fn in_bounds(&self, p: Point) -> bool {
        p.x < self.width_spec() && p.y < self.height_spec()
    }

    /// The cell is a foreground pixel.
    pub open spec fn solid_at(&self, p: Point) -> bool {
        self.in_bounds(p) && is_solid_spec(self.pixel(p.x as int, p.y as int))
    }

    /// Both cells lie inside the image and have the same RGBA value.
    pub open spec fn same_color_at(&self, p: Point, q: Point) -> bool {
        self.in_bounds(p) && self.in_bounds(q) && self.pixel(p.x as int, p.y as int) == self.pixel(
            q.x as int,
            q.y as int,
        )
    }

    /// A grid of the given pixels, listed row by row; `None` when their
    /// number is not `width * height`.
    pub fn from_pixels(width: usize, height: usize, pixels: Vec<[u8; 4]>) -> (r: Option<PixelGrid>)
        ensures
            r is Some <==> pixels@.len() == width * height,
            r is Some ==> {
                &&& r->0.wf()
                &&& r->0.width_spec() == width
                &&& r->0.height_spec() == height
                &&& forall|x: int, y: int|
                    0 <= x < width && 0 <= y < height ==> #[trigger] r->0.pixel(x, y) == pixels@[y
                        * width + x]@
            },
    {
        let len = pixels.len();
        match width.checked_mul(height) {
            Some(n) => {
                if n == len {
                    Some(PixelGrid { width, height, pixels })
                } else {
                    None
                }
            },
            None => {
                proof {
                    assert(pixels@.len() <= usize::MAX);
                }
                None
            },
        }
    }

    pub fn dimensions(&self) -> (r: (usize, usize))
        ensures
            r.0 == self.width_spec(),
            r.1 == self.height_spec(),
    {
        (self.width, self.height)
    }

    /// The RGBA value at `(x, y)`.
    pub fn get_pixel(&self, x: usize, y: usize) -> (r: [u8; 4])
        requires
            self.wf(),
            x < self.width_spec(),
            y < self.height_spec(),
        ensures
            r@ == self.pixel(x as int, y as int),
    {
        let n = self.pixels.len();
        proof {
            lemma_index_in_grid(x as int, y as int, self.width as int, self.height as int);
        }
        self.pixels[y * self.width + x]
    }
}

/// Whether an RGBA value is foreground.
pub fn is_solid_color(rgba: &[u8; 4]) -> (r: bool)
    ensures
        r == is_solid_spec(rgba@),
{
    let is_transparent = rgba[3] != 255;
    let is_white = is_transparent || (rgba[0] == 255 && rgba[1] == 255 && rgba[2] == 255);
    !is_white
}

fn same_rgba(a: &[u8; 4], b: &[u8; 4]) -> (r: bool)
    ensures
        r == (a@ == b@),
{
    let r = a[0] == b[0] && a[1] == b[1] && a[2] == b[2] && a[3] == b[3];
    proof {
        if r {
            assert(a@ =~= b@);
        }
    }
    r
}

fn is_point_in_image(img: &PixelGrid, point: &Point) -> (r: bool)
    ensures
        r == img.in_bounds(*point),
{
    let (width, height) = img.dimensions();
    point.x < width && point.y < height
}

fn is_solid_coord(img: &PixelGrid, point: &Point) -> (r: bool)
    requires
        img.wf(),
    ensures
        r == img.solid_at(*point),
{
    if !is_point_in_image(img, point) {
        return false;
    }
    let rgba = img.get_pixel(point.x, point.y);
    is_solid_color(&rgba)
}

fn is_same_color(img: &PixelGrid, p1: &Point, p2: &Point) -> (r: bool)
    requires
        img.wf(),
    ensures
        r == img.same_color_at(*p1, *p2),
{
    if !is_point_in_image(img, p1) || !is_point_in_image(img, p2) {
        return false;
    }
    let a = img.get_pixel(p1.x, p1.y);
    let b = img.get_pixel(p2.x, p2.y);
    same_rgba(&a, &b)
}

/// The cell at offset `(dx, dy)` from `p` if it lies inside the image with
/// the RGBA value of `p`, as a list of at most one cell.
pub open spec fn grid_neighbour(img: PixelGrid, p: Point, dx: int, dy: int) -> Seq<Point> {
    match offset_cell(p, dx, dy) {
        Some(q) => if img.same_color_at(p, q) {
            seq![q]
        } else {
            Seq::empty()
        },
        None => Seq::empty(),
    }
}

/// The neighbours of `p` with its RGBA value, in the order left, right, up,
/// down.
pub open spec fn grid_neighbours(img: PixelGrid, p: Point) -> Seq<Point> {
    grid_neighbour(img, p, -1, 0) + grid_neighbour(img, p, 1, 0) + grid_neighbour(img, p, 0, -1)
        + grid_neighbour(img, p, 0, 1)
}

/// Appends the cell at offset `(x_diff, y_diff)` from `p` when it has the
/// colour of `p`.
fn process_neighbour(p: &Point, x_diff: i8, y_diff: i8, v: &mut Vec<Point>, img: &PixelGrid)
    requires
        img.wf(),
    ensures
        final(v)@ == old(v)@ + grid_neighbour(*img, *p, x_diff as int, y_diff as int),
        forall|q: Point|
            #[trigger] final(v)@.contains(q) <==> (old(v)@.contains(q) || (q.x == p.x + x_diff && q.y
                == p.y + y_diff && img.same_color_at(*p, q))),
{
    if let Some(neighbour) = p.get_neighbour(x_diff, y_diff) {
        assert(offset_cell(*p, x_diff as int, y_diff as int) == Some(neighbour));
        if is_same_color(img, p, &neighbour) {
            v.push(neighbour);
            assert(v@ =~= old(v)@ + seq![neighbour]);
            assert forall|r: Point| #[trigger] v@.contains(r) <==> (old(v)@.contains(r) || r == neighbour) by {
                if v@.contains(r) && r != neighbour {
                    let k = choose|k: int| 0 <= k < v@.len() && v@[k] == r;
                    assert(old(v)@[k] == r);
                }
                if old(v)@.contains(r) {
                    let k = choose|k: int| 0 <= k < old(v)@.len() && old(v)@[k] == r;
                    assert(v@[k] == r);
                }
                if r == neighbour {
                    assert(v@[v@.len() - 1] == r);
                }
            }
        } else {
            assert(v@ =~= old(v)@ + Seq::<Point>::empty());
        }
    } else {
        assert(v@ =~= old(v)@ + Seq::<Point>::empty());
    }
}

/// For each foreground pixel, in row-major order: the pixel, its colour, and
/// its neighbours (left, right, up, down) inside the image with exactly its
/// RGBA value.
pub fn get_neighbours_map(img: &PixelGrid) -> (m: NeighboursMap)
    requires
        img.wf(),
    ensures
        map_wf(m@),
        forall|p: Point| has_key(m@, p) <==> img.solid_at(p),
        forall|i: int| 0 <= i < m@.len() ==> (#[trigger] m@[i]).1 == color_of(img.pixel(m@[i].0.x as int, m@[i].0.y as int)),
        forall|i: int, q: Point|
            0 <= i < m@.len() ==> (#[trigger] m@[i].2@.contains(q) <==> (adjacent(m@[i].0, q)
                && img.same_color_at(m@[i].0, q))),
        forall|i: int, j: int| 0 <= i < j < m@.len() ==> scan_before(#[trigger] m@[i].0, #[trigger] m@[j].0),
        forall|i: int| 0 <= i < m@.len() ==> (#[trigger] m@[i]).2@ == grid_neighbours(*img, m@[i].0),
{
    let (width, height) = img.dimensions();
    let mut neighbours: NeighboursMap = Vec::new();
    let mut y: usize = 0;
    while y < height
        invariant
            img.wf(),
            width == img.width_spec(),
            height == img.height_spec(),
            0 <= y <= height,
            forall|i: int| 0 <= i < neighbours@.len() ==> img.solid_at(#[trigger] neighbours@[i].0),
            forall|i: int| 0 <= i < neighbours@.len() ==> (#[trigger] neighbours@[i].0).y < y,
            forall|i: int, j: int|
                0 <= i < j < neighbours@.len() ==> scan_before(neighbours@[i].0, neighbours@[j].0),
            forall|p: Point| img.solid_at(p) && p.y < y ==> has_key(neighbours@, p),
            forall|i: int|
                0 <= i < neighbours@.len() ==> (#[trigger] neighbours@[i]).1 == color_of(
                    img.pixel(neighbours@[i].0.x as int, neighbours@[i].0.y as int),
                ),
            forall|i: int|
                0 <= i < neighbours@.len() ==> (#[trigger] neighbours@[i]).2@ == grid_neighbours(
                    *img,
                    neighbours@[i].0,
                ),
            forall|i: int, q: Point|
                0 <= i < neighbours@.len() ==> (#[trigger] neighbours@[i].2@.contains(q) <==> (
                adjacent(neighbours@[i].0, q) && img.same_color_at(neighbours@[i].0, q))),
        decreases height - y,
    {
        let mut x: usize = 0;
        while x < width
            invariant
                img.wf(),
                width == img.width_spec(),
                height == img.height_spec(),
                0 <= y < height,
                0 <= x <= width,
                forall|i: int| 0 <= i < neighbours@.len() ==> img.solid_at(#[trigger] neighbours@[i].0),
                forall|i: int|
                    0 <= i < neighbours@.len() ==> (#[trigger] neighbours@[i].0).y < y || (
                    neighbours@[i].0.y == y && neighbours@[i].0.x < x),
                forall|i: int, j: int|
                    0 <= i < j < neighbours@.len() ==> scan_before(neighbours@[i].0, neighbours@[j].0),
                forall|p: Point|
                    img.solid_at(p) && (p.y < y || (p.y == y && p.x < x)) ==> has_key(neighbours@, p),
                forall|i: int|
                    0 <= i < neighbours@.len() ==> (#[trigger] neighbours@[i]).1 == color_of(
                        img.pixel(neighbours@[i].0.x as int, neighbours@[i].0.y as int),
                    ),
                forall|i: int|
                    0 <= i < neighbours@.len() ==> (#[trigger] neighbours@[i]).2@ == grid_neighbours(
                        *img,
                        neighbours@[i].0,
                    ),
                forall|i: int, q: Point|
                    0 <= i < neighbours@.len() ==> (#[trigger] neighbours@[i].2@.contains(q) <==> (
                    adjacent(neighbours@[i].0, q) && img.same_color_at(neighbours@[i].0, q))),
            decreases width - x,
        {
            let p = Point::new(x, y);
            if is_solid_coord(img, &p) {
                let pixel = img.get_pixel(p.x, p.y);
                let color = Color::new(pixel[0], pixel[1], pixel[2]);
                let mut v: Vec<Point> = Vec::new();
                process_neighbour(&p, -1, 0, &mut v, img);
                process_neighbour(&p, 1, 0, &mut v, img);
                process_neighbour(&p, 0, -1, &mut v, img);
                process_neighbour(&p, 0, 1, &mut v, img);
                assert(v@ =~= grid_neighbours(*img, p));
                assert forall|q: Point| v@.contains(q) <==> (adjacent(p, q) && img.same_color_at(p, q)) by {
                    let l = grid_neighbour(*img, p, -1, 0);
                    let r = grid_neighbour(*img, p, 1, 0);
                    let u = grid_neighbour(*img, p, 0, -1);
                    let d = grid_neighbour(*img, p, 0, 1);
                    lemma_contains_concat(l + r + u, d, q);
                    lemma_contains_concat(l + r, u, q);
                    lemma_contains_concat(l, r, q);
                    if adjacent(p, q) && img.same_color_at(p, q) {
                        if q.x + 1 == p.x && q.y == p.y {
                            assert(l[0] == q);
                        } else if p.x + 1 == q.x && q.y == p.y {
                            assert(r[0] == q);
                        } else if q.y + 1 == p.y {
                            assert(u[0] == q);
                        } else {
                            assert(d[0] == q);
                        }
                    }
                }
                let ghost n0 = neighbours@;
                neighbours.push((p, color, v));
                proof {
                    let last = n0.len() as int;
                    assert(neighbours@[last].0 == p);
                    assert forall|i: int, j: int|
                        0 <= i < j < neighbours@.len() implies scan_before(neighbours@[i].0, neighbours@[j].0) by {
                        if j == last {
                            assert(neighbours@[i] == n0[i]);
                        } else {
                            assert(neighbours@[i] == n0[i]);
                            assert(neighbours@[j] == n0[j]);
                        }
                    }
                    assert forall|r: Point|
                        img.solid_at(r) && (r.y < y || (r.y == y && r.x < x + 1)) implies has_key(
                            neighbours@,
                            r,
                        ) by {
                        if r == p {
                            assert(neighbours@[last].0 == r);
                        } else {
                            assert(has_key(n0, r));
                            let i = choose|i: int| 0 <= i < n0.len() && n0[i].0 == r;
                            assert(neighbours@[i] == n0[i]);
                        }
                    }
                    assert forall|i: int| 0 <= i < neighbours@.len() implies img.solid_at(
                        #[trigger] neighbours@[i].0,
                    ) by {
                        if i < last {
                            assert(neighbours@[i] == n0[i]);
                        }
                    }
                    assert forall|i: int|
                        0 <= i < neighbours@.len() implies (#[trigger] neighbours@[i].0).y < y || (
                        neighbours@[i].0.y == y && neighbours@[i].0.x < x + 1) by {
                        if i < last {
                            assert(neighbours@[i] == n0[i]);
                        }
                    }
                    assert forall|i: int|
                        0 <= i < neighbours@.len() implies (#[trigger] neighbours@[i]).2@ == grid_neighbours(
                            *img,
                            neighbours@[i].0,
                        ) by {
                        if i < last {
                            assert(neighbours@[i] == n0[i]);
                        }
                    }
                    assert forall|i: int|
                        0 <= i < neighbours@.len() implies (#[trigger] neighbours@[i]).1 == color_of(
                            img.pixel(neighbours@[i].0.x as int, neighbours@[i].0.y as int),
                        ) by {
                        if i < last {
                            assert(neighbours@[i] == n0[i]);
                        } else {
                            assert(color_of(img.pixel(x as int, y as int)) =~= color);
                        }
                    }
                    assert forall|i: int, q: Point|
                        0 <= i < neighbours@.len() implies (#[trigger] neighbours@[i].2@.contains(q)
                            <==> (adjacent(neighbours@[i].0, q) && img.same_color_at(neighbours@[i].0, q))) by {
                        if i < last {
                            assert(neighbours@[i] == n0[i]);
                        }
                    }
                }
            } else {
                proof {
                    assert forall|r: Point|
                        img.solid_at(r) && (r.y < y || (r.y == y && r.x < x + 1)) implies has_key(
                            neighbours@,
                            r,
                        ) by {
                        if r == p {
                            assert(false);
                        }
                    }
                }
            }
            x = x + 1;
        }
        y = y + 1;
    }
    proof {
        let m = neighbours@;
        assert forall|i: int, j: int| 0 <= i < m.len() && 0 <= j < m.len() && i != j implies m[i].0
            != m[j].0 by {
            if i < j {
                assert(scan_before(m[i].0, m[j].0));
            } else {
                assert(scan_before(m[j].0, m[i].0));
            }
        }
        assert forall|p: Point, q: Point| #[trigger] links(m, p, q) && has_key(m, q) implies links(m, q, p) by {
            let i = choose|i: int| 0 <= i < m.len() && m[i].0 == p && m[i].2@.contains(q);
            let j = choose|j: int| 0 <= j < m.len() && m[j].0 == q;
            assert(m[j].2@.contains(p));
        }
        assert forall|p: Point| has_key(m, p) implies img.solid_at(p) by {
            let i = choose|i: int| 0 <= i < m.len() && m[i].0 == p;
            assert(img.solid_at(m[i].0));
        }
    }
    neighbours
}

} // verus!
