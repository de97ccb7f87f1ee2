//! Cells, rectangles and colours.
use vstd::prelude::*;

verus! {

/// A pixel position; both coordinates are non-negative.
#[derive(Clone, Copy, Debug, PartialEq, Eq, Hash, Structural)]
pub struct Point {
    pub x: usize,
    pub y: usize,
}

/// Shifts `v` by `d`, or `None` when the result leaves the range of `usize`.
fn shift(v: usize, d: i8) -> (r: Option<usize>)
    ensures
        r is Some <==> 0 <= v + d <= usize::MAX,
        r is Some ==> r->0 == v + d,
{
    if d < 0 {
        let back: usize = (0i16 - d as i16) as usize;
        if v < back {
            None
        } else {
            Some(v - back)
        }
    } else {
        let ahead: usize = d as usize;
        if v > usize::MAX - ahead {
            None
        } else {
            Some(v + ahead)
        }
    }
}

impl Point {
    pub fn new(x: usize, y: usize) -> (r: Point)
        ensures
            r.x == x,
            r.y == y,
    {
        Point { x, y }
    }

    /// The point moved by `(x_diff, y_diff)`, or `None` where a coordinate
    /// would become negative (or would not fit in `usize`). Image bounds are
    /// not checked here.
    pub fn get_neighbour(&self, x_diff: i8, y_diff: i8) -> (r: Option<Point>)
        ensures
            r is Some <==> (0 <= self.x + x_diff <= usize::MAX && 0 <= self.y + y_diff
                <= usize::MAX),
            r is Some ==> r->0.x == self.x + x_diff && r->0.y == self.y + y_diff,
    {
        let nx = shift(self.x, x_diff);
        let ny = shift(self.y, y_diff);
        match (nx, ny) {
            (Some(x), Some(y)) => Some(Point::new(x, y)),
            _ => None,
        }
    }
}

impl Default for Point {
    fn default() -> (r: Point)
        ensures
            r.x == 0,
            r.y == 0,
    {
        Point::new(0, 0)
    }
}

/// `p` comes before `q` in row-major order.
pub open spec fn scan_before(p: Point, q: Point) -> bool {
    p.y < q.y || (p.y == q.y && p.x < q.x)
}

/// Two cells that share an edge.
pub open spec fn adjacent(p: Point, q: Point) -> bool {
    (p.y == q.y && (p.x + 1 == q.x || q.x + 1 == p.x)) || (p.x == q.x && (p.y + 1 == q.y || q.y
        + 1 == p.y))
}

/// An axis-aligned rectangle of cells, both corners included.
#[derive(Clone, Copy, Debug, PartialEq, Eq, Hash, Structural)]
pub struct BBox {
    pub min: Point,
    pub max: Point,
}

impl BBox {
    /// The corners are ordered componentwise.
    pub open spec fn wf(self) -> bool {
        self.min.x <= self.max.x && self.min.y <= self.max.y
    }

    pub open spec fn is_point_spec(self) -> bool {
        self.min == self.max
    }

    pub open spec fn has(self, p: Point) -> bool {
        self.min.x <= p.x <= self.max.x && self.min.y <= p.y <= self.max.y
    }

    /// The cells that the rectangle covers.
    pub open spec fn cells(self) -> Set<Point> {
        Set::new(|p: Point| self.has(p))
    }

    pub open spec fn width_spec(self) -> int {
        self.max.x - self.min.x + 1
    }

    pub open spec fn height_spec(self) -> int {
        self.max.y - self.min.y + 1
    }

    pub open spec fn area(self) -> int {
        self.width_spec() * self.height_spec()
    }

    pub fn new(min: &Point, max: &Point) -> (r: BBox)
        ensures
            r.min == *min,
            r.max == *max,
    {
        BBox { min: *min, max: *max }
    }

    pub fn new_xy(min_x: usize, min_y: usize, max_x: usize, max_y: usize) -> (r: BBox)
        ensures
            r.min == (Point { x: min_x, y: min_y }),
            r.max == (Point { x: max_x, y: max_y }),
    {
        BBox { min: Point::new(min_x, min_y), max: Point::new(max_x, max_y) }
    }

    pub fn is_point(&self) -> (r: bool)
        ensures
            r == self.is_point_spec(),
    {
        self.min == self.max
    }

    pub fn contains(&self, point: &Point) -> (r: bool)
        ensures
            r == self.has(*point),
    {
        point.x >= self.min.x && point.x <= self.max.x && point.y >= self.min.y && point.y
            <= self.max.y
    }

    pub fn get_width(&self) -> (r: usize)
        requires
            self.wf(),
            self.width_spec() <= usize::MAX,
        ensures
            r == self.width_spec(),
    {
        self.max.x - self.min.x + 1
    }

    pub fn get_height(&self) -> (r: usize)
        requires
            self.wf(),
            self.height_spec() <= usize::MAX,
        ensures
            r == self.height_spec(),
    {
        self.max.y - self.min.y + 1
    }

    pub fn get_square(&self) -> (r: usize)
        requires
            self.wf(),
            self.width_spec() <= usize::MAX,
            self.height_spec() <= usize::MAX,
            self.area() <= usize::MAX,
        ensures
            r == self.area(),
    {
        self.get_width() * self.get_height()
    }

    /// The number of cells covered; the same as the area.
    pub fn get_points_count(&self) -> (r: usize)
        requires
            self.wf(),
            self.width_spec() <= usize::MAX,
            self.height_spec() <= usize::MAX,
            self.area() <= usize::MAX,
        ensures
            r == self.area(),
            r == self.cells().len(),
    {
        proof {
            lemma_cells_len(*self);
        }
        self.get_square()
    }

    /// The area, or `None` where it does not fit in `usize`.
    pub fn checked_points_count(&self) -> (r: Option<usize>)
        requires
            self.wf(),
        ensures
            r is Some <==> self.area() <= usize::MAX,
            r is Some ==> r->0 == self.area(),
    {
        let dx = self.max.x - self.min.x;
        let dy = self.max.y - self.min.y;
        if dx == usize::MAX || dy == usize::MAX {
            proof {
                let w = self.width_spec();
                let h = self.height_spec();
                assert(w * h >= w * 1 && w * h >= 1 * h) by (nonlinear_arith)
                    requires
                        w >= 1,
                        h >= 1,
                ;
            }
            return None;
        }
        let w = dx + 1;
        let h = dy + 1;
        w.checked_mul(h)
    }
}

impl Default for BBox {
    fn default() -> (r: BBox)
        ensures
            r.min.x == 0 && r.min.y == 0 && r.max.x == 0 && r.max.y == 0,
    {
        BBox { min: Point::new(0, 0), max: Point::new(0, 0) }
    }
}

/// The cells `(x, y)` with `x0 <= x <= x1`.
pub open spec fn row_cells(x0: usize, x1: usize, y: usize) -> Set<Point> {
    Set::new(|p: Point| x0 <= p.x <= x1 && p.y == y)
}

proof fn lemma_row_len(x0: usize, x1: usize, y: usize)
    requires
        x0 <= x1,
    ensures
        row_cells(x0, x1, y).finite(),
        row_cells(x0, x1, y).len() == x1 - x0 + 1,
    decreases x1 - x0,
{
    if x0 == x1 {
        assert(row_cells(x0, x1, y) =~= set![Point { x: x0, y }]);
    } else {
        let x2 = (x1 - 1) as usize;
        lemma_row_len(x0, x2, y);
        assert(row_cells(x0, x1, y) =~= row_cells(x0, x2, y).insert(Point { x: x1, y }));
    }
}

/// A rectangle covers exactly `width * height` cells.
pub proof fn lemma_cells_len(b: BBox)
    requires
        b.wf(),
    ensures
        b.cells().finite(),
        b.cells().len() == b.area(),
    decreases b.max.y - b.min.y,
{
    if b.min.y == b.max.y {
        lemma_row_len(b.min.x, b.max.x, b.min.y);
        assert(b.cells() =~= row_cells(b.min.x, b.max.x, b.min.y));
        assert(b.area() == b.width_spec() * 1);
    } else {
        let lower = BBox { min: b.min, max: Point { x: b.max.x, y: (b.max.y - 1) as usize } };
        lemma_cells_len(lower);
        lemma_row_len(b.min.x, b.max.x, b.max.y);
        let row = row_cells(b.min.x, b.max.x, b.max.y);
        assert(b.cells() =~= lower.cells().union(row));
        assert(lower.cells().disjoint(row));
        vstd::set_lib::lemma_set_disjoint_lens(lower.cells(), row);
        let w = b.width_spec();
        let h = b.height_spec();
        assert(lower.area() == w * (h - 1));
        assert(w * (h - 1) + w == w * h) by (nonlinear_arith);
    }
}

/// An RGB colour; alpha is not kept.
#[derive(Clone, Copy, Debug, PartialEq, Eq, Hash, Structural)]
pub struct Color {
    pub r: u8,
    pub g: u8,
    pub b: u8,
}

impl Color {
    pub fn new(r: u8, g: u8, b: u8) -> (c: Color)
        ensures
            c.r == r,
            c.g == g,
            c.b == b,
    {
        Color { r, g, b }
    }
}

} // verus!
