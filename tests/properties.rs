use pixel_shapes::components::{collect_complex_shape, neighbours_map_of_points};
use pixel_shapes::{
    are_points_is_bbox, calc_bbox_by_points, get_neighbours_map, get_shapes, get_shapes_by_neighbour_points,
    get_shapes_layout, is_solid_color, BBox, Color, ComplexGeometry, PixelGrid, Point, Shape,
    SplittedComplexGeometry,
};
use std::collections::HashSet;

fn grid(width: usize, height: usize, cells: &[((u8, u8, u8), (usize, usize))]) -> PixelGrid {
    let mut pixels = vec![[255u8, 255, 255, 255]; width * height];
    for &(c, (x, y)) in cells {
        pixels[y * width + x] = [c.0, c.1, c.2, 255];
    }
    PixelGrid::from_pixels(width, height, pixels).unwrap()
}

fn pts(v: &[(usize, usize)]) -> Vec<Point> {
    v.iter().map(|&(x, y)| Point::new(x, y)).collect()
}

fn cells_of_pieces(boxes: &[BBox], points: &[Point]) -> Vec<Point> {
    let mut out = Vec::new();
    for b in boxes {
        for x in b.min.x..=b.max.x {
            for y in b.min.y..=b.max.y {
                out.push(Point::new(x, y));
            }
        }
    }
    out.extend_from_slice(points);
    out
}

fn shape_cells(s: &Shape) -> Vec<Point> {
    match s {
        Shape::Pixel(p) => vec![*p],
        Shape::Box(b) => cells_of_pieces(&[*b], &[]),
        Shape::Complex(g) => cells_of_pieces(g.get_bboxes(), g.get_points()),
    }
}

fn ring() -> Vec<Point> {
    let mut v = Vec::new();
    for &(x0, y0, x1, y1) in &[(4, 1, 6, 7), (2, 3, 2, 5), (3, 2, 3, 6), (7, 2, 7, 6), (8, 3, 8, 5)] {
        for x in x0..=x1 {
            for y in y0..=y1 {
                v.push(Point::new(x, y));
            }
        }
    }
    v
}

#[test]
fn exact_cover_of_ring() {
    let input = ring();
    let g = ComplexGeometry::new(input.clone());
    let cells = cells_of_pieces(g.get_bboxes(), g.get_points());
    assert_eq!(cells.len(), input.len());
    let a: HashSet<Point> = cells.into_iter().collect();
    let b: HashSet<Point> = input.into_iter().collect();
    assert_eq!(a, b);
}

#[test]
fn inner_boxes_do_not_overlap() {
    let input = pts(&[(0, 0), (1, 0), (2, 0), (0, 1), (2, 1), (0, 2), (1, 2), (2, 2), (3, 2)]);
    let g = ComplexGeometry::new(input.clone());
    let boxes = g.get_bboxes();
    for i in 0..boxes.len() {
        for j in 0..boxes.len() {
            if i != j {
                let a = cells_of_pieces(&[boxes[i]], &[]);
                let b = cells_of_pieces(&[boxes[j]], &[]);
                assert!(a.iter().all(|p| !b.contains(p)));
            }
        }
    }
    assert_eq!(cells_of_pieces(boxes, g.get_points()).len(), input.len());
}

#[test]
fn reclassifying_recovered_cells_is_stable() {
    let img = grid(
        8,
        6,
        &[
            ((9, 9, 9), (0, 0)),
            ((9, 9, 9), (3, 0)),
            ((9, 9, 9), (4, 0)),
            ((9, 9, 9), (3, 1)),
            ((9, 9, 9), (4, 1)),
            ((9, 9, 9), (0, 3)),
            ((9, 9, 9), (0, 4)),
            ((9, 9, 9), (1, 4)),
        ],
    );
    let shapes = get_shapes(&img);
    assert_eq!(shapes.len(), 1);
    assert_eq!(shapes[0].1.len(), 3);
    for s in &shapes[0].1 {
        let mut cells = shape_cells(s);
        cells.reverse();
        let again = Shape::from_points(&cells);
        match (s, &again) {
            (Shape::Pixel(a), Shape::Pixel(b)) => assert_eq!(a, b),
            (Shape::Box(a), Shape::Box(b)) => assert_eq!(a, b),
            (Shape::Complex(a), Shape::Complex(b)) => {
                assert_eq!(a.get_outer_bbox(), b.get_outer_bbox());
                let ab: HashSet<BBox> = a.get_bboxes().iter().cloned().collect();
                let bb: HashSet<BBox> = b.get_bboxes().iter().cloned().collect();
                assert_eq!(ab, bb);
                let ap: HashSet<Point> = a.get_points().iter().cloned().collect();
                let bp: HashSet<Point> = b.get_points().iter().cloned().collect();
                assert_eq!(ap, bp);
            }
            _ => panic!("variant changed"),
        }
    }
}

#[test]
fn degenerate_box_becomes_pixel() {
    let mut s = Shape::Box(BBox::new_xy(3, 4, 3, 4));
    s.simplify();
    assert!(matches!(s, Shape::Pixel(p) if p == Point::new(3, 4)));
    let t = Shape::Box(BBox::new_xy(3, 4, 5, 4)).get_simplified();
    assert!(matches!(t, Shape::Box(b) if b == BBox::new_xy(3, 4, 5, 4)));
}

#[test]
fn covered_complex_becomes_box() {
    let mut s = Shape::Complex(ComplexGeometry::new(pts(&[(1, 1), (2, 1), (1, 2), (2, 2)])));
    s.simplify();
    assert!(matches!(s, Shape::Box(b) if b == BBox::new_xy(1, 1, 2, 2)));
    let one = Shape::Complex(ComplexGeometry::new(pts(&[(5, 6)]))).get_simplified();
    assert!(matches!(one, Shape::Pixel(p) if p == Point::new(5, 6)));
    let l = Shape::Complex(ComplexGeometry::new(pts(&[(0, 2), (0, 3), (1, 3), (2, 3)]))).get_simplified();
    assert!(matches!(l, Shape::Complex(_)));
}

#[test]
fn components_partition_solid_pixels() {
    let red = (200, 0, 0);
    let blue = (0, 0, 200);
    let img = grid(
        5,
        4,
        &[
            (red, (0, 0)),
            (red, (1, 0)),
            (blue, (2, 0)),
            (red, (3, 0)),
            (red, (3, 1)),
            (blue, (0, 2)),
            (blue, (1, 2)),
            (blue, (1, 3)),
            (red, (4, 3)),
        ],
    );
    let shapes = get_shapes(&img);
    let mut seen: Vec<Point> = Vec::new();
    let mut count = 0;
    for (_, list) in &shapes {
        for s in list {
            for p in shape_cells(s) {
                assert!(!seen.contains(&p));
                seen.push(p);
            }
            count += 1;
        }
    }
    assert_eq!(seen.len(), 9);
    assert_eq!(count, 5);
    let reds = &shapes.iter().find(|g| g.0 == Color::new(200, 0, 0)).unwrap().1;
    assert_eq!(reds.len(), 3);
    assert!(matches!(reds[0], Shape::Box(b) if b == BBox::new_xy(0, 0, 1, 0)));
    assert!(matches!(reds[1], Shape::Box(b) if b == BBox::new_xy(3, 0, 3, 1)));
    assert!(matches!(reds[2], Shape::Pixel(p) if p == Point::new(4, 3)));
}

#[test]
fn bbox_of_points() {
    let b = calc_bbox_by_points(&pts(&[(2, 0), (2, 1)]));
    assert_eq!(b, BBox::new_xy(2, 0, 2, 1));
    let e = calc_bbox_by_points(&Vec::new());
    assert_eq!(e, BBox::new_xy(0, 0, 0, 0));
}

#[test]
fn exact_box_detection() {
    let full = pts(&[(1, 10), (1, 11), (2, 10), (2, 11), (3, 10), (3, 11)]);
    assert_eq!(are_points_is_bbox(&full), Some(BBox::new_xy(1, 10, 3, 11)));
    let l = pts(&[(0, 2), (0, 3), (1, 3), (2, 3)]);
    assert_eq!(are_points_is_bbox(&l), None);
    assert_eq!(are_points_is_bbox(&Vec::new()), None);
}

#[test]
fn ring_decomposes_into_five_boxes() {
    let cells: Vec<((u8, u8, u8), (usize, usize))> = ring().iter().map(|p| ((0, 0, 0), (p.x, p.y))).collect();
    let img = grid(10, 9, &cells);
    let layout = get_shapes_layout(&img);
    let list = layout.get(&Color::new(0, 0, 0)).unwrap();
    assert_eq!(list.len(), 1);
    match &list[0] {
        Shape::Complex(g) => {
            assert_eq!(*g.get_outer_bbox(), BBox::new_xy(2, 1, 8, 7));
            assert_eq!(g.get_points().len(), 0);
            let boxes = g.get_bboxes();
            assert_eq!(boxes.len(), 5);
            for b in [(4, 1, 6, 7), (2, 3, 2, 5), (3, 2, 3, 6), (7, 2, 7, 6), (8, 3, 8, 5)] {
                assert!(boxes.contains(&BBox::new_xy(b.0, b.1, b.2, b.3)));
            }
        }
        _ => panic!("expected a complex shape"),
    }
}

#[test]
fn disconnected_remainder_stays_one_shape() {
    // a plus sign: removing the tall middle column leaves two arms apart
    let plus = [(2, 0), (2, 1), (2, 2), (2, 3), (2, 4), (0, 2), (1, 2), (3, 2), (4, 2)];
    let cells: Vec<((u8, u8, u8), (usize, usize))> = plus.iter().map(|&p| ((7, 7, 7), p)).collect();
    let img = grid(5, 5, &cells);
    let layout = get_shapes_layout(&img);
    assert_eq!(layout.len(), 1);
    let list = layout.get(&Color::new(7, 7, 7)).unwrap();
    assert_eq!(list.len(), 1);
    match &list[0] {
        Shape::Complex(g) => {
            let boxes = g.get_bboxes();
            assert_eq!(boxes.len(), 3);
            assert!(boxes.contains(&BBox::new_xy(2, 0, 2, 4)));
            assert!(boxes.contains(&BBox::new_xy(0, 2, 1, 2)));
            assert!(boxes.contains(&BBox::new_xy(3, 2, 4, 2)));
            assert_eq!(g.get_points().len(), 0);
        }
        _ => panic!("expected a complex shape"),
    }
}

#[test]
fn first_tallest_run_wins_ties() {
    // columns 0 and 2 both have runs of two; the one in column 0 is taken
    let input = pts(&[(0, 0), (0, 1), (1, 1), (2, 1), (2, 2)]);
    let split = SplittedComplexGeometry::new(&input, &BBox::new_xy(0, 0, 2, 2));
    assert_eq!(split.get_bboxes()[0], BBox::new_xy(0, 0, 0, 1));
    assert_eq!(split.get_bboxes().len(), 2);
    assert!(split.get_bboxes().contains(&BBox::new_xy(2, 1, 2, 2)));
    assert_eq!(split.get_points(), &vec![Point::new(1, 1)]);
}

#[test]
fn neighbour_offsets() {
    let p = Point::new(0, 3);
    assert_eq!(p.get_neighbour(-1, 0), None);
    assert_eq!(p.get_neighbour(1, 0), Some(Point::new(1, 3)));
    assert_eq!(p.get_neighbour(0, -1), Some(Point::new(0, 2)));
    assert_eq!(p.get_neighbour(0, -4), None);
    assert_eq!(Point::new(usize::MAX, 0).get_neighbour(1, 0), None);
}

#[test]
fn box_measures() {
    let b = BBox::new_xy(2, 3, 5, 4);
    assert_eq!(b.get_width(), 4);
    assert_eq!(b.get_height(), 2);
    assert_eq!(b.get_square(), 8);
    assert_eq!(b.get_points_count(), 8);
    assert!(!b.is_point());
    assert!(b.contains(&Point::new(5, 4)));
    assert!(!b.contains(&Point::new(6, 4)));
    assert!(BBox::new(&Point::new(1, 1), &Point::new(1, 1)).is_point());
    assert_eq!(BBox::new_xy(0, 0, usize::MAX, 1).checked_points_count(), None);
}

#[test]
fn solid_color_rule() {
    assert!(is_solid_color(&[0, 0, 0, 255]));
    assert!(!is_solid_color(&[255, 255, 255, 255]));
    assert!(!is_solid_color(&[10, 20, 30, 254]));
    assert!(is_solid_color(&[255, 255, 254, 255]));
}

#[test]
fn grid_size_must_match() {
    assert!(PixelGrid::from_pixels(2, 2, vec![[0, 0, 0, 255]; 3]).is_none());
    let g = PixelGrid::from_pixels(2, 1, vec![[1, 2, 3, 255], [4, 5, 6, 255]]).unwrap();
    assert_eq!(g.dimensions(), (2, 1));
    assert_eq!(g.get_pixel(1, 0), [4, 5, 6, 255]);
}

#[test]
fn neighbours_link_same_rgba_only() {
    let img = grid(3, 1, &[((1, 1, 1), (0, 0)), ((1, 1, 1), (1, 0)), ((2, 2, 2), (2, 0))]);
    let m = get_neighbours_map(&img);
    assert_eq!(m.len(), 3);
    assert_eq!(m[0].0, Point::new(0, 0));
    assert_eq!(m[0].2, vec![Point::new(1, 0)]);
    assert_eq!(m[1].2, vec![Point::new(0, 0)]);
    assert!(m[2].2.is_empty());
    assert_eq!(m[2].1, Color::new(2, 2, 2));
    let groups = get_shapes_by_neighbour_points(&m);
    assert_eq!(groups.len(), 2);
    assert_eq!(groups[0].0, Color::new(1, 1, 1));
    assert!(matches!(groups[0].1[0], Shape::Box(b) if b == BBox::new_xy(0, 0, 1, 0)));
    assert!(matches!(groups[1].1[0], Shape::Pixel(p) if p == Point::new(2, 0)));
}

#[test]
fn layout_lookup_of_missing_colour() {
    let img = grid(2, 2, &[((3, 3, 3), (0, 0))]);
    let layout = get_shapes_layout(&img);
    assert!(layout.get(&Color::new(4, 4, 4)).is_none());
    assert_eq!(layout.len(), 1);
    let empty = get_shapes_layout(&grid(2, 2, &[]));
    assert_eq!(empty.len(), 0);
}

#[test]
fn geometry_membership_and_merge() {
    let g = ComplexGeometry::new(pts(&[(0, 2), (0, 3), (1, 3), (2, 3)]));
    assert!(g.contains(&Point::new(2, 3)));
    assert!(!g.contains(&Point::new(1, 2)));
    assert_eq!(g.try_get_as_point(), None);
    assert_eq!(*g.get_outer_bbox(), BBox::new_xy(0, 2, 2, 3));
    let mut a = SplittedComplexGeometry::new(&pts(&[(0, 0)]), &BBox::new_xy(0, 0, 0, 0));
    let b = SplittedComplexGeometry::new(&pts(&[(5, 5), (5, 6)]), &BBox::new_xy(5, 5, 5, 6));
    a.merge(b);
    assert_eq!(a.get_points(), &vec![Point::new(0, 0)]);
    assert_eq!(a.get_bboxes(), &vec![BBox::new_xy(5, 5, 5, 6)]);
}

#[test]
fn transparent_and_white_pixels_are_background() {
    let pixels = vec![
        [0, 0, 0, 255],
        [0, 0, 0, 128],
        [255, 255, 255, 255],
        [0, 0, 0, 255],
    ];
    let img = PixelGrid::from_pixels(4, 1, pixels).unwrap();
    let layout = get_shapes_layout(&img);
    let list = layout.get(&Color::new(0, 0, 0)).unwrap();
    assert_eq!(list.len(), 2);
    assert!(matches!(list[0], Shape::Pixel(p) if p == Point::new(0, 0)));
    assert!(matches!(list[1], Shape::Pixel(p) if p == Point::new(3, 0)));
}

#[test]
fn hollow_square_keeps_its_hole() {
    let mut cells = Vec::new();
    for x in 0..3 {
        for y in 0..3 {
            if (x, y) != (1, 1) {
                cells.push(((5, 5, 5), (x, y)));
            }
        }
    }
    let img = grid(3, 3, &cells);
    let shapes = get_shapes(&img);
    assert_eq!(shapes.len(), 1);
    match &shapes[0].1[0] {
        Shape::Complex(g) => {
            assert!(!g.contains(&Point::new(1, 1)));
            assert_eq!(g.try_get_as_bbox(), None);
            assert_eq!(cells_of_pieces(g.get_bboxes(), g.get_points()).len(), 8);
            assert_eq!(g.get_bboxes()[0], BBox::new_xy(0, 0, 0, 2));
        }
        _ => panic!("expected a complex shape"),
    }
}

#[test]
fn collection_appends_and_skips() {
    let cells = pts(&[(0, 0), (1, 0), (3, 0)]);
    let m = neighbours_map_of_points(&cells);
    assert_eq!(m[0].1, Color::new(0, 0, 0));
    assert_eq!(m[0].2, vec![Point::new(1, 0)]);
    let mut processed = vec![false; m.len()];
    let mut shape = vec![Point::new(9, 9)];
    // not a key: nothing changes
    collect_complex_shape(&Point::new(5, 5), &m, &mut processed, &mut shape);
    assert_eq!(shape, vec![Point::new(9, 9)]);
    assert_eq!(processed, vec![false, false, false]);
    // collects the piece of (1, 0) after what was there
    collect_complex_shape(&Point::new(1, 0), &m, &mut processed, &mut shape);
    assert_eq!(shape, vec![Point::new(9, 9), Point::new(1, 0), Point::new(0, 0)]);
    assert_eq!(processed, vec![true, true, false]);
    // already marked: nothing changes
    collect_complex_shape(&Point::new(0, 0), &m, &mut processed, &mut shape);
    assert_eq!(shape.len(), 3);
    assert_eq!(processed, vec![true, true, false]);
}

#[test]
fn neighbour_lists_are_left_right_up_down() {
    let img = grid(3, 3, &[((4, 4, 4), (1, 1)), ((4, 4, 4), (0, 1)), ((4, 4, 4), (2, 1)), ((4, 4, 4), (1, 0)), ((4, 4, 4), (1, 2))]);
    let m = get_neighbours_map(&img);
    let centre = m.iter().find(|e| e.0 == Point::new(1, 1)).unwrap();
    assert_eq!(centre.2, vec![Point::new(0, 1), Point::new(2, 1), Point::new(1, 0), Point::new(1, 2)]);
    let cells = pts(&[(1, 1), (0, 1), (2, 1), (1, 0), (1, 2)]);
    let m2 = neighbours_map_of_points(&cells);
    assert_eq!(m2[0].2, vec![Point::new(0, 1), Point::new(2, 1), Point::new(1, 0), Point::new(1, 2)]);
}

#[test]
fn relaying_out_a_shape_gives_it_back() {
    let cells = pts(&[(0, 0), (1, 0), (2, 0), (0, 1), (2, 1), (0, 2), (1, 2), (2, 2), (3, 2)]);
    let original = Shape::from_points(&cells);
    let mut sorted = shape_cells(&original);
    sorted.sort_by_key(|p| (p.y, p.x));
    let m = neighbours_map_of_points(&sorted);
    let groups = get_shapes_by_neighbour_points(&m);
    assert_eq!(groups.len(), 1);
    assert_eq!(groups[0].1.len(), 1);
    match (&original, &groups[0].1[0]) {
        (Shape::Complex(a), Shape::Complex(b)) => {
            assert_eq!(a.get_outer_bbox(), b.get_outer_bbox());
            let ab: HashSet<BBox> = a.get_bboxes().iter().cloned().collect();
            let bb: HashSet<BBox> = b.get_bboxes().iter().cloned().collect();
            assert_eq!(ab, bb);
            let ap: HashSet<Point> = a.get_points().iter().cloned().collect();
            let bp: HashSet<Point> = b.get_points().iter().cloned().collect();
            assert_eq!(ap, bp);
        }
        _ => panic!("expected two complex shapes"),
    }
}
