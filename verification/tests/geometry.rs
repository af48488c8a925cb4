use rand::SeedableRng;
use rand_pcg::Pcg32;
use roguelike::geometry::{
    random_neighbor, random_neighbor_eight, random_neighbor_four, tile_down, tile_left,
    tile_right, tile_up, Point, Rectangle, RectangleIntersection, Vector,
};
use roguelike::item::Item;
use roguelike::line::{line_between, LineOfSightIterator};

fn rect(x: i32, y: i32, w: i32, h: i32) -> Rectangle {
    Rectangle { pos: Point::new(x, y), size: Vector::new(w, h) }
}

#[test]
fn points_and_vectors_add_and_subtract() {
    let p = Point::new(3, -4);
    let v = Vector::new(2, 5);
    assert_eq!(p + v, Point::new(5, 1));
    assert_eq!(p - v, Point::new(1, -9));
    assert_eq!(Point::new(5, 1) - p, v);
    assert_eq!(v + Vector::new(1, 1), Vector::new(3, 6));
    assert_eq!(v - Vector::new(1, 1), Vector::new(1, 4));
    assert_eq!(v * 3, Vector::new(6, 15));
    let mut q = p;
    q += v;
    assert_eq!(q, Point::new(5, 1));
    q -= v;
    assert_eq!(q, p);
    let mut w = v;
    w += Vector::new(1, 2);
    w -= Vector::new(3, 3);
    w *= -2;
    assert_eq!(w, Vector::new(0, -8));
    assert_eq!(Item::new(p).coords, p);
}

#[test]
fn unit_offsets_point_the_right_way() {
    assert_eq!(tile_up(), Vector::new(0, -1));
    assert_eq!(tile_down(), Vector::new(0, 1));
    assert_eq!(tile_left(), Vector::new(-1, 0));
    assert_eq!(tile_right(), Vector::new(1, 0));
}

#[test]
fn overlapping_rectangles_intersect_for_real() {
    let r = rect(0, 0, 4, 4).intersection(rect(2, 1, 5, 2));
    assert_eq!(r, RectangleIntersection::Real(rect(2, 1, 2, 2)));
    assert_eq!(r.distance(), 0);
    // A rectangle intersects itself in itself.
    assert_eq!(rect(1, 2, 3, 4).intersection(rect(1, 2, 3, 4)), RectangleIntersection::Real(rect(1, 2, 3, 4)));
}

#[test]
fn rectangles_above_one_another_share_columns() {
    let r = rect(0, 0, 4, 2).intersection(rect(1, 5, 6, 3));
    assert_eq!(r, RectangleIntersection::Horizontal(rect(1, 2, 3, 3)));
    assert_eq!(r.distance(), 3);
    // The order of the two does not matter.
    assert_eq!(rect(1, 5, 6, 3).intersection(rect(0, 0, 4, 2)), r);
}

#[test]
fn rectangles_beside_one_another_share_rows() {
    let r = rect(0, 0, 2, 4).intersection(rect(7, 1, 3, 6));
    assert_eq!(r, RectangleIntersection::Vertical(rect(2, 1, 5, 3)));
    assert_eq!(r.distance(), 5);
}

#[test]
fn rectangles_apart_on_both_axes_are_disjoint() {
    let r = rect(0, 0, 2, 2).intersection(rect(5, 6, 1, 1));
    assert_eq!(r, RectangleIntersection::Disjoint(rect(2, 2, 3, 4)));
    assert_eq!(r.distance(), 7);
    // Rectangles that share only a corner are no distance apart.
    let corner = rect(0, 0, 2, 2).intersection(rect(2, 2, 3, 3));
    assert_eq!(corner, RectangleIntersection::Disjoint(rect(2, 2, 0, 0)));
    assert_eq!(corner.distance(), 0);
}

#[test]
fn touching_includes_shared_edges_and_corners() {
    let a = rect(0, 0, 3, 3);
    assert!(a.touching(rect(1, 1, 1, 1)));
    assert!(a.touching(rect(3, 0, 2, 2)));
    assert!(a.touching(rect(3, 3, 2, 2)));
    assert!(a.touching(rect(-2, -2, 2, 2)));
    assert!(!a.touching(rect(4, 0, 2, 2)));
    assert!(!a.touching(rect(0, 4, 2, 2)));
    assert!(!a.touching(rect(-3, 0, 2, 2)));
}

#[test]
fn area_is_width_times_height() {
    assert_eq!(rect(5, 5, 3, 7).area(), 21);
    assert_eq!(rect(5, 5, 0, 7).area(), 0);
}

#[test]
fn random_neighbors_are_unit_steps_and_vary() {
    let mut rng = Pcg32::seed_from_u64(11);
    let mut four = Vec::new();
    let mut plain = Vec::new();
    let mut eight = Vec::new();
    for _ in 0..200 {
        let v = random_neighbor_four(&mut rng);
        assert_eq!(v.x.abs() + v.y.abs(), 1);
        if !four.contains(&v) {
            four.push(v);
        }
        let v = random_neighbor(&mut rng);
        assert_eq!(v.x.abs() + v.y.abs(), 1);
        if !plain.contains(&v) {
            plain.push(v);
        }
        let v = random_neighbor_eight(&mut rng);
        assert!(v.x.abs() <= 1 && v.y.abs() <= 1 && v != Vector::new(0, 0));
        if !eight.contains(&v) {
            eight.push(v);
        }
    }
    assert_eq!(four.len(), 4);
    assert_eq!(plain.len(), 4);
    assert_eq!(eight.len(), 8);
}

#[test]
fn a_line_runs_from_end_to_end() {
    assert_eq!(
        line_between(Point::new(0, 0), Point::new(3, 1)),
        vec![Point::new(0, 0), Point::new(1, 0), Point::new(2, 1), Point::new(3, 1)]
    );
    assert_eq!(
        line_between(Point::new(0, 0), Point::new(1, 3)),
        vec![Point::new(0, 0), Point::new(0, 1), Point::new(1, 2), Point::new(1, 3)]
    );
    assert_eq!(
        line_between(Point::new(2, 2), Point::new(-1, -1)),
        vec![Point::new(2, 2), Point::new(1, 1), Point::new(0, 0), Point::new(-1, -1)]
    );
    assert_eq!(line_between(Point::new(5, 5), Point::new(5, 5)), vec![Point::new(5, 5)]);
}

#[test]
fn a_line_along_an_axis_holds_every_tile_between() {
    let down: Vec<Point> = (2..=9).map(|y| Point::new(4, y)).collect();
    assert_eq!(line_between(Point::new(4, 2), Point::new(4, 9)), down);
    let left: Vec<Point> = (-3..=3).rev().map(|x| Point::new(x, 7)).collect();
    assert_eq!(line_between(Point::new(3, 7), Point::new(-3, 7)), left);
}

#[test]
fn a_line_spans_the_whole_range_of_coordinates() {
    let line = line_between(Point::new(i32::MAX - 2, i32::MIN), Point::new(i32::MAX, i32::MIN + 1));
    assert_eq!(line.len(), 3);
    assert_eq!(line[2], Point::new(i32::MAX, i32::MIN + 1));
}

#[test]
fn a_walk_hands_out_its_points_one_by_one() {
    let mut walk = LineOfSightIterator::new(Point::new(0, 0), Point::new(2, 0));
    assert_eq!(walk.next(), Some(Point::new(0, 0)));
    assert_eq!(walk.next(), Some(Point::new(1, 0)));
    assert_eq!(walk.next(), Some(Point::new(2, 0)));
    assert_eq!(walk.next(), None);
    assert_eq!(walk.next(), None);
}
