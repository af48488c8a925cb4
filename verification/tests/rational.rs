use roguelike::geometry::Point;
use roguelike::rational::{round_ties_down, round_ties_up, Slope};
use roguelike::vision::{Quadrant, QuadrantPoint, QuadrantRow};

fn slope(numer: i32, denom: i32) -> Slope {
    Slope { numer, denom }
}

#[test]
fn ties_round_up() {
    assert_eq!(round_ties_up(slope(1, 2)), 1);
    assert_eq!(round_ties_up(slope(-1, 2)), 0);
    assert_eq!(round_ties_up(slope(3, 2)), 2);
    assert_eq!(round_ties_up(slope(-5, 2)), -2);
    assert_eq!(round_ties_up(slope(7, 3)), 2);
    assert_eq!(round_ties_up(slope(8, 3)), 3);
    assert_eq!(round_ties_up(slope(-7, 3)), -2);
    assert_eq!(round_ties_up(slope(4, 1)), 4);
    assert_eq!(round_ties_up(slope(0, 5)), 0);
    // A ratio that is not in lowest terms rounds like the one that is.
    assert_eq!(round_ties_up(slope(6, 4)), 2);
}

#[test]
fn ties_round_down() {
    assert_eq!(round_ties_down(slope(1, 2)), 0);
    assert_eq!(round_ties_down(slope(-1, 2)), -1);
    assert_eq!(round_ties_down(slope(3, 2)), 1);
    assert_eq!(round_ties_down(slope(-5, 2)), -3);
    assert_eq!(round_ties_down(slope(7, 3)), 2);
    assert_eq!(round_ties_down(slope(8, 3)), 3);
    assert_eq!(round_ties_down(slope(-8, 3)), -3);
    assert_eq!(round_ties_down(slope(4, 1)), 4);
    assert_eq!(round_ties_down(slope(0, 5)), 0);
    assert_eq!(round_ties_down(slope(6, 4)), 1);
}

#[test]
fn the_tangent_of_a_wall_is_a_ratio_in_lowest_terms() {
    let s = QuadrantPoint { distance: 3, column: 2 }.wall_tangent_slope();
    assert_eq!((s.numer, s.denom), (1, 2));
    let s = QuadrantPoint { distance: 2, column: -1 }.wall_tangent_slope();
    assert_eq!((s.numer, s.denom), (-3, 4));
    let s = QuadrantPoint { distance: 5, column: 0 }.wall_tangent_slope();
    assert_eq!((s.numer, s.denom), (-1, 10));
}

#[test]
fn a_row_spans_the_columns_between_its_slopes() {
    let whole = QuadrantRow { distance: 3, start_slope: slope(-1, 1), end_slope: slope(1, 1) };
    assert_eq!(whole.columns(), (-3, 3));
    let right = QuadrantRow { distance: 3, start_slope: slope(1, 2), end_slope: slope(1, 1) };
    assert_eq!(right.columns(), (2, 3));
    let left = QuadrantRow { distance: 4, start_slope: slope(-1, 1), end_slope: slope(-3, 8) };
    assert_eq!(left.columns(), (-4, -2));
    let off = QuadrantRow { distance: 4, start_slope: slope(-1, 1), end_slope: slope(-1, 4) };
    assert_eq!(off.columns(), (-4, -1));
    let narrow = QuadrantRow { distance: 2, start_slope: slope(1, 4), end_slope: slope(1, 4) };
    assert_eq!(narrow.columns(), (1, 0));
}

#[test]
fn a_row_holds_the_centers_between_its_slopes() {
    let row = QuadrantRow { distance: 2, start_slope: slope(-1, 1), end_slope: slope(1, 2) };
    assert!(row.contains_center(QuadrantPoint { distance: 2, column: -2 }));
    assert!(row.contains_center(QuadrantPoint { distance: 2, column: 0 }));
    assert!(row.contains_center(QuadrantPoint { distance: 2, column: 1 }));
    assert!(!row.contains_center(QuadrantPoint { distance: 2, column: 2 }));
    let row = QuadrantRow { distance: 4, start_slope: slope(1, 8), end_slope: slope(1, 1) };
    assert!(!row.contains_center(QuadrantPoint { distance: 4, column: 0 }));
    assert!(row.contains_center(QuadrantPoint { distance: 4, column: 1 }));
}

#[test]
fn quadrants_turn_rows_and_columns_into_tiles() {
    let origin = Point::new(10, 20);
    let coords = QuadrantPoint { distance: 3, column: 2 };
    assert_eq!(Quadrant::North.transform(origin, coords), Point::new(8, 17));
    assert_eq!(Quadrant::South.transform(origin, coords), Point::new(12, 23));
    assert_eq!(Quadrant::East.transform(origin, coords), Point::new(13, 18));
    assert_eq!(Quadrant::West.transform(origin, coords), Point::new(7, 22));
}
