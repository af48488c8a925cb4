use rand::SeedableRng;
use rand_pcg::Pcg32;
use roguelike::corridors::{
    carve_corridor, carve_line, connect_rooms, elbow_corridor, horizontal_corridor, room_pairs,
    vertical_corridor,
};
use roguelike::geometry::{Point, Rectangle, RectangleIntersection, Vector};
use roguelike::level::carve_rooms;
use roguelike::point_map::{decode, encode, PointMap, PointSet};
use roguelike::rooms::{
    below_ratio, crop, nudge_until_clear, place_rooms, FloorRatio, GenerationConfig, Room,
};
use roguelike::terrain::{carve_rectangle, make_floor, Floor, Tile};

fn rect(x: i32, y: i32, w: i32, h: i32) -> Rectangle {
    Rectangle { pos: Point::new(x, y), size: Vector::new(w, h) }
}

fn config(w: i32, h: i32) -> GenerationConfig {
    GenerationConfig {
        tileport: rect(0, 0, w, h),
        min_floor_ratio: FloorRatio { numer: 2, denom: 5 },
        min_room_size: 3,
        max_room_size: 15,
    }
}

fn is_floor(terrain: &PointMap<Tile>, x: i32, y: i32) -> bool {
    matches!(terrain.get(Point::new(x, y)), Some(Tile::Floor(_)))
}

#[test]
fn keys_and_points_correspond() {
    for p in [
        Point::new(0, 0),
        Point::new(-1, 1),
        Point::new(i32::MIN, i32::MAX),
        Point::new(i32::MAX, i32::MIN),
        Point::new(12345, -54321),
    ] {
        assert_eq!(decode(encode(p)), p);
    }
    assert_eq!(encode(Point::new(i32::MIN, i32::MIN)), 0);
    assert_eq!(encode(Point::new(0, 0)), 0x8000_0000_8000_0000);
    assert_eq!(encode(Point::new(i32::MAX, i32::MAX)), u64::MAX);
}

#[test]
fn point_sets_and_maps_hold_what_is_put_in() {
    let mut set = PointSet::new();
    assert!(set.insert(Point::new(1, 2)));
    assert!(!set.insert(Point::new(1, 2)));
    assert!(set.insert(Point::new(2, 1)));
    assert!(set.contains(Point::new(2, 1)));
    assert!(!set.contains(Point::new(2, 2)));
    assert_eq!(set.len(), 2);
    let mut points = set.points();
    points.sort_by_key(|p| (p.x, p.y));
    assert_eq!(points, vec![Point::new(1, 2), Point::new(2, 1)]);

    let mut map: PointMap<i32> = PointMap::new();
    map.insert(Point::new(0, 0), 7);
    map.insert(Point::new(0, 1), 8);
    map.insert(Point::new(0, 0), 9);
    assert_eq!(map.get(Point::new(0, 0)), Some(&9));
    assert!(map.contains_key(Point::new(0, 1)));
    map.remove(Point::new(0, 1));
    assert!(!map.contains_key(Point::new(0, 1)));
    map.remove(Point::new(5, 5));
    assert_eq!(map.points(), vec![Point::new(0, 0)]);
}

#[test]
fn a_floor_tile_is_walled_in_where_nothing_stood() {
    let mut terrain: PointMap<Tile> = PointMap::new();
    make_floor(&mut terrain, Point::new(5, 5), Floor::Stone);
    for x in 4..=6 {
        for y in 4..=6 {
            let expected = if (x, y) == (5, 5) { Tile::Floor(Floor::Stone) } else { Tile::Wall };
            assert_eq!(terrain.get(Point::new(x, y)), Some(&expected));
        }
    }
    assert_eq!(terrain.points().len(), 9);
    // Floor next to it turns its wall into floor, and stays floor itself.
    make_floor(&mut terrain, Point::new(6, 5), Floor::Wood);
    assert_eq!(terrain.get(Point::new(5, 5)), Some(&Tile::Floor(Floor::Stone)));
    assert_eq!(terrain.get(Point::new(6, 5)), Some(&Tile::Floor(Floor::Wood)));
    assert_eq!(terrain.get(Point::new(7, 4)), Some(&Tile::Wall));
    assert_eq!(terrain.points().len(), 12);
    // Carving a tile again changes its material and nothing else.
    make_floor(&mut terrain, Point::new(5, 5), Floor::Grass);
    assert_eq!(terrain.get(Point::new(5, 5)), Some(&Tile::Floor(Floor::Grass)));
    assert_eq!(terrain.get(Point::new(6, 5)), Some(&Tile::Floor(Floor::Wood)));
    assert_eq!(terrain.points().len(), 12);
}

#[test]
fn a_carved_rectangle_is_floor_with_walls_around() {
    let mut terrain: PointMap<Tile> = PointMap::new();
    carve_rectangle(&mut terrain, rect(2, 3, 4, 2), Floor::Grass);
    for x in 1..=6 {
        for y in 2..=5 {
            let inside = (2..6).contains(&x) && (3..5).contains(&y);
            let expected = if inside { Tile::Floor(Floor::Grass) } else { Tile::Wall };
            assert_eq!(terrain.get(Point::new(x, y)), Some(&expected));
        }
    }
    assert_eq!(terrain.points().len(), 24);
    carve_rectangle(&mut terrain, rect(0, 0, 0, 5), Floor::Wood);
    assert_eq!(terrain.points().len(), 24);
}

#[test]
fn a_candidate_is_nudged_to_the_first_clear_position() {
    let region = rect(0, 0, 40, 40);
    let rooms = vec![Room { floor: rect(10, 10, 5, 5) }, Room { floor: rect(17, 10, 3, 3) }];
    // Clear already: it stays.
    let free = rect(30, 30, 4, 4);
    assert_eq!(nudge_until_clear(free, Vector::new(1, 0), &rooms, region), free);
    // Touching the first room: it moves right until it is past both.
    let moved = nudge_until_clear(rect(12, 11, 3, 3), Vector::new(1, 0), &rooms, region);
    assert_eq!(moved, rect(21, 11, 3, 3));
    // Moving up and left it is clear as soon as it lies above the room.
    let moved = nudge_until_clear(rect(12, 11, 3, 3), Vector::new(-1, -1), &rooms, region);
    assert_eq!(moved, rect(7, 6, 3, 3));
    // A candidate edge to edge with a room touches it.
    let moved = nudge_until_clear(rect(15, 12, 2, 2), Vector::new(0, 1), &rooms, region);
    assert_eq!(moved, rect(15, 16, 2, 2));
}

#[test]
fn a_candidate_is_cropped_to_the_region() {
    let region = rect(1, 1, 10, 10);
    assert_eq!(crop(rect(3, 3, 4, 4), region), rect(3, 3, 4, 4));
    assert_eq!(crop(rect(8, -2, 6, 5), region), rect(8, 1, 3, 2));
    assert_eq!(crop(rect(20, 3, 4, 4), region), rect(20, 3, 0, 0));
    assert_eq!(crop(rect(11, 3, 4, 4), region), rect(11, 3, 0, 0));
}

#[test]
fn the_floor_ratio_is_compared_exactly() {
    let ratio = FloorRatio { numer: 2, denom: 5 };
    assert!(below_ratio(0, 100, ratio));
    assert!(below_ratio(39, 100, ratio));
    assert!(!below_ratio(40, 100, ratio));
    assert!(!below_ratio(41, 100, ratio));
    assert!(!below_ratio(0, 0, ratio));
    assert!(!below_ratio(0, 100, FloorRatio { numer: 0, denom: 1 }));
    assert!(below_ratio(99, 100, FloorRatio { numer: 1, denom: 1 }));
}

#[test]
fn rooms_come_in_different_sizes_and_materials() {
    let mut widths = Vec::new();
    let mut wood = false;
    let mut grass = false;
    for seed in 0..20u64 {
        let mut rng = Pcg32::seed_from_u64(seed);
        let config = config(64, 36);
        let rooms = place_rooms(&config, &mut rng);
        let mut terrain: PointMap<Tile> = PointMap::new();
        carve_rooms(&mut terrain, &rooms, &config, &mut rng);
        for room in &rooms {
            assert!((3..=15).contains(&room.floor.size.x));
            assert!((3..=15).contains(&room.floor.size.y));
            if !widths.contains(&room.floor.size.x) {
                widths.push(room.floor.size.x);
            }
            match terrain.get(room.floor.pos) {
                Some(Tile::Floor(Floor::Wood)) => wood = true,
                Some(Tile::Floor(Floor::Grass)) => grass = true,
                other => panic!("{:?}", other),
            }
        }
    }
    assert!(widths.len() > 5);
    assert!(wood && grass);
}

#[test]
fn room_placement_reaches_the_ratio_or_gives_up() {
    for seed in 0..10u64 {
        let mut rng = Pcg32::seed_from_u64(seed);
        let config = config(64, 36);
        let rooms = place_rooms(&config, &mut rng);
        let area: i32 = rooms.iter().map(|r| r.floor.area()).sum();
        assert!(area <= 62 * 34);
    }
    // A region that takes one room at most still ends the placement.
    let mut rng = Pcg32::seed_from_u64(3);
    let tight = GenerationConfig {
        tileport: rect(5, 5, 6, 6),
        min_floor_ratio: FloorRatio { numer: 1, denom: 1 },
        min_room_size: 3,
        max_room_size: 4,
    };
    let rooms = place_rooms(&tight, &mut rng);
    assert!(rooms.len() <= 1);
}

#[test]
fn pairs_of_rooms_come_in_the_order_of_their_numbers() {
    let rooms = vec![
        Room { floor: rect(0, 0, 3, 3) },
        Room { floor: rect(10, 0, 3, 3) },
        Room { floor: rect(0, 10, 3, 3) },
    ];
    let pairs = room_pairs(&rooms);
    let numbers: Vec<(usize, usize)> = pairs.iter().map(|e| (e.i, e.j)).collect();
    assert_eq!(numbers, vec![(0, 0), (0, 1), (0, 2), (1, 1), (1, 2), (2, 2)]);
    assert_eq!(pairs[0].intersection, RectangleIntersection::Real(rect(0, 0, 3, 3)));
    assert_eq!(pairs[1].intersection, RectangleIntersection::Vertical(rect(3, 0, 7, 3)));
    assert_eq!(pairs[2].intersection, RectangleIntersection::Horizontal(rect(0, 3, 3, 7)));
    assert_eq!(pairs[4].intersection, RectangleIntersection::Disjoint(rect(3, 3, 7, 7)));
}

#[test]
fn corridors_run_through_the_gap_between_two_rooms() {
    let gap = rect(3, 5, 4, 6);
    assert_eq!(vertical_corridor(gap, 4), vec![Point::new(4, 5), Point::new(4, 10)]);
    assert_eq!(horizontal_corridor(gap, 7), vec![Point::new(3, 7), Point::new(6, 7)]);
    // The first room left of and above the second.
    let a = rect(0, 0, 3, 5);
    let b = rect(7, 11, 3, 3);
    assert_eq!(
        elbow_corridor(gap, a, b, true),
        vec![Point::new(2, 4), Point::new(2, 11), Point::new(7, 11)]
    );
    assert_eq!(
        elbow_corridor(gap, b, a, false),
        vec![Point::new(2, 4), Point::new(7, 4), Point::new(7, 11)]
    );
    // The first room left of and below the second.
    let a = rect(0, 11, 3, 3);
    let b = rect(7, 0, 3, 5);
    assert_eq!(
        elbow_corridor(gap, a, b, true),
        vec![Point::new(2, 11), Point::new(2, 4), Point::new(7, 4)]
    );
    assert_eq!(
        elbow_corridor(gap, a, b, false),
        vec![Point::new(2, 11), Point::new(7, 11), Point::new(7, 4)]
    );
}

#[test]
fn a_carved_corridor_is_stone_floor_from_waypoint_to_waypoint() {
    let mut terrain: PointMap<Tile> = PointMap::new();
    carve_line(&mut terrain, Point::new(0, 0), Point::new(3, 0));
    for x in 0..=3 {
        assert_eq!(terrain.get(Point::new(x, 0)), Some(&Tile::Floor(Floor::Stone)));
        assert_eq!(terrain.get(Point::new(x, 1)), Some(&Tile::Wall));
    }
    let mut terrain: PointMap<Tile> = PointMap::new();
    carve_corridor(&mut terrain, &vec![Point::new(2, 4), Point::new(2, 11), Point::new(7, 11)]);
    let floors = terrain.points().iter().filter(|p| is_floor(&terrain, p.x, p.y)).count();
    assert_eq!(floors, 8 + 5);
    assert!(is_floor(&terrain, 2, 7) && is_floor(&terrain, 5, 11) && !is_floor(&terrain, 7, 4));
    let mut terrain: PointMap<Tile> = PointMap::new();
    carve_corridor(&mut terrain, &vec![Point::new(1, 1)]);
    carve_corridor(&mut terrain, &Vec::new());
    assert_eq!(terrain.points().len(), 0);
}

#[test]
fn the_nearest_rooms_are_joined_first() {
    // Two tall rooms with a small one half way between them. Joined in the
    // order of distance, the tall rooms are never joined directly, so that
    // all corridors run through the rows of the small room.
    let rooms = vec![
        Room { floor: rect(2, 2, 4, 12) },
        Room { floor: rect(12, 7, 4, 3) },
        Room { floor: rect(24, 2, 4, 12) },
    ];
    for seed in 0..30u64 {
        let mut rng = Pcg32::seed_from_u64(seed);
        let config = config(32, 18);
        let mut terrain: PointMap<Tile> = PointMap::new();
        for room in &rooms {
            carve_rectangle(&mut terrain, room.floor, Floor::Wood);
        }
        connect_rooms(&mut terrain, &rooms, &config, &mut rng);
        let mut corridor = 0;
        for p in terrain.points() {
            if terrain.get(p) == Some(&Tile::Floor(Floor::Stone)) {
                corridor += 1;
                assert!((7..10).contains(&p.y), "{:?}", p);
                assert!((6..12).contains(&p.x) || (16..24).contains(&p.x), "{:?}", p);
            }
        }
        assert_eq!(corridor, 6 + 8);
    }
}

#[test]
fn rooms_apart_on_both_axes_are_joined_around_a_corner() {
    let rooms = vec![Room { floor: rect(2, 2, 3, 3) }, Room { floor: rect(10, 9, 3, 3) }];
    let mut first = false;
    let mut second = false;
    for seed in 0..40u64 {
        let mut rng = Pcg32::seed_from_u64(seed);
        let config = config(20, 20);
        let mut terrain: PointMap<Tile> = PointMap::new();
        for room in &rooms {
            carve_rectangle(&mut terrain, room.floor, Floor::Grass);
        }
        connect_rooms(&mut terrain, &rooms, &config, &mut rng);
        // From the corner (4, 4) to the corner (10, 9), by way of (4, 9) or
        // of (10, 4).
        if is_floor(&terrain, 4, 9) {
            first = true;
            assert!(is_floor(&terrain, 4, 7) && is_floor(&terrain, 7, 9));
            assert!(!is_floor(&terrain, 10, 4));
        } else {
            second = true;
            assert!(is_floor(&terrain, 10, 4));
            assert!(is_floor(&terrain, 7, 4) && is_floor(&terrain, 10, 7));
        }
    }
    assert!(first && second);
}
