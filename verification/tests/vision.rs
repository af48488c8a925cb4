use roguelike::geometry::Point;
use roguelike::vision::{get_vision, TilePredicate};

/// A grid drawn in text: `#` blocks sight, as does everything outside.
struct Grid {
    rows: Vec<&'static str>,
}

impl Grid {
    fn open(&self, x: i32, y: i32) -> bool {
        if y < 0 || y as usize >= self.rows.len() {
            return false;
        }
        let row = self.rows[y as usize].as_bytes();
        x >= 0 && (x as usize) < row.len() && row[x as usize] != b'#'
    }
}

impl TilePredicate for Grid {
    fn holds(&self, p: Point) -> bool {
        !self.open(p.x, p.y)
    }

    fn test(&self, p: &Point) -> bool {
        self.holds(*p)
    }
}

#[test]
fn open_room_is_seen_whole_from_its_center() {
    let grid = Grid { rows: vec![".....", ".....", ".....", ".....", "....."] };
    let vision = get_vision(Point::new(2, 2), &grid);
    for x in 0..5 {
        for y in 0..5 {
            assert!(vision.contains(Point::new(x, y)), "({}, {})", x, y);
        }
    }
    // What bounds the room is seen too, and nothing beyond it.
    for i in -1..=5 {
        assert!(vision.contains(Point::new(i, -1)));
        assert!(vision.contains(Point::new(i, 5)));
        assert!(vision.contains(Point::new(-1, i)));
        assert!(vision.contains(Point::new(5, i)));
    }
    assert!(!vision.contains(Point::new(-2, 2)));
    assert!(!vision.contains(Point::new(2, 6)));
    assert_eq!(vision.len(), 49);
}

#[test]
fn origin_is_always_seen() {
    let grid = Grid { rows: vec!["###", "#.#", "###"] };
    let vision = get_vision(Point::new(1, 1), &grid);
    assert!(vision.contains(Point::new(1, 1)));
    assert_eq!(vision.len(), 9);
}

#[test]
fn corridor_bend_hides_what_lies_around_it() {
    // A corridor one tile wide that runs east, then turns south.
    let grid = Grid {
        rows: vec![
            "#######",
            "#.....#",
            "#####.#",
            "#####.#",
            "#####.#",
            "#######",
        ],
    };
    let far_end = Point::new(1, 1);
    let midpoint = Point::new(5, 1);
    let around = Point::new(5, 4);
    assert!(!get_vision(far_end, &grid).contains(around));
    assert!(get_vision(midpoint, &grid).contains(around));
    assert!(get_vision(far_end, &grid).contains(midpoint));
}

#[test]
fn sight_is_symmetric_between_floor_tiles() {
    let grid = Grid {
        rows: vec![
            "..........",
            "..##......",
            "......#...",
            "...#......",
            "......##..",
            "..........",
            ".#....#...",
            "..........",
        ],
    };
    let mut floors = Vec::new();
    for y in 0..8 {
        for x in 0..10 {
            if grid.open(x, y) {
                floors.push(Point::new(x, y));
            }
        }
    }
    for a in &floors {
        let seen = get_vision(*a, &grid);
        for b in &floors {
            let back = get_vision(*b, &grid);
            assert_eq!(seen.contains(*b), back.contains(*a), "{:?} {:?}", a, b);
        }
    }
}

#[test]
fn walls_of_a_convex_room_are_all_seen() {
    let grid = Grid {
        rows: vec![
            "#########",
            "#.......#",
            "#.......#",
            "#.......#",
            "#########",
        ],
    };
    for origin in [Point::new(1, 1), Point::new(4, 2), Point::new(7, 3)] {
        let vision = get_vision(origin, &grid);
        for x in 0..9 {
            for y in 0..5 {
                assert!(vision.contains(Point::new(x, y)), "{:?} ({}, {})", origin, x, y);
            }
        }
    }
}

#[test]
fn sight_is_symmetric_on_scattered_walls() {
    // Grids of scattered walls, drawn by a small generator of its own.
    let mut state: u64 = 12345;
    let mut next = move || {
        state = state.wrapping_mul(6364136223846793005).wrapping_add(1442695040888963407);
        (state >> 33) as u32
    };
    for _ in 0..40 {
        let cells: Vec<Vec<bool>> =
            (0..6).map(|_| (0..7).map(|_| next() % 4 == 0).collect()).collect();
        let grid = Scatter { cells };
        for oy in 0..6 {
            for ox in 0..7 {
                if grid.wall(ox, oy) {
                    continue;
                }
                let seen = get_vision(Point::new(ox, oy), &grid);
                for y in 0..6 {
                    for x in 0..7 {
                        if !grid.wall(x, y) && seen.contains(Point::new(x, y)) {
                            let back = get_vision(Point::new(x, y), &grid);
                            assert!(back.contains(Point::new(ox, oy)));
                        }
                    }
                }
            }
        }
    }
}

struct Scatter {
    cells: Vec<Vec<bool>>,
}

impl Scatter {
    fn wall(&self, x: i32, y: i32) -> bool {
        if y < 0 || y as usize >= self.cells.len() || x < 0 || x as usize >= self.cells[0].len() {
            return true;
        }
        self.cells[y as usize][x as usize]
    }
}

impl TilePredicate for Scatter {
    fn holds(&self, p: Point) -> bool {
        self.wall(p.x, p.y)
    }

    fn test(&self, p: &Point) -> bool {
        self.holds(*p)
    }
}

#[test]
fn a_wall_is_seen_where_the_scan_reaches_it_and_nowhere_else() {
    let grid = Grid {
        rows: vec!["#...#..", "......#", ".#..#..", "#.....#", "..#..#.", "......."],
    };
    let seen = get_vision(Point::new(3, 0), &grid);
    // The wall at (4, 0) is seen though its center lies on no line of sight
    // that the walls before it leave open.
    assert!(seen.contains(Point::new(4, 0)));
    assert!(seen.contains(Point::new(4, 2)));
    // The floor at (5, 1) is seen past the wall at (4, 0); the wall beside
    // it, at (6, 1), is hidden behind that wall.
    assert!(seen.contains(Point::new(5, 1)));
    assert!(!seen.contains(Point::new(6, 1)));
    // Nothing is seen beyond what bounds the grid.
    for p in seen.points() {
        assert!((-1..=7).contains(&p.x) && (-1..=6).contains(&p.y));
    }
}

#[test]
fn a_wide_hall_is_seen_from_end_to_end() {
    let row: &'static str = "........................................";
    let grid = Grid { rows: vec![row, row, row] };
    let seen = get_vision(Point::new(0, 1), &grid);
    for x in 0..40 {
        for y in 0..3 {
            assert!(seen.contains(Point::new(x, y)));
        }
    }
    assert_eq!(seen.len(), 42 * 5);
}

/// A corridor one tile wide along the row 0, from the column 0 on.
struct Corridor {
    length: i32,
}

impl TilePredicate for Corridor {
    fn holds(&self, p: Point) -> bool {
        !(p.y == 0 && 0 <= p.x && p.x < self.length)
    }

    fn test(&self, p: &Point) -> bool {
        self.holds(*p)
    }
}

#[test]
fn a_long_corridor_is_seen_to_its_end() {
    let corridor = Corridor { length: 12_000 };
    let seen = get_vision(Point::new(0, 0), &corridor);
    for x in [0, 1, 2, 5_000, 11_998, 11_999, 12_000] {
        assert!(seen.contains(Point::new(x, 0)), "{}", x);
    }
    assert!(!seen.contains(Point::new(12_001, 0)));
    // Its walls are seen all along, and nothing behind them.
    assert!(seen.contains(Point::new(7_000, 1)));
    assert!(seen.contains(Point::new(7_000, -1)));
    assert!(!seen.contains(Point::new(7_000, 2)));
    assert_eq!(seen.len(), 3 * 12_002);
    // From the middle both ends are seen.
    let seen = get_vision(Point::new(6_000, 0), &corridor);
    assert!(seen.contains(Point::new(0, 0)) && seen.contains(Point::new(11_999, 0)));
}
