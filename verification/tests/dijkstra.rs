use rand::SeedableRng;
use rand_pcg::Pcg32;
use roguelike::dijkstra_map::DijkstraMap;
use roguelike::geometry::{Point, Vector};
use roguelike::vision::TilePredicate;

/// A grid drawn in text: `#` cannot be walked on, nor can anything outside;
/// `G` is a goal.
struct Grid {
    rows: Vec<&'static str>,
}

impl Grid {
    fn at(&self, p: Point) -> u8 {
        if p.y < 0 || p.y as usize >= self.rows.len() {
            return b'#';
        }
        let row = self.rows[p.y as usize].as_bytes();
        if p.x < 0 || p.x as usize >= row.len() {
            b'#'
        } else {
            row[p.x as usize]
        }
    }

    fn tiles(&self) -> Vec<Point> {
        let mut tiles = Vec::new();
        for (y, row) in self.rows.iter().enumerate() {
            for x in 0..row.len() {
                tiles.push(Point::new(x as i32, y as i32));
            }
        }
        tiles
    }

    fn map(&self) -> DijkstraMap {
        DijkstraMap::new(&self.tiles(), &Goals { grid: self }, &Walls { grid: self })
    }
}

struct Goals<'a> {
    grid: &'a Grid,
}

impl<'a> TilePredicate for Goals<'a> {
    fn holds(&self, p: Point) -> bool {
        self.grid.at(p) == b'G'
    }

    fn test(&self, p: &Point) -> bool {
        self.holds(*p)
    }
}

struct Walls<'a> {
    grid: &'a Grid,
}

impl<'a> TilePredicate for Walls<'a> {
    fn holds(&self, p: Point) -> bool {
        self.grid.at(p) == b'#'
    }

    fn test(&self, p: &Point) -> bool {
        self.holds(*p)
    }
}

#[test]
fn distances_count_the_steps_to_the_nearest_goal() {
    let grid = Grid { rows: vec!["G...", ".#..", "...G"] };
    let map = grid.map();
    let expected = [[0, 1, 2, 2], [1, -1, 2, 1], [2, 2, 1, 0]];
    for y in 0..3 {
        for x in 0..4 {
            let d = map.distance(Point::new(x, y));
            if expected[y as usize][x as usize] < 0 {
                assert_eq!(d, None);
            } else {
                assert_eq!(d, Some(expected[y as usize][x as usize]));
            }
        }
    }
    assert_eq!(map.distance(Point::new(-1, 0)), None);
    assert_eq!(map.distance(Point::new(4, 2)), None);
}

#[test]
fn tiles_cut_off_from_every_goal_have_no_distance() {
    let grid = Grid { rows: vec!["G.#..", "..#..", "###.."] };
    let map = grid.map();
    assert_eq!(map.distance(Point::new(1, 1)), Some(2));
    assert_eq!(map.distance(Point::new(3, 0)), None);
    assert_eq!(map.distance(Point::new(4, 2)), None);
    // Without a goal there is no distance at all.
    let empty = Grid { rows: vec!["...", "..."] }.map();
    assert_eq!(empty.distance(Point::new(1, 1)), None);
}

#[test]
fn a_goal_counts_even_where_it_cannot_be_walked_on() {
    struct Corner;
    impl TilePredicate for Corner {
        fn holds(&self, p: Point) -> bool {
            p.x == 0 && p.y == 0
        }
        fn test(&self, p: &Point) -> bool {
            self.holds(*p)
        }
    }
    let grid = Grid { rows: vec!["#..", "..."] };
    let map = DijkstraMap::new(&grid.tiles(), &Corner, &Walls { grid: &grid });
    assert_eq!(map.distance(Point::new(0, 0)), Some(0));
    assert_eq!(map.distance(Point::new(1, 0)), Some(1));
    assert_eq!(map.distance(Point::new(2, 1)), Some(3));
}

#[test]
fn every_tile_has_a_neighbor_one_step_nearer() {
    let grid = Grid {
        rows: vec![
            "..........",
            ".####.##..",
            ".#..#..#..",
            ".#G.#..#.G",
            ".#..#.##..",
            ".##.#.....",
            "..........",
        ],
    };
    let map = grid.map();
    let mut reached = 0;
    for p in grid.tiles() {
        if let Some(d) = map.distance(p) {
            reached += 1;
            if d > 0 {
                let nearer = [(0, -1), (0, 1), (-1, 0), (1, 0)]
                    .iter()
                    .any(|(dx, dy)| map.distance(Point::new(p.x + dx, p.y + dy)) == Some(d - 1));
                assert!(nearer, "{:?}", p);
            } else {
                assert_eq!(grid.at(p), b'G');
            }
        }
    }
    assert_eq!(reached, 70 - 19);
}

#[test]
fn distance_grows_with_every_step_away_from_the_far_room() {
    // Two rooms joined by one corridor, the right room being the goal.
    let grid = Grid {
        rows: vec![
            "...######GGG",
            ".........GGG",
            "...######GGG",
        ],
    };
    let map = grid.map();
    for x in 0..=8 {
        assert_eq!(map.distance(Point::new(x, 1)), Some(9 - x as isize));
    }
    assert_eq!(map.distance(Point::new(0, 0)), Some(10));
    assert_eq!(map.distance(Point::new(0, 2)), Some(10));
    assert_eq!(map.distance(Point::new(10, 1)), Some(0));
    assert_eq!(map.distance(Point::new(5, 0)), None);
}

#[test]
fn steps_lead_to_the_best_neighbors_only() {
    let grid = Grid { rows: vec!["....", ".G..", "...."] };
    let map = grid.map();
    // From the corner two neighbors are equally near.
    assert_eq!(
        map.step_candidates(Point::new(2, 2), false),
        vec![Vector::new(0, -1), Vector::new(-1, 0)]
    );
    assert_eq!(
        map.step_candidates(Point::new(2, 2), true),
        vec![Vector::new(1, 0)]
    );
    // Beside the goal one step leads to it.
    assert_eq!(map.step_candidates(Point::new(1, 0), false), vec![Vector::new(0, 1)]);
    // At the goal no neighbor is nearer; away from it all four are farther.
    assert_eq!(map.step_candidates(Point::new(1, 1), false), Vec::<Vector>::new());
    assert_eq!(map.step_candidates(Point::new(1, 1), true).len(), 4);
    // At the far corner no neighbor is farther.
    assert_eq!(map.step_candidates(Point::new(3, 2), true), Vec::<Vector>::new());
    // A neighbor that is as far as the tile itself is no improvement.
    let pair = Grid { rows: vec!["G..G"] }.map();
    assert_eq!(pair.step_candidates(Point::new(1, 0), false), vec![Vector::new(-1, 0)]);
    assert_eq!(pair.step_candidates(Point::new(1, 0), true), Vec::<Vector>::new());
}

#[test]
fn a_tile_without_a_distance_steps_to_any_tile_that_has_one() {
    let grid = Grid { rows: vec!["G.#"] };
    let map = grid.map();
    assert_eq!(map.distance(Point::new(2, 0)), None);
    assert_eq!(map.step_candidates(Point::new(2, 0), false), vec![Vector::new(-1, 0)]);
    assert_eq!(map.step_candidates(Point::new(2, 0), true), vec![Vector::new(-1, 0)]);
    assert_eq!(map.step_candidates(Point::new(9, 9), false), Vec::<Vector>::new());
    let mut rng = Pcg32::seed_from_u64(1);
    assert_eq!(map.step_towards(Point::new(9, 9), &mut rng), None);
    assert_eq!(map.step_away(Point::new(9, 9), &mut rng), None);
}

#[test]
fn ties_are_broken_at_random() {
    let grid = Grid { rows: vec!["....", ".G..", "...."] };
    let map = grid.map();
    let mut rng = Pcg32::seed_from_u64(2024);
    let mut up = 0;
    let mut left = 0;
    for _ in 0..400 {
        match map.step_towards(Point::new(2, 2), &mut rng) {
            Some(v) if v == Vector::new(0, -1) => up += 1,
            Some(v) if v == Vector::new(-1, 0) => left += 1,
            other => panic!("{:?}", other),
        }
    }
    assert!(up > 100 && left > 100, "{} {}", up, left);
    for _ in 0..20 {
        assert_eq!(map.step_away(Point::new(2, 2), &mut rng), Some(Vector::new(1, 0)));
        assert_eq!(map.step_towards(Point::new(1, 1), &mut rng), None);
    }
}
