use rand::SeedableRng;
use rand_pcg::Pcg32;
use roguelike::geometry::{Point, Rectangle, Vector};
use roguelike::level::Level;
use roguelike::rooms::{place_rooms, FloorRatio, GenerationConfig};
use roguelike::terrain::Tile;

fn config() -> GenerationConfig {
    GenerationConfig {
        tileport: Rectangle { pos: Point::new(0, 0), size: Vector::new(64, 36) },
        min_floor_ratio: FloorRatio { numer: 2, denom: 5 },
        min_room_size: 3,
        max_room_size: 15,
    }
}

fn floor_tiles(level: &Level, region: Rectangle) -> Vec<Point> {
    let mut floors = Vec::new();
    for x in region.pos.x..region.pos.x + region.size.x {
        for y in region.pos.y..region.pos.y + region.size.y {
            if let Some(Tile::Floor(_)) = level.tile(Point::new(x, y)) {
                floors.push(Point::new(x, y));
            }
        }
    }
    floors
}

#[test]
fn rooms_neither_overlap_nor_touch() {
    for seed in 0..40u64 {
        let mut rng = Pcg32::seed_from_u64(seed);
        let config = config();
        let rooms = place_rooms(&config, &mut rng);
        assert!(!rooms.is_empty());
        let area: i32 = rooms.iter().map(|r| r.floor.area()).sum();
        // The ratio of two fifths is reached, or no more rooms fit.
        assert!(area * 5 >= 62 * 34 * 2 || rooms.len() >= 4);
        for (i, a) in rooms.iter().enumerate() {
            assert!(a.floor.size.x >= 3 && a.floor.size.y >= 3);
            assert!(a.floor.pos.x >= 1 && a.floor.pos.y >= 1);
            assert!(a.floor.pos.x + a.floor.size.x <= 63);
            assert!(a.floor.pos.y + a.floor.size.y <= 35);
            for b in rooms.iter().skip(i + 1) {
                assert!(!a.floor.touching(b.floor));
            }
        }
    }
}

#[test]
fn generated_floor_is_connected() {
    for seed in 0..20u64 {
        let mut rng = Pcg32::seed_from_u64(seed);
        let config = config();
        let level = Level::generate(config, &mut rng);
        let floors = floor_tiles(&level, config.tileport);
        assert!(!floors.is_empty());
        // Flood the floor from its first tile.
        let mut seen = vec![floors[0]];
        let mut next = 0;
        while next < seen.len() {
            let p = seen[next];
            next += 1;
            for (dx, dy) in [(0, -1), (0, 1), (-1, 0), (1, 0)] {
                let q = Point::new(p.x + dx, p.y + dy);
                if let Some(Tile::Floor(_)) = level.tile(q) {
                    if !seen.contains(&q) {
                        seen.push(q);
                    }
                }
            }
        }
        assert_eq!(seen.len(), floors.len());
    }
}

#[test]
fn generated_floor_is_walled_in() {
    let mut rng = Pcg32::seed_from_u64(7);
    let config = config();
    let level = Level::generate(config, &mut rng);
    for p in floor_tiles(&level, config.tileport) {
        assert!(p.x >= 1 && p.x < 63 && p.y >= 1 && p.y < 35);
        for dx in -1..=1 {
            for dy in -1..=1 {
                assert!(level.tile(Point::new(p.x + dx, p.y + dy)).is_some());
            }
        }
    }
    assert!(level.tile(Point::new(-1, 0)).is_none());
    assert!(level.tile(Point::new(64, 36)).is_none());
}
