use rand::SeedableRng;
use rand_pcg::Pcg32;
use roguelike::creature::{Behavior, Creature, Faction, Intent, Species, Stats};
use roguelike::game_state::{command, Action, Command, GameState, Key};
use roguelike::geometry::{Point, Rectangle, Vector};
use roguelike::level::{Attack, Collision, Level};
use roguelike::rooms::{FloorRatio, GenerationConfig};
use roguelike::terrain::Tile;
use roguelike::vision::TilePredicate;

fn config() -> GenerationConfig {
    GenerationConfig {
        tileport: Rectangle { pos: Point::new(0, 0), size: Vector::new(48, 30) },
        min_floor_ratio: FloorRatio { numer: 2, denom: 5 },
        min_room_size: 3,
        max_room_size: 10,
    }
}

fn level(seed: u64) -> (Level, Pcg32) {
    let mut rng = Pcg32::seed_from_u64(seed);
    let level = Level::generate(config(), &mut rng);
    (level, rng)
}

/// Two floor tiles side by side, the second to the right of the first, with
/// floor above both.
fn open_spot(level: &Level) -> Point {
    for y in 1..29 {
        for x in 1..46 {
            let floor = |dx: i32, dy: i32| {
                matches!(level.tile(Point::new(x + dx, y + dy)), Some(Tile::Floor(_)))
            };
            if floor(0, 0) && floor(1, 0) && floor(2, 0) && floor(0, 1) && floor(1, 1) {
                return Point::new(x, y);
            }
        }
    }
    panic!("no open spot");
}

fn goblin(coords: Point) -> Creature {
    Creature::new(Faction::Enemy, Species::Goblin, Behavior::Patrolling, coords)
}

fn human(coords: Point) -> Creature {
    Creature::new(Faction::Ally, Species::Human, Behavior::Idle, coords)
}

#[test]
fn creatures_start_with_the_stats_of_their_species() {
    let at = Point::new(3, 4);
    let c = Creature::new(Faction::Ally, Species::Human, Behavior::Idle, at);
    assert_eq!(c.stats, Stats { health: 10, strength: 2 });
    assert_eq!((c.faction, c.species, c.behavior, c.coords), (Faction::Ally, Species::Human, Behavior::Idle, at));
    assert_eq!(Species::Goblin.base_stats(), Stats { health: 5, strength: 1 });
    assert_eq!(Species::Ogre.base_stats(), Stats { health: 15, strength: 3 });
}

#[test]
fn damage_takes_health_down_to_zero_and_no_further() {
    let mut c = goblin(Point::new(0, 0));
    assert!(!c.dead());
    c.take_damage(2);
    assert_eq!(c.stats.health, 3);
    c.take_damage(0);
    assert_eq!(c.stats.health, 3);
    c.take_damage(3);
    assert!(c.dead());
    c.take_damage(u32::MAX);
    assert_eq!(c.stats.health, 0);
    let mut c = goblin(Point::new(0, 0));
    c.take_damage(6);
    assert!(c.dead());
}

#[test]
fn a_fresh_level_has_no_creatures_and_nothing_seen() {
    let (level, _) = level(1);
    assert_eq!(level.unoccupied_coords().len(), {
        let mut floors = 0;
        for x in 0..48 {
            for y in 0..30 {
                if let Some(Tile::Floor(_)) = level.tile(Point::new(x, y)) {
                    floors += 1;
                }
            }
        }
        floors
    });
    assert!(!level.is_on_map(0));
    assert!(!level.sees(open_spot(&level)));
    assert_eq!(level.memory_of(open_spot(&level)), None);
    assert!(level.dijkstra_maps().enemies(Faction::Ally).is_none());
    assert!(level.dijkstra_maps().enemies(Faction::Enemy).is_none());
}

#[test]
fn collisions_tell_what_stands_in_the_way() {
    let (mut level, _) = level(2);
    let spot = open_spot(&level);
    assert_eq!(level.collision(&Point::new(-5, 3)), Some(Collision::OutOfBounds));
    assert_eq!(level.collision(&Point::new(0, 0)).is_some(), true);
    let mut wall = None;
    for x in 0..48 {
        if level.tile(Point::new(x, spot.y)) == Some(Tile::Wall) {
            wall = Some(Point::new(x, spot.y));
        }
    }
    assert_eq!(level.collision(&wall.unwrap()), Some(Collision::Tile(Tile::Wall)));
    assert_eq!(level.collision(&spot), None);
    assert_eq!(level.spawn(goblin(spot)), Ok(0));
    assert_eq!(level.collision(&spot), Some(Collision::Object(0)));
    assert!(level.is_on_map(0));
    assert_eq!(level.creature(0), goblin(spot));
    assert!(!level.unoccupied_coords().contains(&spot));
}

#[test]
fn spawning_fails_where_something_stands_in_the_way() {
    let (mut level, _) = level(3);
    let spot = open_spot(&level);
    assert_eq!(level.spawn(goblin(Point::new(100, 100))), Err(Collision::OutOfBounds));
    assert_eq!(level.spawn(goblin(spot)), Ok(0));
    assert_eq!(level.spawn(human(spot)), Err(Collision::Object(0)));
    assert_eq!(level.spawn(human(Point::new(spot.x + 1, spot.y))), Ok(1));
    assert!(!level.is_on_map(2));
}

#[test]
fn the_player_is_spawned_on_a_free_floor_tile() {
    let mut places = Vec::new();
    for seed in 0..10u64 {
        let (mut level, mut rng) = level(4);
        let blocked = open_spot(&level);
        assert_eq!(level.spawn(goblin(blocked)), Ok(0));
        let mut rng2 = Pcg32::seed_from_u64(seed);
        let id = level.spawn_player(&mut rng2);
        assert_eq!(id, 1);
        let player = level.creature(id);
        assert_eq!((player.faction, player.species, player.behavior), (Faction::Ally, Species::Human, Behavior::Idle));
        assert_eq!(player.stats, Stats { health: 10, strength: 2 });
        assert!(matches!(level.tile(player.coords), Some(Tile::Floor(_))));
        assert!(player.coords != blocked);
        assert_eq!(level.collision(&player.coords), Some(Collision::Object(1)));
        if !places.contains(&player.coords) {
            places.push(player.coords);
        }
        let _ = &mut rng;
    }
    assert!(places.len() > 3);
}

#[test]
fn a_creature_moves_where_nothing_stands_in_the_way() {
    let (mut level, _) = level(5);
    let spot = open_spot(&level);
    let right = Point::new(spot.x + 1, spot.y);
    assert_eq!(level.spawn(goblin(spot)), Ok(0));
    // Going nowhere changes nothing.
    assert_eq!(level.move_creature(0, spot), None);
    assert_eq!(level.creature(0).coords, spot);
    assert_eq!(level.move_creature(0, right), None);
    assert_eq!(level.creature(0).coords, right);
    assert_eq!(level.collision(&spot), None);
    assert_eq!(level.collision(&right), Some(Collision::Object(0)));
    assert_eq!(level.translate_creature(0, Vector::new(-1, 0)), None);
    assert_eq!(level.creature(0).coords, spot);
    // Out of the level there is no going.
    assert_eq!(level.move_creature(0, Point::new(-1, -1)), None);
    assert_eq!(level.creature(0).coords, spot);
}

#[test]
fn walls_and_friends_stop_a_creature() {
    let (mut level, _) = level(6);
    let spot = open_spot(&level);
    let right = Point::new(spot.x + 1, spot.y);
    assert_eq!(level.spawn(goblin(spot)), Ok(0));
    assert_eq!(level.spawn(goblin(right)), Ok(1));
    assert_eq!(level.move_creature(0, right), None);
    assert_eq!(level.creature(0).coords, spot);
    assert_eq!(level.creature(1), goblin(right));
    let mut wall = None;
    for x in 0..48 {
        if level.tile(Point::new(x, spot.y)) == Some(Tile::Wall) {
            wall = Some(Point::new(x, spot.y));
        }
    }
    assert_eq!(level.move_creature(0, wall.unwrap()), None);
    assert_eq!(level.creature(0).coords, spot);
}

#[test]
fn a_creature_attacks_a_foe_that_stands_in_its_way() {
    let (mut level, _) = level(7);
    let spot = open_spot(&level);
    let right = Point::new(spot.x + 1, spot.y);
    assert_eq!(level.spawn(human(spot)), Ok(0));
    assert_eq!(level.spawn(goblin(right)), Ok(1));
    // A human deals 2 damage; a goblin has 5 health.
    let hit = Attack { attacker: 0, defender: 1, damage: 2, killed: false };
    assert_eq!(level.move_creature(0, right), Some(hit));
    assert_eq!(level.creature(0).coords, spot);
    assert_eq!(level.creature(1).stats.health, 3);
    assert_eq!(level.translate_creature(0, Vector::new(1, 0)), Some(hit));
    assert_eq!(level.creature(1).stats.health, 1);
    assert!(level.is_on_map(1));
    let kill = Attack { attacker: 0, defender: 1, damage: 2, killed: true };
    assert_eq!(level.move_creature(0, right), Some(kill));
    assert!(level.creature(1).dead());
    assert!(!level.is_on_map(1));
    assert_eq!(level.collision(&right), None);
    // The way is free now.
    assert_eq!(level.move_creature(0, right), None);
    assert_eq!(level.creature(0).coords, right);
    // The goblin hits back for 1.
    let (mut level, _) = self::level(7);
    assert_eq!(level.spawn(human(spot)), Ok(0));
    assert_eq!(level.spawn(goblin(right)), Ok(1));
    let back = Attack { attacker: 1, defender: 0, damage: 1, killed: false };
    assert_eq!(level.move_creature(1, spot), Some(back));
    assert_eq!(level.creature(0).stats.health, 9);
}

#[test]
fn what_is_seen_is_remembered() {
    let (mut level, _) = level(8);
    let spot = open_spot(&level);
    level.update_vision(spot);
    assert!(level.sees(spot));
    assert!(level.sees(Point::new(spot.x + 1, spot.y)));
    assert_eq!(level.memory_of(spot), level.tile(spot));
    let mut seen = 0;
    let mut unseen = None;
    for x in -1..49 {
        for y in -1..31 {
            let p = Point::new(x, y);
            if level.sees(p) {
                seen += 1;
                assert_eq!(level.memory_of(p), level.tile(p));
            } else {
                assert_eq!(level.memory_of(p), None);
                if let Some(Tile::Floor(_)) = level.tile(p) {
                    unseen = Some(p);
                }
            }
        }
    }
    assert!(seen >= 9);
    // Seen from elsewhere, what was seen before is remembered still.
    let elsewhere = unseen.expect("a floor tile out of sight");
    level.update_vision(elsewhere);
    assert!(level.sees(elsewhere));
    assert_eq!(level.memory_of(elsewhere), level.tile(elsewhere));
    assert_eq!(level.memory_of(spot), level.tile(spot));
}

#[test]
fn the_maps_lead_each_faction_to_the_other() {
    let (mut level, _) = level(9);
    let spot = open_spot(&level);
    let right = Point::new(spot.x + 2, spot.y);
    assert_eq!(level.spawn(human(spot)), Ok(0));
    assert_eq!(level.spawn(goblin(right)), Ok(1));
    level.update_dijkstra_maps();
    let to_goblins = level.dijkstra_maps().enemies(Faction::Ally).unwrap();
    assert_eq!(to_goblins.distance(right), Some(0));
    assert_eq!(to_goblins.distance(Point::new(spot.x + 1, spot.y)), Some(1));
    // Allies are passed through, so the human's own tile has its distance.
    assert_eq!(to_goblins.distance(spot), Some(2));
    let to_humans = level.dijkstra_maps().enemies(Faction::Enemy).unwrap();
    assert_eq!(to_humans.distance(spot), Some(0));
    assert_eq!(to_humans.distance(right), Some(2));
    assert_eq!(to_humans.distance(Point::new(-1, -1)), None);
}

#[test]
fn the_predicates_of_a_level_tell_floor_and_foes() {
    let (mut level, _) = level(10);
    let spot = open_spot(&level);
    assert_eq!(level.spawn(goblin(spot)), Ok(0));
    level.update_dijkstra_maps();
    // What the maps were built from shows in them: a goblin is a goal for
    // allies and none for enemies.
    assert_eq!(level.dijkstra_maps().enemies(Faction::Ally).unwrap().distance(spot), Some(0));
    assert_eq!(level.dijkstra_maps().enemies(Faction::Enemy).unwrap().distance(spot), None);
    struct Nowhere;
    impl TilePredicate for Nowhere {
        fn holds(&self, _: Point) -> bool {
            false
        }
        fn test(&self, p: &Point) -> bool {
            self.holds(*p)
        }
    }
    assert!(!Nowhere.test(&spot));
}

#[test]
fn an_idle_creature_stays_and_a_patrolling_one_goes() {
    let (mut level, mut rng) = level(11);
    let spot = open_spot(&level);
    let idle = human(spot);
    assert_eq!(idle.act(None, &mut rng), None);
    assert_eq!(idle.intent(None, Some(Vector::new(1, 0))), Intent::Stay);
    let patrol = goblin(spot);
    assert_eq!(patrol.intent(None, None), Intent::Wander);
    let step = patrol.act(None, &mut rng).unwrap();
    assert_eq!(step.x.abs() + step.y.abs(), 1);
    // With a human two tiles to the right the goblin goes right.
    assert_eq!(level.spawn(patrol), Ok(0));
    assert_eq!(level.spawn(human(Point::new(spot.x + 2, spot.y))), Ok(1));
    level.update_dijkstra_maps();
    let map = level.dijkstra_maps().enemies(Faction::Enemy);
    assert_eq!(patrol.intent(map, Some(Vector::new(1, 0))), Intent::Pursue(Vector::new(1, 0)));
    assert_eq!(patrol.intent(map, None), Intent::Stay);
    for _ in 0..10 {
        assert_eq!(patrol.act(map, &mut rng), Some(Vector::new(1, 0)));
    }
    // Down to its last point of health it flees instead.
    let mut weak = patrol;
    weak.take_damage(4);
    for _ in 0..10 {
        let step = weak.act(map, &mut rng).unwrap();
        assert!(step != Vector::new(1, 0));
    }
}

#[test]
fn a_turn_lets_the_creatures_close_in_and_strike() {
    let (mut level, mut rng) = level(12);
    let spot = open_spot(&level);
    assert_eq!(level.spawn(human(spot)), Ok(0));
    assert_eq!(level.spawn(goblin(Point::new(spot.x + 2, spot.y))), Ok(1));
    level.update_dijkstra_maps();
    // The goblin steps next to the human; the human idles.
    assert_eq!(level.update(&mut rng), Vec::<Attack>::new());
    assert_eq!(level.creature(1).coords, Point::new(spot.x + 1, spot.y));
    assert_eq!(level.creature(0).coords, spot);
    // Then it strikes.
    level.update_dijkstra_maps();
    assert_eq!(
        level.update(&mut rng),
        vec![Attack { attacker: 1, defender: 0, damage: 1, killed: false }]
    );
    assert_eq!(level.creature(0).stats.health, 9);
}

#[test]
fn keys_are_turned_into_commands() {
    let wait = Command { quit: false, action: Some(Action::Wait) };
    assert_eq!(command(Key::Space, false), wait);
    assert_eq!(command(Key::Z, false), wait);
    let go = |x, y| Command { quit: false, action: Some(Action::Move { offset: Vector::new(x, y) }) };
    assert_eq!(command(Key::Up, false), go(0, -1));
    assert_eq!(command(Key::Down, false), go(0, 1));
    assert_eq!(command(Key::Left, false), go(-1, 0));
    assert_eq!(command(Key::Right, false), go(1, 0));
    assert_eq!(command(Key::Other, false), Command { quit: false, action: None });
    assert_eq!(command(Key::Escape, false), Command { quit: true, action: None });
    assert_eq!(command(Key::Escape, true), Command { quit: true, action: None });
    assert_eq!(command(Key::Up, true), Command { quit: false, action: None });
}

#[test]
fn a_turn_of_the_game_moves_the_player_and_updates_what_it_sees() {
    let (mut level, rng) = level(13);
    let spot = open_spot(&level);
    assert_eq!(level.spawn(human(spot)), Ok(0));
    assert_eq!(level.spawn(goblin(Point::new(spot.x + 2, spot.y))), Ok(1));
    let mut game = GameState { rng, player: 0, level };
    // Waiting lets the goblin come.
    assert_eq!(game.act(Action::Wait), Vec::<Attack>::new());
    assert_eq!(game.level.creature(1).coords, Point::new(spot.x + 1, spot.y));
    assert!(game.level.sees(spot));
    assert!(game.level.sees(Point::new(spot.x + 1, spot.y)));
    // Walking into it is an attack, and it strikes back.
    let attacks = game.act(Action::Move { offset: Vector::new(1, 0) });
    assert_eq!(
        attacks,
        vec![
            Attack { attacker: 0, defender: 1, damage: 2, killed: false },
            Attack { attacker: 1, defender: 0, damage: 1, killed: false },
        ]
    );
    assert_eq!(game.level.creature(0).coords, spot);
    // Walking away is a move.
    let attacks = game.act(Action::Move { offset: Vector::new(0, 1) });
    assert_eq!(game.level.creature(0).coords, Point::new(spot.x, spot.y + 1));
    assert!(attacks.len() <= 1);
    assert!(game.level.sees(Point::new(spot.x, spot.y + 1)));
}
