//! A level: its tiles, the creatures on them, and what the player sees and
//! remembers of it.
use crate::connectivity::all_connected;
use crate::connectivity::connected;
use crate::connectivity::floor_kept;
use crate::connectivity::lemma_connected_kept;
use crate::connectivity::lemma_rectangle_connected;
use crate::corridors::anchor;
use crate::corridors::attached;
use crate::corridors::connect_rooms;
use crate::corridors::opened;
use crate::creature::Behavior;
use crate::creature::Creature;
use crate::creature::Faction;
use crate::creature::Species;
use crate::dijkstra_map::inner;
use crate::dijkstra_map::is_distance_field;
use crate::dijkstra_map::moved;
use crate::dijkstra_map::DijkstraMap;
use crate::geometry::Point;
use crate::geometry::Rectangle;
use crate::geometry::Vector;
use crate::point_map::PointMap;
use crate::point_map::PointSet;
use crate::random::choose_one;
use crate::random::random_bool;
use crate::rooms::place_rooms;
use crate::rooms::roomy;
use crate::rooms::well_placed;
use crate::rooms::within;
use crate::rooms::GenerationConfig;
use crate::rooms::Room;
use crate::terrain::adjacent_eight;
use crate::terrain::carve_rectangle;
use crate::terrain::carved;
use crate::terrain::is_floor;
use crate::terrain::lemma_carved_walled;
use crate::terrain::points_of;
use crate::terrain::walled;
use crate::terrain::Floor;
use crate::terrain::Tile;
use crate::vision::chebyshev;
use crate::vision::get_vision;
use crate::vision::sight_ends;
use crate::vision::visible;
use crate::vision::TilePredicate;
use crate::vision::MAX_SIGHT;
use rand_pcg::Pcg32;
use vstd::prelude::*;

verus! {

/// Whether every tile is a floor tile or lies next to one: walls stand only
/// where they bound floor.
pub open spec fn snug(tiles: Map<Point, Tile>) -> bool {
    forall|p: Point| #[trigger]
        tiles.contains_key(p) ==> is_floor(tiles, p) || exists|q: Point|
            is_floor(tiles, q) && #[trigger] adjacent_eight(q, p)
}

/// Whether every floor tile of `tiles` lies in `region`.
pub open spec fn floor_within(tiles: Map<Point, Tile>, region: Rectangle) -> bool {
    forall|p: Point| #[trigger] is_floor(tiles, p) ==> region.contains(p)
}

/// Whether every floor tile of `tiles` is a tile of one of `rooms`.
pub open spec fn only_rooms(tiles: Map<Point, Tile>, rooms: Seq<Room>) -> bool {
    forall|p: Point| #[trigger]
        is_floor(tiles, p) ==> exists|r: int|
            0 <= r < rooms.len() && (#[trigger] rooms[r]).floor.contains(p)
}

/// Carving floor keeps walls next to floor.
pub proof fn lemma_carved_snug(tiles: Map<Point, Tile>, cut: Set<Point>, floor: Floor)
    requires
        snug(tiles),
    ensures
        snug(carved(tiles, cut, floor)),
{
    let after = carved(tiles, cut, floor);
    assert forall|p: Point| #[trigger] after.contains_key(p) implies is_floor(after, p) || exists|
        q: Point,
    |
        is_floor(after, q) && #[trigger] adjacent_eight(q, p) by {
        if cut.contains(p) {
        } else if tiles.contains_key(p) {
            if !is_floor(tiles, p) {
                let q = choose|q: Point| is_floor(tiles, q) && #[trigger] adjacent_eight(q, p);
                assert(is_floor(after, q) && adjacent_eight(q, p));
            }
        } else {
            let q = choose|q: Point| cut.contains(q) && #[trigger] adjacent_eight(q, p);
            assert(is_floor(after, q) && adjacent_eight(q, p));
        }
    }
}

/// What holds once the floor of the room `k` has been opened, the rooms
/// before it being open already.
proof fn lemma_room_opened(
    before: Map<Point, Tile>,
    now: Map<Point, Tile>,
    rooms: Seq<Room>,
    region: Rectangle,
    k: int,
    floor: Floor,
)
    requires
        well_placed(rooms, region, 1),
        0 <= k < rooms.len(),
        opened(before, rooms.subrange(0, k)),
        attached(before, rooms.subrange(0, k)),
        floor_within(before, region),
        only_rooms(before, rooms.subrange(0, k)),
        now == carved(before, points_of(rooms[k].floor), floor),
    ensures
        opened(now, rooms.subrange(0, k + 1)),
        attached(now, rooms.subrange(0, k + 1)),
        floor_within(now, region),
        only_rooms(now, rooms.subrange(0, k + 1)),
        floor_kept(before, now),
{
    reveal(opened);
    reveal(attached);
    let done = rooms.subrange(0, k);
    let more = rooms.subrange(0, k + 1);
    let area = rooms[k].floor;
    assert(within(area, region));
    assert forall|p: Point| #[trigger] is_floor(now, p) implies exists|r: int|
        0 <= r < more.len() && (#[trigger] more[r]).floor.contains(p) by {
        if area.contains(p) {
            assert(more[k] == rooms[k]);
            assert(0 <= k < more.len() && more[k].floor.contains(p));
        } else {
            assert(is_floor(before, p));
            let r = choose|r: int| 0 <= r < done.len() && (#[trigger] done[r]).floor.contains(p);
            assert(more[r] == done[r]);
            assert(0 <= r < more.len() && more[r].floor.contains(p));
        }
    }
    assert forall|p: Point| #[trigger] is_floor(now, p) implies region.contains(p) by {
        if !area.contains(p) {
            assert(is_floor(before, p));
        }
    }
    assert forall|r: int, p: Point|
        0 <= r < more.len() && (#[trigger] more[r]).floor.contains(p) implies #[trigger] is_floor(
        now,
        p,
    ) by {
        if r < k {
            assert(done[r] == more[r]);
            assert(is_floor(before, p));
        }
    }
    assert forall|p: Point| #[trigger] is_floor(now, p) implies exists|r: int|
        0 <= r < more.len() && connected(now, p, anchor(#[trigger] more[r])) by {
        if area.contains(p) {
            assert forall|q: Point| area.contains(q) implies is_floor(now, q) by {}
            lemma_rectangle_connected(now, area, p, area.pos);
            assert(more[k] == rooms[k]);
            assert(0 <= k < more.len() && connected(now, p, anchor(more[k])));
        } else {
            assert(is_floor(before, p));
            let r = choose|r: int|
                0 <= r < done.len() && connected(before, p, anchor(#[trigger] done[r]));
            lemma_connected_kept(before, now, p, anchor(done[r]));
            assert(more[r] == done[r]);
            assert(0 <= r < more.len() && connected(now, p, anchor(more[r])));
        }
    }
}

/// Opens the floor of each room, in one of two materials drawn per room.
///
/// Whatever is drawn, the tiles of the rooms, and no others, are floor
/// afterwards, each with tiles all around it.
pub fn carve_rooms(
    terrain: &mut PointMap<Tile>,
    rooms: &Vec<Room>,
    config: &GenerationConfig,
    rng: &mut Pcg32,
)
    requires
        config.valid(),
        well_placed(rooms@, config.spec_floor_region(), 1),
        old(terrain)@ == Map::<Point, Tile>::empty(),
    ensures
        opened(final(terrain)@, rooms@),
        only_rooms(final(terrain)@, rooms@),
        attached(final(terrain)@, rooms@),
        walled(final(terrain)@),
        snug(final(terrain)@),
        floor_within(final(terrain)@, config.spec_floor_region()),
{
    let ghost region = config.spec_floor_region();
    proof {
        config.lemma_floor_region();
        assert(opened(terrain@, rooms@.subrange(0, 0))) by {
            reveal(opened);
        }
        assert(attached(terrain@, rooms@.subrange(0, 0))) by {
            reveal(attached);
        }
    }
    let mut k: usize = 0;
    while k < rooms.len()
        invariant
            k <= rooms@.len(),
            region == config.spec_floor_region(),
            roomy(region),
            well_placed(rooms@, region, 1),
            opened(terrain@, rooms@.subrange(0, k as int)),
            only_rooms(terrain@, rooms@.subrange(0, k as int)),
            attached(terrain@, rooms@.subrange(0, k as int)),
            walled(terrain@),
            snug(terrain@),
            floor_within(terrain@, region),
        decreases rooms@.len() - k,
    {
        let floor = if random_bool(rng) {
            Floor::Wood
        } else {
            Floor::Grass
        };
        let ghost before = terrain@;
        let area = rooms[k].floor;
        assert(within(rooms@[k as int].floor, region));
        carve_rectangle(terrain, area, floor);
        proof {
            lemma_room_opened(before, terrain@, rooms@, region, k as int, floor);
            lemma_carved_walled(before, points_of(area), floor);
            lemma_carved_snug(before, points_of(area), floor);
        }
        k = k + 1;
    }
    proof {
        assert(rooms@.subrange(0, rooms@.len() as int) =~= rooms@);
    }
}

/// What stands in the way at a point of a level.
#[derive(Clone, Copy, PartialEq, Eq, Debug, Structural)]
pub enum Collision {
    /// The point lies outside the level.
    OutOfBounds,
    /// A tile that cannot be walked on.
    Tile(Tile),
    /// The creature with the given number.
    Object(usize),
}

/// What came of an attack.
#[derive(Clone, Copy, PartialEq, Eq, Debug, Structural)]
pub struct Attack {
    /// The number of the creature that attacked.
    pub attacker: usize,
    /// The number of the creature that was attacked.
    pub defender: usize,
    /// The damage that was dealt.
    pub damage: u32,
    /// Whether the defender died, and left the map.
    pub killed: bool,
}

/// A set of Dijkstra maps for points of interest within a [`Level`].
pub struct DijkstraMaps {
    /// The way to the enemies of the allies.
    pub ally: Option<DijkstraMap>,
    /// The way to the enemies of the enemies.
    pub enemy: Option<DijkstraMap>,
}

impl DijkstraMaps {
    /// The map to the enemies of `faction`, if it has been built.
    pub open spec fn spec_enemies(&self, faction: Faction) -> Option<DijkstraMap> {
        match faction {
            Faction::Ally => self.ally,
            Faction::Enemy => self.enemy,
        }
    }

    /// The map to the enemies of `faction`, if it has been built.
    pub fn enemies(&self, faction: Faction) -> (map: Option<&DijkstraMap>)
        ensures
            match map {
                Some(m) => self.spec_enemies(faction) == Some(*m),
                None => self.spec_enemies(faction) is None,
            },
    {
        match faction {
            Faction::Ally => self.ally.as_ref(),
            Faction::Enemy => self.enemy.as_ref(),
        }
    }
}

/// The tiles that block sight: all but floor.
pub struct Sight<'a> {
    pub terrain: &'a PointMap<Tile>,
}

impl<'a> TilePredicate for Sight<'a> {
    open spec fn holds(&self, p: Point) -> bool {
        !is_floor(self.terrain@, p)
    }

    fn test(&self, p: &Point) -> (b: bool) {
        match self.terrain.get(*p) {
            Some(Tile::Floor(_)) => false,
            _ => true,
        }
    }
}

/// The tiles on which a creature stands that is not of the faction
/// `faction`.
pub struct Foes<'a> {
    pub creatures: &'a Vec<Creature>,
    pub occupants: &'a PointMap<usize>,
    pub faction: Faction,
}

impl<'a> TilePredicate for Foes<'a> {
    open spec fn holds(&self, p: Point) -> bool {
        self.occupants@.contains_key(p) && self.occupants@[p] < self.creatures@.len()
            && self.creatures@[self.occupants@[p] as int].faction != self.faction
    }

    fn test(&self, p: &Point) -> (b: bool) {
        match self.occupants.get(*p) {
            Some(id) => *id < self.creatures.len() && self.creatures[*id].faction != self.faction,
            None => false,
        }
    }
}

/// The tiles that a creature of the faction `faction` cannot pass on its
/// way: all but floor, and floor on which a creature of another faction
/// stands. Creatures can't actually pass through allies either, but they
/// find their way as though they could, so that they pile up at choke points
/// when they go for a goal.
pub struct Obstacles<'a> {
    pub terrain: &'a PointMap<Tile>,
    pub creatures: &'a Vec<Creature>,
    pub occupants: &'a PointMap<usize>,
    pub faction: Faction,
}

impl<'a> TilePredicate for Obstacles<'a> {
    open spec fn holds(&self, p: Point) -> bool {
        !is_floor(self.terrain@, p) || (Foes {
            creatures: self.creatures,
            occupants: self.occupants,
            faction: self.faction,
        }).holds(p)
    }

    fn test(&self, p: &Point) -> (b: bool) {
        let sight = Sight { terrain: self.terrain };
        let foes = Foes {
            creatures: self.creatures,
            occupants: self.occupants,
            faction: self.faction,
        };
        sight.test(p) || foes.test(p)
    }
}

/// A level of the dungeon.
///
/// The view is the map of its tiles. A point without a tile lies outside the
/// level. Creatures are known by their numbers, in the order in which they
/// were spawned.
pub struct Level {
    tileport: Rectangle,
    terrain: PointMap<Tile>,
    creatures: Vec<Creature>,
    occupants: PointMap<usize>,
    /// Points the player can currently see.
    vision: PointSet,
    /// Tiles the player remembers seeing.
    memory: PointMap<Tile>,
    dijkstra_maps: DijkstraMaps,
}

impl View for Level {
    type V = Map<Point, Tile>;

    closed spec fn view(&self) -> Map<Point, Tile> {
        self.terrain@
    }
}

/// The state of a level but for its tiles and what is seen of them.
pub struct Cast {
    pub creatures: Seq<Creature>,
    pub occupants: Map<Point, usize>,
}

impl Cast {
    /// Whether the creature `id` stands on the map: at the place where it
    /// believes to be.
    pub open spec fn on_map(self, id: int) -> bool {
        &&& 0 <= id < self.creatures.len()
        &&& self.occupants.contains_key(self.creatures[id].coords)
        &&& self.occupants[self.creatures[id].coords] == id
    }

    /// The cast after the creature `attacker` has hit the creature
    /// `defender`: the defender has taken the attacker's strength as damage,
    /// and has left the map if that killed it.
    pub open spec fn after_attack(self, attacker: int, defender: int) -> Cast {
        let hit = self.creatures[defender].damaged(self.creatures[attacker].stats.strength);
        Cast {
            creatures: self.creatures.update(defender, hit),
            occupants: if hit.spec_dead() {
                self.occupants.remove(hit.coords)
            } else {
                self.occupants
            },
        }
    }

    /// The cast after the creature `id` has gone to `to`.
    pub open spec fn after_step(self, id: int, to: Point) -> Cast {
        let from = self.creatures[id].coords;
        Cast {
            creatures: self.creatures.update(id, Creature { coords: to, ..self.creatures[id] }),
            occupants: self.occupants.remove(from).insert(to, id as usize),
        }
    }

    /// Whether this can be the cast `before` some turns later: the same
    /// creatures, each of its kind and strength as before, and none in
    /// better health.
    pub open spec fn follows(self, before: Cast) -> bool {
        &&& self.creatures.len() == before.creatures.len()
        &&& forall|id: int|
            0 <= id < self.creatures.len() ==> aged(#[trigger] self.creatures[id], before.creatures[id])
    }
}

/// Whether `now` can be the creature `before` some turns later.
pub open spec fn aged(now: Creature, before: Creature) -> bool {
    &&& now.species == before.species
    &&& now.faction == before.faction
    &&& now.behavior == before.behavior
    &&& now.stats.strength == before.stats.strength
    &&& now.stats.health <= before.stats.health
}

/// A move leaves the creatures what they are, in no better health.
pub proof fn lemma_move_follows(tiles: Map<Point, Tile>, cast: Cast, id: int, to: Point)
    requires
        cast.on_map(id),
        forall|p: Point| #[trigger]
            cast.occupants.contains_key(p) ==> cast.on_map(cast.occupants[p] as int),
    ensures
        after_move(tiles, cast, id, to).follows(cast),
{
    if cast.creatures[id].coords != to {
        match collision_at(tiles, cast, to) {
            Some(Collision::Object(other)) => {
                assert(cast.occupants.contains_key(to));
                assert(cast.on_map(other as int));
            },
            _ => {},
        }
    }
}

/// What is remembered once the points `seen` of `tiles` have been seen:
/// what was remembered before, and the tiles at the points that are seen.
pub open spec fn recalled(before: Map<Point, Tile>, seen: Set<Point>, tiles: Map<Point, Tile>) -> Map<
    Point,
    Tile,
> {
    Map::new(
        |p: Point| before.contains_key(p) || (seen.contains(p) && tiles.contains_key(p)),
        |p: Point|
            if seen.contains(p) && tiles.contains_key(p) {
                tiles[p]
            } else {
                before[p]
            },
    )
}

/// What stands in the way at `p`, if anything.
pub open spec fn collision_at(tiles: Map<Point, Tile>, cast: Cast, p: Point) -> Option<Collision> {
    if !tiles.contains_key(p) {
        Some(Collision::OutOfBounds)
    } else if tiles[p] is Wall {
        Some(Collision::Tile(tiles[p]))
    } else if cast.occupants.contains_key(p) {
        Some(Collision::Object(cast.occupants[p]))
    } else {
        None
    }
}

/// The cast after the creature `id` has tried to go to `to`: it goes there
/// if nothing stands in the way; it attacks a creature of another faction
/// that does; and nothing happens otherwise.
pub open spec fn after_move(tiles: Map<Point, Tile>, cast: Cast, id: int, to: Point) -> Cast {
    if cast.creatures[id].coords == to {
        cast
    } else {
        match collision_at(tiles, cast, to) {
            Some(Collision::Object(other)) => if cast.creatures[id].faction
                != cast.creatures[other as int].faction {
                cast.after_attack(id, other as int)
            } else {
                cast
            },
            Some(_) => cast,
            None => cast.after_step(id, to),
        }
    }
}

/// The attack that comes of the creature `id` trying to go to `to`, if one
/// does.
pub open spec fn attack_of_move(tiles: Map<Point, Tile>, cast: Cast, id: int, to: Point) -> Option<
    Attack,
> {
    if cast.creatures[id].coords == to {
        None
    } else {
        match collision_at(tiles, cast, to) {
            Some(Collision::Object(other)) => if cast.creatures[id].faction
                != cast.creatures[other as int].faction {
                Some(
                    Attack {
                        attacker: id as usize,
                        defender: other,
                        damage: cast.creatures[id].stats.strength,
                        killed: cast.creatures[other as int].damaged(
                            cast.creatures[id].stats.strength,
                        ).spec_dead(),
                    },
                )
            } else {
                None
            },
            _ => None,
        }
    }
}

impl Level {
    /// The region that the level covers.
    pub closed spec fn region(&self) -> Rectangle {
        self.tileport
    }

    /// The creatures, and where they stand.
    pub closed spec fn cast(&self) -> Cast {
        Cast { creatures: self.creatures@, occupants: self.occupants@ }
    }

    /// The points that the player can currently see.
    pub closed spec fn seen(&self) -> Set<Point> {
        self.vision@
    }

    /// The tiles that the player remembers seeing.
    pub closed spec fn remembered(&self) -> Map<Point, Tile> {
        self.memory@
    }

    /// The distances to the enemies of `faction`, if they have been found.
    pub closed spec fn field(&self, faction: Faction) -> Option<Map<Point, isize>> {
        match self.dijkstra_maps.spec_enemies(faction) {
            Some(m) => Some(m@),
            None => None,
        }
    }

    /// What blocks sight in the level.
    pub closed spec fn sight(&self) -> Sight<'_> {
        Sight { terrain: &self.terrain }
    }

    /// What a creature of `faction` goes for.
    pub closed spec fn foes(&self, faction: Faction) -> Foes<'_> {
        Foes { creatures: &self.creatures, occupants: &self.occupants, faction }
    }

    /// What a creature of `faction` finds in its way.
    pub closed spec fn obstacles(&self, faction: Faction) -> Obstacles<'_> {
        Obstacles {
            terrain: &self.terrain,
            creatures: &self.creatures,
            occupants: &self.occupants,
            faction,
        }
    }

    /// Every tile lies in the region, which lies inside the range of
    /// coordinates; and where a creature is said to stand, there is floor,
    /// and the creature knows that it stands there.
    pub open spec fn wf(&self) -> bool {
        &&& forall|p: Point| #[trigger] self@.contains_key(p) ==> self.region().contains(p)
        &&& i32::MIN < self.region().pos.x
        &&& i32::MIN < self.region().pos.y
        &&& self.region().end_x() <= i32::MAX
        &&& self.region().end_y() <= i32::MAX
        &&& forall|p: Point| #[trigger]
            self.cast().occupants.contains_key(p) ==> is_floor(self@, p) && self.cast().on_map(
                self.cast().occupants[p] as int,
            ) && self.cast().creatures[self.cast().occupants[p] as int].coords == p
    }

    /// The same tiles, in the same region.
    pub open spec fn same_ground(&self, other: &Level) -> bool {
        self@ == other@ && self.region() == other.region()
    }

    /// The same is seen and remembered, and the same distances are known.
    pub open spec fn same_knowledge(&self, other: &Level) -> bool {
        &&& self.seen() == other.seen()
        &&& self.remembered() == other.remembered()
        &&& forall|faction: Faction| #[trigger] self.field(faction) == other.field(faction)
    }

    /// Whether sight from `origin` ends within the reach of a scan: at the
    /// greater of the width and the height of the region, where the level
    /// has no tile any more.
    pub open spec fn in_sight(&self, origin: Point) -> bool {
        let reach = if self.region().size.x >= self.region().size.y {
            self.region().size.x
        } else {
            self.region().size.y
        };
        &&& self.region().contains(origin)
        &&& reach <= MAX_SIGHT
        &&& i32::MIN <= origin.x - reach
        &&& origin.x + reach <= i32::MAX
        &&& i32::MIN <= origin.y - reach
        &&& origin.y + reach <= i32::MAX
    }

    /// Generates a level: rooms that do not touch, opened in the region
    /// inside a border of one tile, and corridors between them. No creature
    /// is on it yet, and nothing of it has been seen.
    ///
    /// Whatever is drawn, every floor tile lies inside the border and has
    /// tiles all around it, every tile lies in the region and is floor or
    /// next to floor, and every floor tile can be reached from every other.
    /// How much of the region is floor is not promised: where no more rooms
    /// fit, a level has fewer rooms than the configured ratio asks for.
    pub fn generate(config: GenerationConfig, rng: &mut Pcg32) -> (level: Level)
        requires
            config.valid(),
        ensures
            level.wf(),
            level.region() == config.tileport,
            walled(level@),
            snug(level@),
            floor_within(level@, config.spec_floor_region()),
            all_connected(level@),
            level.cast().creatures.len() == 0,
            level.cast().occupants == Map::<Point, usize>::empty(),
            level.seen() == Set::<Point>::empty(),
            level.remembered() == Map::<Point, Tile>::empty(),
            level.field(Faction::Ally) is None,
            level.field(Faction::Enemy) is None,
            config.min_floor_ratio.numer > 0 ==> exists|p: Point| #[trigger] is_floor(level@, p),
    {
        let ghost region = config.spec_floor_region();
        // Add rooms until the target floor coverage is reached.
        let rooms = place_rooms(&config, rng);
        // Open the floor of each room.
        let mut terrain: PointMap<Tile> = PointMap::new();
        carve_rooms(&mut terrain, &rooms, &config, rng);
        let ghost opened_rooms = terrain@;
        // Connect the closest two rooms until all rooms are connected.
        connect_rooms(&mut terrain, &rooms, &config, rng);
        proof {
            let cut = choose|cut: Set<Point>|
                #![trigger carved(opened_rooms, cut, Floor::Stone)]
                terrain@ == carved(opened_rooms, cut, Floor::Stone) && forall|p: Point|
                    cut.contains(p) ==> region.contains(p);
            lemma_carved_walled(opened_rooms, cut, Floor::Stone);
            lemma_carved_snug(opened_rooms, cut, Floor::Stone);
            if config.min_floor_ratio.numer > 0 {
                reveal(opened);
                let first = rooms@[0].floor;
                assert(first.contains(first.pos));
                assert(is_floor(opened_rooms, first.pos));
                assert(is_floor(terrain@, first.pos));
            }
            assert forall|p: Point| #[trigger] terrain@.contains_key(p) implies config.tileport.contains(
                p,
            ) by {
                if !is_floor(terrain@, p) {
                    let q = choose|q: Point| is_floor(terrain@, q) && #[trigger] adjacent_eight(q, p);
                    assert(region.contains(q));
                }
            }
        }
        Level {
            tileport: config.tileport,
            terrain,
            creatures: Vec::new(),
            occupants: PointMap::new(),
            vision: PointSet::new(),
            memory: PointMap::new(),
            dijkstra_maps: DijkstraMaps { ally: None, enemy: None },
        }
    }

    /// The tile at `coords`, if the level has one there.
    pub fn tile(&self, coords: Point) -> (tile: Option<Tile>)
        ensures
            tile == if self@.contains_key(coords) {
                Some(self@[coords])
            } else {
                None
            },
    {
        match self.terrain.get(coords) {
            Some(tile) => Some(*tile),
            None => None,
        }
    }

    /// The region that the level covers.
    pub fn tileport(&self) -> (region: Rectangle)
        ensures
            region == self.region(),
    {
        self.tileport
    }

    /// The number of creatures that have been spawned, the dead included.
    pub fn creature_count(&self) -> (count: usize)
        ensures
            count == self.cast().creatures.len(),
    {
        self.creatures.len()
    }

    /// The creature with the number `id`.
    pub fn creature(&self, id: usize) -> (creature: Creature)
        requires
            id < self.cast().creatures.len(),
        ensures
            creature == self.cast().creatures[id as int],
    {
        self.creatures[id]
    }

    /// Whether the creature with the number `id` stands on the map.
    pub fn is_on_map(&self, id: usize) -> (b: bool)
        ensures
            b == self.cast().on_map(id as int),
    {
        if id < self.creatures.len() {
            match self.occupants.get(self.creatures[id].coords) {
                Some(there) => *there == id,
                None => false,
            }
        } else {
            false
        }
    }

    /// Whether the player can currently see the tile at `coords`.
    pub fn sees(&self, coords: Point) -> (b: bool)
        ensures
            b == self.seen().contains(coords),
    {
        self.vision.contains(coords)
    }

    /// The tile that the player remembers at `coords`, if any.
    pub fn memory_of(&self, coords: Point) -> (tile: Option<Tile>)
        ensures
            tile == if self.remembered().contains_key(coords) {
                Some(self.remembered()[coords])
            } else {
                None
            },
    {
        match self.memory.get(coords) {
            Some(tile) => Some(*tile),
            None => None,
        }
    }

    /// The collision, if any, that would occur at `coords`.
    pub fn collision(&self, coords: &Point) -> (c: Option<Collision>)
        ensures
            c == collision_at(self@, self.cast(), *coords),
    {
        match self.terrain.get(*coords) {
            None => Some(Collision::OutOfBounds),
            Some(tile) => match tile {
                Tile::Wall => Some(Collision::Tile(*tile)),
                Tile::Floor(_) => match self.occupants.get(*coords) {
                    Some(id) => Some(Collision::Object(*id)),
                    None => None,
                },
            },
        }
    }

    /// A set of Dijkstra maps for points of interest within the level.
    pub fn dijkstra_maps(&self) -> (maps: &DijkstraMaps)
        ensures
            forall|faction: Faction|
                self.field(faction) == match #[trigger] maps.spec_enemies(faction) {
                    Some(m) => Some(m@),
                    None => None,
                },
    {
        &self.dijkstra_maps
    }

    /// Puts `creature` on the map where it says it is, unless something
    /// stands in the way there. The creature is given the next number.
    pub fn spawn(&mut self, creature: Creature) -> (r: Result<usize, Collision>)
        requires
            old(self).wf(),
        ensures
            final(self).wf(),
            final(self).same_ground(old(self)),
            final(self).same_knowledge(old(self)),
            match r {
                Ok(id) => {
                    &&& collision_at(old(self)@, old(self).cast(), creature.coords) is None
                    &&& id == old(self).cast().creatures.len()
                    &&& final(self).cast().creatures == old(self).cast().creatures.push(creature)
                    &&& final(self).cast().occupants == old(self).cast().occupants.insert(
                        creature.coords,
                        id,
                    )
                },
                Err(collision) => {
                    &&& collision_at(old(self)@, old(self).cast(), creature.coords) == Some(
                        collision,
                    )
                    &&& final(self).cast() == old(self).cast()
                },
            },
    {
        let coords = creature.coords;
        if let Some(collision) = self.collision(&coords) {
            return Err(collision);
        }
        let id = self.creatures.len();
        let ghost before = self.cast();
        self.creatures.push(creature);
        self.occupants.insert(coords, id);
        proof {
            assert forall|p: Point| #[trigger]
                self.cast().occupants.contains_key(p) implies is_floor(self@, p)
                && self.cast().on_map(self.cast().occupants[p] as int)
                && self.cast().creatures[self.cast().occupants[p] as int].coords == p by {
                if p != coords {
                    assert(before.occupants.contains_key(p));
                    assert(before.on_map(before.occupants[p] as int));
                }
            }
        }
        Ok(id)
    }

    /// All floor tile coordinates not occupied by a creature, each once, in
    /// no particular order.
    pub fn unoccupied_coords(&self) -> (free: Vec<Point>)
        ensures
            free@.no_duplicates(),
            forall|p: Point|
                free@.contains(p) <==> collision_at(self@, self.cast(), p) is None,
    {
        let all = self.terrain.points();
        let mut free: Vec<Point> = Vec::new();
        let ghost mut picked: Seq<int> = Seq::empty();
        let mut k: usize = 0;
        while k < all.len()
            invariant
                k <= all@.len(),
                all@.no_duplicates(),
                forall|p: Point| all@.contains(p) <==> self@.contains_key(p),
                picked.len() == free@.len(),
                forall|i: int|
                    0 <= i < picked.len() ==> 0 <= #[trigger] picked[i] < k && free@[i]
                        == all@[picked[i]],
                forall|i: int, j: int|
                    0 <= i < j < picked.len() ==> #[trigger] picked[i] < #[trigger] picked[j],
                forall|j: int|
                    0 <= j < k && collision_at(self@, self.cast(), #[trigger] all@[j]) is None
                        ==> free@.contains(all@[j]),
                forall|i: int|
                    0 <= i < free@.len() ==> collision_at(
                        self@,
                        self.cast(),
                        #[trigger] free@[i],
                    ) is None,
            decreases all@.len() - k,
        {
            let coords = all[k];
            if self.collision(&coords).is_none() {
                let ghost before = free@;
                free.push(coords);
                proof {
                    picked = picked.push(k as int);
                    assert(free@[before.len() as int] == coords);
                    assert forall|j: int|
                        0 <= j < k + 1 && collision_at(
                            self@,
                            self.cast(),
                            #[trigger] all@[j],
                        ) is None implies free@.contains(all@[j]) by {
                        if j < k {
                            let i = choose|i: int| 0 <= i < before.len() && before[i] == all@[j];
                            assert(free@[i] == all@[j]);
                        }
                    }
                }
            }
            k = k + 1;
        }
        proof {
            assert forall|i: int, j: int|
                0 <= i < free@.len() && 0 <= j < free@.len() && i != j implies free@[i]
                != free@[j] by {
                if i < j {
                    assert(picked[i] < picked[j]);
                } else {
                    assert(picked[j] < picked[i]);
                }
            }
            assert forall|p: Point|
                free@.contains(p) <==> collision_at(self@, self.cast(), p) is None by {
                if collision_at(self@, self.cast(), p) is None {
                    assert(all@.contains(p));
                    let j = choose|j: int| 0 <= j < all@.len() && all@[j] == p;
                    assert(free@.contains(all@[j]));
                }
            }
        }
        free
    }

    /// Spawns the player character at an arbitrary open tile. There has to
    /// be one.
    pub fn spawn_player(&mut self, rng: &mut Pcg32) -> (id: usize)
        requires
            old(self).wf(),
            exists|p: Point| collision_at(old(self)@, old(self).cast(), p) is None,
        ensures
            final(self).wf(),
            final(self).same_ground(old(self)),
            final(self).same_knowledge(old(self)),
            id == old(self).cast().creatures.len(),
            final(self).cast().creatures.len() == id + 1,
            final(self).cast().on_map(id as int),
            final(self).cast().creatures[id as int] == (Creature {
                species: Species::Human,
                faction: Faction::Ally,
                behavior: Behavior::Idle,
                coords: final(self).cast().creatures[id as int].coords,
                stats: Species::Human.spec_base_stats(),
            }),
            collision_at(
                old(self)@,
                old(self).cast(),
                final(self).cast().creatures[id as int].coords,
            ) is None,
            final(self).cast().occupants == old(self).cast().occupants.insert(
                final(self).cast().creatures[id as int].coords,
                id,
            ),
            final(self).cast().creatures == old(self).cast().creatures.push(
                final(self).cast().creatures[id as int],
            ),
    {
        let free = self.unoccupied_coords();
        proof {
            let p = choose|p: Point| collision_at(self@, self.cast(), p) is None;
            assert(free@.contains(p));
        }
        let coords = match choose_one(rng, &free) {
            Some(coords) => coords,
            None => vstd::pervasive::unreached(),
        };
        // The player's creature is controlled separately, so just idle
        // during level updates.
        let player = Creature::new(Faction::Ally, Species::Human, Behavior::Idle, coords);
        match self.spawn(player) {
            Ok(id) => id,
            Err(_) => vstd::pervasive::unreached(),
        }
    }

    /// Has the creature `attacker` hit the creature `defender`, which leaves
    /// the map if it dies of it.
    fn attack(&mut self, attacker: usize, defender: usize) -> (attack: Attack)
        requires
            old(self).wf(),
            old(self).cast().on_map(attacker as int),
            old(self).cast().on_map(defender as int),
            attacker != defender,
        ensures
            final(self).wf(),
            final(self).same_ground(old(self)),
            final(self).same_knowledge(old(self)),
            final(self).cast() == old(self).cast().after_attack(attacker as int, defender as int),
            attack == (Attack {
                attacker,
                defender,
                damage: old(self).cast().creatures[attacker as int].stats.strength,
                killed: old(self).cast().creatures[defender as int].damaged(
                    old(self).cast().creatures[attacker as int].stats.strength,
                ).spec_dead(),
            }),
    {
        let ghost before = self.cast();
        let damage = self.creatures[attacker].stats.strength;
        let mut hit = self.creatures[defender];
        hit.take_damage(damage);
        self.creatures.set(defender, hit);
        let killed = hit.dead();
        if killed {
            self.occupants.remove(hit.coords);
        }
        proof {
            assert(self.cast().creatures =~= before.creatures.update(defender as int, hit));
            assert forall|p: Point| #[trigger]
                self.cast().occupants.contains_key(p) implies is_floor(self@, p)
                && self.cast().on_map(self.cast().occupants[p] as int)
                && self.cast().creatures[self.cast().occupants[p] as int].coords == p by {
                assert(before.occupants.contains_key(p));
                assert(before.on_map(before.occupants[p] as int));
            }
        }
        Attack { attacker, defender, damage, killed }
    }

    /// Attempts to move the creature `id` to `to`, handling any resulting
    /// collisions: the creature attacks a creature of another faction that
    /// stands there, and stays where it is if anything else does. The
    /// creature must be on the map.
    pub fn move_creature(&mut self, id: usize, to: Point) -> (attack: Option<Attack>)
        requires
            old(self).wf(),
            old(self).cast().on_map(id as int),
        ensures
            final(self).wf(),
            final(self).same_ground(old(self)),
            final(self).same_knowledge(old(self)),
            final(self).cast() == after_move(old(self)@, old(self).cast(), id as int, to),
            attack == attack_of_move(old(self)@, old(self).cast(), id as int, to),
    {
        let from = self.creatures[id].coords;
        if from.x == to.x && from.y == to.y {
            return None;
        }
        let ghost before = self.cast();
        if let Some(collision) = self.collision(&to) {
            match collision {
                Collision::Object(other) => {
                    proof {
                        assert(before.occupants.contains_key(to));
                        assert(before.on_map(other as int));
                    }
                    if self.creatures[id].faction != self.creatures[other].faction {
                        return Some(self.attack(id, other));
                    }
                    return None;
                },
                _ => {
                    return None;
                },
            }
        }
        let mut moving = self.creatures[id];
        moving.coords = to;
        self.occupants.remove(from);
        self.creatures.set(id, moving);
        self.occupants.insert(to, id);
        proof {
            assert(self.cast().creatures =~= before.creatures.update(id as int, moving));
            assert forall|p: Point| #[trigger]
                self.cast().occupants.contains_key(p) implies is_floor(self@, p)
                && self.cast().on_map(self.cast().occupants[p] as int)
                && self.cast().creatures[self.cast().occupants[p] as int].coords == p by {
                if p != to {
                    assert(before.occupants.contains_key(p));
                    assert(before.on_map(before.occupants[p] as int));
                }
            }
        }
        None
    }

    /// Attempts to translate the position of the creature `id` by `offset`,
    /// handling any resulting collisions. The creature must be on the map.
    pub fn translate_creature(&mut self, id: usize, offset: Vector) -> (attack: Option<Attack>)
        requires
            old(self).wf(),
            old(self).cast().on_map(id as int),
            -1 <= offset.x <= 1,
            -1 <= offset.y <= 1,
        ensures
            final(self).wf(),
            final(self).same_ground(old(self)),
            final(self).same_knowledge(old(self)),
            final(self).cast() == after_move(
                old(self)@,
                old(self).cast(),
                id as int,
                moved(old(self).cast().creatures[id as int].coords, offset),
            ),
            attack == attack_of_move(
                old(self)@,
                old(self).cast(),
                id as int,
                moved(old(self).cast().creatures[id as int].coords, offset),
            ),
    {
        let from = self.creatures[id].coords;
        proof {
            assert(self.cast().occupants.contains_key(from));
            assert(self@.contains_key(from));
        }
        self.move_creature(id, Point { x: from.x + offset.x, y: from.y + offset.y })
    }

    /// Updates vision and memory using the given viewer `origin`: what is
    /// seen from there is all that is seen now, and the tiles among it are
    /// remembered.
    pub fn update_vision(&mut self, origin: Point)
        requires
            old(self).wf(),
            old(self).in_sight(origin),
        ensures
            final(self).wf(),
            final(self).same_ground(old(self)),
            final(self).cast() == old(self).cast(),
            forall|faction: Faction|
                #[trigger] final(self).field(faction) == old(self).field(faction),
            final(self).seen() == visible(&final(self).sight(), origin),
            final(self).remembered() == recalled(
                old(self).remembered(),
                final(self).seen(),
                final(self)@,
            ),
    {
        let ghost before = self.memory@;
        let sight = Sight { terrain: &self.terrain };
        proof {
            let limit = if self.tileport.size.x >= self.tileport.size.y {
                self.tileport.size.x
            } else {
                self.tileport.size.y
            };
            assert forall|p: Point| chebyshev(origin, p) == limit implies #[trigger] sight.holds(
                p,
            ) by {
                if is_floor(self@, p) {
                    assert(self@.contains_key(p));
                }
            }
            assert(sight_ends(&sight, origin, limit as int));
        }
        let seen = get_vision(origin, &sight);
        let points = seen.points();
        let mut k: usize = 0;
        proof {
            assert(self.memory@ =~= recalled(
                before,
                points@.subrange(0, 0).to_set(),
                self.terrain@,
            ));
        }
        while k < points.len()
            invariant
                k <= points@.len(),
                self.wf(),
                self.same_ground(old(self)),
                self.cast() == old(self).cast(),
                self.terrain == old(self).terrain,
                self.dijkstra_maps == old(self).dijkstra_maps,
                self.memory@ == recalled(
                    before,
                    points@.subrange(0, k as int).to_set(),
                    self.terrain@,
                ),
            decreases points@.len() - k,
        {
            let coords = points[k];
            match self.terrain.get(coords) {
                Some(tile) => {
                    self.memory.insert(coords, *tile);
                },
                None => {},
            }
            proof {
                let done = points@.subrange(0, k as int);
                let more = points@.subrange(0, k + 1);
                assert(more.to_set() =~= done.to_set().insert(coords)) by {
                    assert forall|p: Point| more.to_set().contains(p) == done.to_set().insert(
                        coords,
                    ).contains(p) by {
                        if done.contains(p) {
                            let j = choose|j: int| 0 <= j < done.len() && done[j] == p;
                            assert(more[j] == p);
                        }
                        if p == coords {
                            assert(more[k as int] == p);
                        }
                        if more.contains(p) {
                            let j = choose|j: int| 0 <= j < more.len() && more[j] == p;
                            if j < k {
                                assert(done[j] == p);
                            }
                        }
                    }
                }
                assert(self.memory@ =~= recalled(before, more.to_set(), self.terrain@));
            }
            k = k + 1;
        }
        proof {
            assert(points@.subrange(0, points@.len() as int) =~= points@);
            assert(points@.to_set() =~= seen@);
        }
        self.vision = seen;
    }

    /// Builds or rebuilds the level's Dijkstra maps: for each faction, the
    /// distances of the tiles to the nearest creature of another faction.
    pub fn update_dijkstra_maps(&mut self)
        requires
            old(self).wf(),
            old(self).region().size.x * old(self).region().size.y <= isize::MAX,
        ensures
            final(self).wf(),
            final(self).same_ground(old(self)),
            final(self).cast() == old(self).cast(),
            final(self).seen() == old(self).seen(),
            final(self).remembered() == old(self).remembered(),
            forall|faction: Faction|
                #![trigger final(self).field(faction)]
                final(self).field(faction) is Some && exists|tiles: Seq<Point>|
                    (forall|p: Point| tiles.contains(p) <==> final(self)@.contains_key(p))
                        && #[trigger] is_distance_field(
                        final(self).field(faction)->Some_0,
                        tiles,
                        &final(self).foes(faction),
                        &final(self).obstacles(faction),
                    ),
    {
        let tiles = self.terrain.points();
        proof {
            assert forall|p: Point| tiles@.contains(p) implies self.tileport.contains(p) by {
                assert(self@.contains_key(p));
            }
            lemma_listing_fits(tiles@, self.tileport);
        }
        let ally = self.enemies_dijkstra_map(&tiles, Faction::Ally);
        let enemy = self.enemies_dijkstra_map(&tiles, Faction::Enemy);
        self.dijkstra_maps = DijkstraMaps { ally: Some(ally), enemy: Some(enemy) };
        proof {
            assert(self@ == old(self)@);
            assert(self.cast() == old(self).cast());
            assert(self.region() == old(self).region());
            assert(self.wf());
            assert forall|faction: Faction|
                #![trigger self.field(faction)]
                self.field(faction) is Some && exists|tiles: Seq<Point>|
                    (forall|p: Point| tiles.contains(p) <==> self@.contains_key(p))
                        && #[trigger] is_distance_field(
                        self.field(faction)->Some_0,
                        tiles,
                        &self.foes(faction),
                        &self.obstacles(faction),
                    ) by {
                match faction {
                    Faction::Ally => {
                        assert(is_distance_field(
                            self.field(faction)->Some_0,
                            tiles@,
                            &self.foes(faction),
                            &self.obstacles(faction),
                        ));
                    },
                    Faction::Enemy => {
                        assert(is_distance_field(
                            self.field(faction)->Some_0,
                            tiles@,
                            &self.foes(faction),
                            &self.obstacles(faction),
                        ));
                    },
                }
            }
        }
    }

    /// The distances of `tiles`, which are the tiles of the level, to the
    /// nearest creature that is not of the faction `faction`.
    fn enemies_dijkstra_map(&self, tiles: &Vec<Point>, faction: Faction) -> (map: DijkstraMap)
        requires
            self.wf(),
            tiles@.len() <= isize::MAX,
            forall|p: Point| tiles@.contains(p) <==> self@.contains_key(p),
        ensures
            is_distance_field(map@, tiles@, &self.foes(faction), &self.obstacles(faction)),
    {
        let goals = Foes { creatures: &self.creatures, occupants: &self.occupants, faction };
        let blocking = Obstacles {
            terrain: &self.terrain,
            creatures: &self.creatures,
            occupants: &self.occupants,
            faction,
        };
        proof {
            assert forall|k: int| 0 <= k < tiles@.len() implies inner(#[trigger] tiles@[k]) by {
                assert(tiles@.contains(tiles@[k]));
                assert(self@.contains_key(tiles@[k]));
            }
            assert forall|p: Point| !blocking.holds(p) implies tiles@.contains(p) by {
                assert(is_floor(self@, p));
            }
        }
        DijkstraMap::new(tiles, &goals, &blocking)
    }

    /// Advances time in the level by one turn, allowing each creature on the
    /// map that is alive to take its turn, the one spawned last first. The
    /// result lists the attacks that were made, in their order.
    ///
    /// Whatever is drawn, the ground stays as it is, and no creature comes
    /// or changes its kind.
    pub fn update(&mut self, rng: &mut Pcg32) -> (attacks: Vec<Attack>)
        requires
            old(self).wf(),
        ensures
            final(self).wf(),
            final(self).same_ground(old(self)),
            final(self).same_knowledge(old(self)),
            final(self).cast().follows(old(self).cast()),
    {
        let mut attacks: Vec<Attack> = Vec::new();
        let mut id: usize = self.creatures.len();
        while id > 0
            invariant
                self.wf(),
                self.same_ground(old(self)),
                self.same_knowledge(old(self)),
                self.cast().follows(old(self).cast()),
                id <= self.cast().creatures.len(),
            decreases id,
        {
            id = id - 1;
            // The creature may have died, and left the map, during the turn.
            if self.is_on_map(id) && !self.creatures[id].dead() {
                let creature = self.creatures[id];
                proof {
                    assert(self.cast().occupants.contains_key(creature.coords));
                    assert(self@.contains_key(creature.coords));
                }
                let step = creature.act(self.dijkstra_maps.enemies(creature.faction), rng);
                if let Some(offset) = step {
                    proof {
                        lemma_move_follows(
                            self@,
                            self.cast(),
                            id as int,
                            moved(creature.coords, offset),
                        );
                    }
                    if let Some(attack) = self.translate_creature(id, offset) {
                        attacks.push(attack);
                    }
                }
            }
        }
        attacks
    }
}

/// A list of distinct tiles of a region is no longer than the region has
/// tiles.
proof fn lemma_listing_fits(tiles: Seq<Point>, region: Rectangle)
    requires
        tiles.no_duplicates(),
        forall|p: Point| tiles.contains(p) ==> region.contains(p),
        region.size.x * region.size.y <= isize::MAX,
    ensures
        tiles.len() <= isize::MAX,
{
    if tiles.len() > 0 {
        assert(tiles.contains(tiles[0]));
        let w = region.size.x as int;
        let h = region.size.y as int;
        let number = |p: Point| (p.x - region.pos.x) * h + (p.y - region.pos.y);
        let numbers = tiles.map_values(number);
        assert forall|i: int, j: int|
            0 <= i < numbers.len() && 0 <= j < numbers.len() && i != j implies numbers[i]
            != numbers[j] by {
            let a = tiles[i];
            let b = tiles[j];
            assert(tiles.contains(a) && tiles.contains(b));
            assert(a != b);
            if a.x != b.x {
                assert((a.x - region.pos.x) * h + (a.y - region.pos.y) != (b.x - region.pos.x) * h
                    + (b.y - region.pos.y)) by (nonlinear_arith)
                    requires
                        a.x != b.x,
                        0 <= a.y - region.pos.y < h,
                        0 <= b.y - region.pos.y < h,
                ;
            }
        }
        assert(numbers.no_duplicates());
        numbers.unique_seq_to_set();
        let span = vstd::set_lib::set_int_range(0, w * h);
        assert forall|n: int| numbers.to_set().contains(n) implies span.contains(n) by {
            let i = choose|i: int| 0 <= i < numbers.len() && numbers[i] == n;
            let p = tiles[i];
            assert(tiles.contains(p));
            assert(0 <= (p.x - region.pos.x) * h + (p.y - region.pos.y) < w * h)
                by (nonlinear_arith)
                requires
                    0 <= p.x - region.pos.x < w,
                    0 <= p.y - region.pos.y < h,
            ;
        }
        vstd::set_lib::lemma_int_range(0, w * h);
        vstd::set_lib::lemma_len_subset(numbers.to_set(), span);
    }
}

} // verus!
