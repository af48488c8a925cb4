//! Creatures: what they are, and how they decide where to go.
use crate::dijkstra_map::inner;
use crate::dijkstra_map::moved;
use crate::dijkstra_map::spec_step_candidates;
use crate::dijkstra_map::DijkstraMap;
use crate::geometry::is_offset_four;
use crate::geometry::random_neighbor_four;
use crate::geometry::Point;
use crate::geometry::Vector;
use rand_pcg::Pcg32;
use vstd::prelude::*;

verus! {

/// A type of [`Creature`].
#[derive(Clone, Copy, PartialEq, Eq, Debug, Structural)]
pub enum Species {
    Human,
    Goblin,
    Ogre,
}

/// The side that a [`Creature`] is on. Creatures of different factions are
/// each other's enemies.
#[derive(Clone, Copy, PartialEq, Eq, Hash, Debug, Structural)]
pub enum Faction {
    Ally,
    Enemy,
}

/// How a [`Creature`] spends its turns.
#[derive(Clone, Copy, PartialEq, Eq, Debug, Structural)]
pub enum Behavior {
    Idle,
    Patrolling,
}

/// What a [`Creature`] can take and deal.
#[derive(Clone, Copy, PartialEq, Eq, Debug, Structural)]
pub struct Stats {
    pub health: u32,
    pub strength: u32,
}

/// An animate being.
#[derive(Clone, Copy, PartialEq, Eq, Debug, Structural)]
pub struct Creature {
    pub species: Species,
    pub faction: Faction,
    pub behavior: Behavior,
    pub coords: Point,
    pub stats: Stats,
}

/// A creature does not go for a target that is this far away, or farther.
pub const PURSUIT_RANGE: isize = 10;

/// What a creature does with its turn.
#[derive(Clone, Copy, PartialEq, Eq, Debug, Structural)]
pub enum Intent {
    /// Stay where it is.
    Stay,
    /// Follow the distance field by the given offset.
    Pursue(Vector),
    /// Take a step in a random direction.
    Wander,
}

impl Species {
    /// The stats with which a creature of the species starts.
    pub open spec fn spec_base_stats(self) -> Stats {
        match self {
            Species::Human => Stats { health: 10, strength: 2 },
            Species::Goblin => Stats { health: 5, strength: 1 },
            Species::Ogre => Stats { health: 15, strength: 3 },
        }
    }

    /// The stats with which a creature of the species starts.
    pub fn base_stats(&self) -> (stats: Stats)
        ensures
            stats == self.spec_base_stats(),
    {
        match self {
            Species::Human => Stats { health: 10, strength: 2 },
            Species::Goblin => Stats { health: 5, strength: 1 },
            Species::Ogre => Stats { health: 15, strength: 3 },
        }
    }
}

impl Creature {
    /// Whether the creature has no health left.
    pub open spec fn spec_dead(&self) -> bool {
        self.stats.health == 0
    }

    /// The creature after it has taken `damage`.
    pub open spec fn damaged(self, damage: u32) -> Creature {
        Creature {
            stats: Stats {
                health: if self.stats.health >= damage {
                    (self.stats.health - damage) as u32
                } else {
                    0
                },
                strength: self.stats.strength,
            },
            ..self
        }
    }

    /// What a creature does once the step has been drawn that its distance
    /// field offers, if it has a field: an idle creature stays; one that is
    /// offered no step is where it wants to be, and stays; one whose step
    /// leads to a tile within [`PURSUIT_RANGE`] of a target takes it; any
    /// other wanders.
    pub open spec fn spec_intent(self, map: Option<Map<Point, isize>>, step: Option<Vector>) -> Intent {
        match self.behavior {
            Behavior::Idle => Intent::Stay,
            Behavior::Patrolling => match map {
                Some(distances) => match step {
                    Some(offset) => if distances.contains_key(moved(self.coords, offset))
                        && distances[moved(self.coords, offset)] < PURSUIT_RANGE {
                        Intent::Pursue(offset)
                    } else {
                        Intent::Wander
                    },
                    None => Intent::Stay,
                },
                None => Intent::Wander,
            },
        }
    }

    /// A creature at `coords`, with the stats of its species.
    pub fn new(faction: Faction, species: Species, behavior: Behavior, coords: Point) -> (c:
        Creature)
        ensures
            c == (Creature {
                species,
                faction,
                behavior,
                coords,
                stats: species.spec_base_stats(),
            }),
    {
        Creature { species, faction, behavior, coords, stats: species.base_stats() }
    }

    /// Takes `damage` off the creature's health, which does not fall below
    /// zero.
    pub fn take_damage(&mut self, damage: u32)
        ensures
            *final(self) == old(self).damaged(damage),
    {
        self.stats.health = self.stats.health.saturating_sub(damage);
    }

    /// Whether the creature has no health left.
    #[verifier::when_used_as_spec(spec_dead)]
    pub fn dead(&self) -> (b: bool)
        ensures
            b == self.spec_dead(),
    {
        self.stats.health == 0
    }

    /// What the creature does, given the step that was drawn from its
    /// distance field `map`, if it has one.
    pub fn intent(&self, map: Option<&DijkstraMap>, step: Option<Vector>) -> (intent: Intent)
        requires
            inner(self.coords),
            step is Some ==> is_offset_four(step->Some_0),
        ensures
            intent == self.spec_intent(
                match map {
                    Some(m) => Some(m@),
                    None => None,
                },
                step,
            ),
    {
        match self.behavior {
            Behavior::Idle => Intent::Stay,
            Behavior::Patrolling => match map {
                Some(distances) => match step {
                    Some(offset) => {
                        let target = Point {
                            x: self.coords.x + offset.x,
                            y: self.coords.y + offset.y,
                        };
                        match distances.distance(target) {
                            Some(distance) => if distance < PURSUIT_RANGE {
                                Intent::Pursue(offset)
                            } else {
                                Intent::Wander
                            },
                            None => Intent::Wander,
                        }
                    },
                    // Already at a locally optimal location - do nothing.
                    None => Intent::Stay,
                },
                None => Intent::Wander,
            },
        }
    }

    /// Decides where the creature goes in its turn: the offset of its step,
    /// if it takes one. A patrolling creature follows the distance field
    /// `map` to its enemies; one that is down to its last point of health
    /// flees from them instead. Where the field leads to no enemy within
    /// [`PURSUIT_RANGE`], or where there is no field, the creature wanders.
    pub fn act(&self, map: Option<&DijkstraMap>, rng: &mut Pcg32) -> (step: Option<Vector>)
        requires
            inner(self.coords),
        ensures
            match step {
                Some(offset) => self.behavior is Patrolling && is_offset_four(offset),
                None => self.behavior is Idle || (map is Some && spec_step_candidates(
                    map->Some_0@,
                    self.coords,
                    self.stats.health == 1,
                ).len() == 0),
            },
    {
        let drawn = match self.behavior {
            Behavior::Idle => None,
            Behavior::Patrolling => match map {
                Some(distances) => {
                    let offered = if self.stats.health == 1 {
                        // Retreat when low on health.
                        distances.step_away(self.coords, rng)
                    } else {
                        distances.step_towards(self.coords, rng)
                    };
                    offered
                },
                None => None,
            },
        };
        match self.intent(map, drawn) {
            Intent::Stay => None,
            Intent::Pursue(offset) => Some(offset),
            // Wander in a random direction.
            Intent::Wander => Some(random_neighbor_four(rng)),
        }
    }
}

} // verus!
