//! The turns of the game: what the player does, and what follows from it.
use crate::geometry::tile_down;
use crate::geometry::tile_left;
use crate::geometry::tile_right;
use crate::geometry::tile_up;
use crate::geometry::Vector;
use crate::dijkstra_map::moved;
use crate::level::lemma_move_follows;
use crate::level::Attack;
use crate::level::Level;
use crate::vision::MAX_SIGHT;
use rand_pcg::Pcg32;
use vstd::prelude::*;

verus! {

/// What the player can do with a turn.
#[derive(Clone, Copy, PartialEq, Eq, Debug, Structural)]
pub enum Action {
    Wait,
    Move { offset: Vector },
}

/// The keys that mean something to the game.
#[derive(Clone, Copy, PartialEq, Eq, Debug, Structural)]
pub enum Key {
    Escape,
    Space,
    Z,
    Up,
    Down,
    Left,
    Right,
    /// Any other key.
    Other,
}

/// What a key press asks for.
#[derive(Clone, Copy, PartialEq, Eq, Debug, Structural)]
pub struct Command {
    /// Whether to leave the game.
    pub quit: bool,
    /// What the player does, if anything.
    pub action: Option<Action>,
}

/// What the key `key` asks for: escape leaves the game; space and Z wait a
/// turn; the arrows move by one tile. A dead player does nothing.
pub open spec fn spec_command(key: Key, player_dead: bool) -> Command {
    Command {
        quit: key is Escape,
        action: if player_dead {
            None
        } else {
            match key {
                Key::Space | Key::Z => Some(Action::Wait),
                Key::Up => Some(Action::Move { offset: Vector { x: 0, y: -1i32 } }),
                Key::Down => Some(Action::Move { offset: Vector { x: 0, y: 1 } }),
                Key::Left => Some(Action::Move { offset: Vector { x: -1i32, y: 0 } }),
                Key::Right => Some(Action::Move { offset: Vector { x: 1, y: 0 } }),
                _ => None,
            }
        },
    }
}

/// What the key `key` asks for.
pub fn command(key: Key, player_dead: bool) -> (c: Command)
    ensures
        c == spec_command(key, player_dead),
{
    let quit = match key {
        Key::Escape => true,
        _ => false,
    };
    // Disable player actions when dead.
    if player_dead {
        return Command { quit, action: None };
    }
    let action = match key {
        Key::Space | Key::Z => Some(Action::Wait),
        Key::Up => Some(Action::Move { offset: tile_up() }),
        Key::Down => Some(Action::Move { offset: tile_down() }),
        Key::Left => Some(Action::Move { offset: tile_left() }),
        Key::Right => Some(Action::Move { offset: tile_right() }),
        _ => None,
    };
    Command { quit, action }
}

/// A game in progress: a level, the player on it, and the source of all
/// that is drawn at random.
pub struct GameState {
    pub rng: Pcg32,
    /// The number of the player's creature in the level.
    pub player: usize,
    pub level: Level,
}

impl GameState {
    /// The player is a creature on the map of a level that can be seen and
    /// surveyed whole.
    pub open spec fn wf(&self) -> bool {
        &&& self.level.wf()
        &&& self.player < self.level.cast().creatures.len()
        &&& self.level.region().size.x * self.level.region().size.y <= isize::MAX
        &&& self.level.region().size.x <= MAX_SIGHT
        &&& self.level.region().size.y <= MAX_SIGHT
        &&& i32::MIN <= self.level.region().pos.x - MAX_SIGHT
        &&& i32::MIN <= self.level.region().pos.y - MAX_SIGHT
        &&& self.level.region().end_x() + MAX_SIGHT <= i32::MAX
        &&& self.level.region().end_y() + MAX_SIGHT <= i32::MAX
    }

    /// Plays one turn: the player acts, if alive and on the map; the
    /// distances to the enemies of each faction are found anew; every other
    /// creature takes its turn; and what the player sees from where it
    /// stands now is seen and remembered. The result lists the attacks of
    /// the turn, in their order.
    pub fn act(&mut self, action: Action) -> (attacks: Vec<Attack>)
        requires
            old(self).wf(),
        ensures
            final(self).wf(),
            final(self).player == old(self).player,
            final(self).level.same_ground(&old(self).level),
            final(self).level.cast().follows(old(self).level.cast()),
    {
        let mut attacks: Vec<Attack> = Vec::new();
        match action {
            Action::Wait => {},
            Action::Move { offset } => {
                if self.level.is_on_map(self.player) && -1 <= offset.x && offset.x <= 1 && -1
                    <= offset.y && offset.y <= 1 {
                    proof {
                        lemma_move_follows(
                            self.level@,
                            self.level.cast(),
                            self.player as int,
                            moved(self.level.cast().creatures[self.player as int].coords, offset),
                        );
                    }
                    if let Some(attack) = self.level.translate_creature(self.player, offset) {
                        attacks.push(attack);
                    }
                }
            },
        }
        self.level.update_dijkstra_maps();
        let mut others = self.level.update(&mut self.rng);
        attacks.append(&mut others);
        let coords = self.level.creature(self.player).coords;
        if self.level.is_on_map(self.player) {
            proof {
                assert(self.level.cast().occupants.contains_key(coords));
                assert(self.level@.contains_key(coords));
            }
            self.level.update_vision(coords);
        }
        attacks
    }
}

} // verus!
