//! Moving the player along a pending path, one room at a time.

use vstd::prelude::*;
use crate::graph::{count_tile, Enemy, Graph, Tile, Treasure};

verus! {

/// What a step asks of the game around the board.
#[derive(PartialEq, Eq, Structural, Clone, Copy, Debug)]
pub enum Signal {
    /// The player entered a room with an enemy.
    CombatStart,
    /// The player entered a room with treasure.
    RewardStart,
    /// The player reached the goal at the end of the path.
    LevelComplete,
}

/// The signal for entering a room holding `t`.
pub open spec fn signal_for(t: Tile) -> Option<Signal> {
    match t {
        Tile::Enemy(_) => Some(Signal::CombatStart),
        Tile::Treasure(_) => Some(Signal::RewardStart),
        Tile::Empty => None,
    }
}

impl Graph {
    /// The player and the goal are placed.
    pub open spec fn in_play(&self) -> bool {
        &&& self.wf()
        &&& self.current_player_position is Some
        &&& self.goal_position is Some
    }

    /// `self` is `other` with room `v` emptied and nothing else changed but
    /// what `same_state` leaves open.
    pub open spec fn cleared(&self, other: &Graph, v: int) -> bool {
        &&& self.same_layout(other)
        &&& self.nodes@[v].value == Tile::Empty
        &&& forall|i: int| 0 <= i < self.size() && i != v ==> #[trigger] self.nodes@[i] == other.nodes@[i]
    }

    /// Moves the player into room `index`, leaving its current room empty.
    /// Entering the goal with no path left completes the level and leaves the
    /// player where it was; otherwise the content of the new room decides the
    /// signal.
    pub fn move_player(&mut self, index: usize) -> (r: Option<Signal>)
        requires
            old(self).in_play(),
            index < old(self).size(),
        ensures
            final(self).in_play(),
            final(self).cleared(old(self), old(self).current_player_position->0 as int),
            final(self).config == old(self).config,
            final(self).level == old(self).level,
            final(self).goal_position == old(self).goal_position,
            final(self).player_path@ == old(self).player_path@,
            if old(self).goal_position == Some(index) && old(self).player_path@.len() == 0 {
                &&& r == Some(Signal::LevelComplete)
                &&& final(self).current_player_position == old(self).current_player_position
            } else {
                &&& final(self).current_player_position == Some(index)
                &&& r == signal_for(final(self).nodes@[index as int].value)
            },
    {
        let current = self.current_player_position.unwrap();
        self.set_tile(current, Tile::Empty);
        if self.goal_position == Some(index) && self.player_path.len() == 0 {
            return Some(Signal::LevelComplete);
        }
        let ghost before = *self;
        self.current_player_position = Some(index);
        proof {
            before.lemma_same_nodes_adjacency(self);
        }
        match self.nodes[index].value {
            Tile::Enemy(_) => Some(Signal::CombatStart),
            Tile::Treasure(_) => Some(Signal::RewardStart),
            Tile::Empty => None,
        }
    }

    /// Takes the next room off the pending path and moves the player there
    /// (`move_player`); with no path pending nothing changes.
    pub fn advance_one_step(&mut self) -> (r: Option<Signal>)
        requires
            old(self).in_play(),
        ensures
            final(self).in_play(),
            final(self).config == old(self).config,
            final(self).level == old(self).level,
            final(self).goal_position == old(self).goal_position,
            old(self).player_path@.len() == 0 ==> {
                &&& r is None
                &&& final(self).nodes@ == old(self).nodes@
                &&& final(self).current_player_position == old(self).current_player_position
                &&& final(self).player_path@.len() == 0
            },
            old(self).player_path@.len() > 0 ==> {
                let next = old(self).player_path@.last();
                &&& final(self).player_path@ == old(self).player_path@.drop_last()
                &&& final(self).cleared(old(self), old(self).current_player_position->0 as int)
                &&& if old(self).goal_position == Some(next) && final(self).player_path@.len() == 0 {
                    &&& r == Some(Signal::LevelComplete)
                    &&& final(self).current_player_position == old(self).current_player_position
                } else {
                    &&& final(self).current_player_position == Some(next)
                    &&& r == signal_for(final(self).nodes@[next as int].value)
                }
            },
    {
        let ghost before = *self;
        match self.player_path.pop() {
            None => {
                proof {
                    before.lemma_same_nodes_adjacency(self);
                }
                None
            },
            Some(next) => {
                proof {
                    before.lemma_same_nodes_adjacency(self);
                    assert(old(self).player_path@.last() == next);
                    assert(old(self).player_path@[old(self).player_path@.len() - 1] < old(self).size());
                }
                self.move_player(next)
            },
        }
    }

    /// Replaces the pending path by a shortest route from the player's room to
    /// room `node_id`, or by no path when none leads there; returns whether a
    /// route was found. The player does not move.
    pub fn set_target(&mut self, node_id: usize) -> (found: bool)
        requires
            old(self).in_play(),
            node_id < old(self).size(),
        ensures
            final(self).in_play(),
            final(self).nodes@ == old(self).nodes@,
            final(self).config == old(self).config,
            final(self).level == old(self).level,
            final(self).current_player_position == old(self).current_player_position,
            final(self).goal_position == old(self).goal_position,
            found == old(self).reachable(old(self).current_player_position->0 as int, node_id as int),
            found ==> old(self).is_shortest_route(
                old(self).current_player_position->0 as int,
                node_id as int,
                final(self).player_path@,
            ),
            !found ==> final(self).player_path@.len() == 0,
    {
        let current = self.current_player_position.unwrap();
        match self.get_path(current, node_id) {
            Some(path) => {
                proof {
                    self.lemma_route_in_range(current as int, node_id as int, path@);
                }
                let ghost before = *self;
                self.player_path = path;
                proof {
                    before.lemma_same_nodes_adjacency(self);
                }
                true
            },
            None => {
                let ghost before = *self;
                self.player_path = Vec::new();
                proof {
                    before.lemma_same_nodes_adjacency(self);
                }
                false
            },
        }
    }

    /// Sets a route to the room at `(x, y)` when there is one, and returns its
    /// id; with no room there nothing changes.
    pub fn request_move_to(&mut self, x: isize, y: isize) -> (r: Option<usize>)
        requires
            old(self).in_play(),
        ensures
            final(self).in_play(),
            final(self).nodes@ == old(self).nodes@,
            final(self).config == old(self).config,
            final(self).level == old(self).level,
            final(self).current_player_position == old(self).current_player_position,
            final(self).goal_position == old(self).goal_position,
            match r {
                Some(i) => {
                    &&& i < old(self).size()
                    &&& old(self).at(i as int, x as int, y as int)
                    &&& (old(self).reachable(old(self).current_player_position->0 as int, i as int) ==> old(self).is_shortest_route(
                        old(self).current_player_position->0 as int,
                        i as int,
                        final(self).player_path@,
                    ))
                    &&& (!old(self).reachable(old(self).current_player_position->0 as int, i as int) ==> final(self).player_path@.len() == 0)
                },
                None => {
                    &&& forall|i: int| 0 <= i < old(self).size() ==> !old(self).at(i, x as int, y as int)
                    &&& final(self).player_path@ == old(self).player_path@
                },
            },
    {
        match self.get_node(x, y) {
            Some(i) => {
                self.set_target(i);
                Some(i)
            },
            None => None,
        }
    }

    /// Empties the player's room, as after a won fight or a taken reward.
    pub fn clear_current_tile(&mut self)
        requires
            old(self).in_play(),
        ensures
            final(self).in_play(),
            final(self).cleared(old(self), old(self).current_player_position->0 as int),
            final(self).same_state(old(self)),
    {
        let current = self.current_player_position.unwrap();
        self.set_tile(current, Tile::Empty);
    }
}

} // verus!
