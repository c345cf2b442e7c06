//! Placing the goal, the player, the treasure and the enemies on a board.

use vstd::prelude::*;
use rand::rngs::StdRng;
use crate::graph::{count_tile, lemma_count_tile_update, Enemy, Graph, Tile, Treasure};
use crate::ids::{first_in_pool, lemma_remove_distinct};
use crate::random::shuffle_ids;
use crate::config::{enemy_count, treasure_count};
use crate::geometry::MAX_GRID_SIZE;

verus! {

broadcast use vstd::seq_lib::group_to_multiset_ensures;

impl Graph {
    /// Room `v` has exactly one neighbour.
    pub open spec fn dead_end(&self, v: int) -> bool {
        self.nodes@[v].neighbors@.len() == 1
    }

    /// Room `v` is neither the goal nor the player's, and holds nothing.
    pub open spec fn unassigned(&self, v: int) -> bool {
        &&& self.nodes@[v].value == Tile::Empty
        &&& self.goal_position != Some(v as usize)
        &&& self.current_player_position != Some(v as usize)
    }

    /// `pool` lists, once each, exactly the unassigned rooms.
    pub open spec fn pool_ok(&self, pool: Seq<usize>) -> bool {
        &&& self.valid_ids(pool)
        &&& pool.no_duplicates()
        &&& forall|v: int| 0 <= v < self.size() ==> (#[trigger] pool.contains(v as usize) <==> self.unassigned(v))
    }

    /// The rooms and their neighbour lists are those of `other`; only contents may differ.
    pub open spec fn same_layout(&self, other: &Graph) -> bool {
        &&& self.nodes@.len() == other.nodes@.len()
        &&& forall|i: int|
            0 <= i < self.size() ==> {
                &&& (#[trigger] self.nodes@[i]).x == other.nodes@[i].x
                &&& self.nodes@[i].y == other.nodes@[i].y
                &&& self.nodes@[i].neighbors@ == other.nodes@[i].neighbors@
                &&& self.nodes@[i].index == other.nodes@[i].index
            }
    }

    /// Every room is empty.
    pub open spec fn all_empty(&self) -> bool {
        forall|i: int| 0 <= i < self.size() ==> (#[trigger] self.nodes@[i]).value == Tile::Empty
    }

    /// Room `v` holds treasure.
    pub open spec fn has_treasure(&self, v: int) -> bool {
        self.nodes@[v].value == Tile::Treasure(Treasure {  })
    }

    /// Room `v` holds an enemy.
    pub open spec fn has_enemy(&self, v: int) -> bool {
        self.nodes@[v].value == Tile::Enemy(Enemy {  })
    }

    /// The special rooms stand as the placement rules ask:
    /// - the goal and the player's room are two distinct empty rooms;
    /// - exactly `treasures()` rooms hold treasure and `enemies()` an enemy;
    /// - the goal is a dead end if any room is, and the player's room is one
    ///   if any room but the goal is;
    /// - no dead end is left unassigned while a treasure lies elsewhere;
    /// - when there are enemies, a shortest route from the player to the goal
    ///   that passes a room neither the goal's, the player's nor a treasure
    ///   room has an enemy on it.
    pub open spec fn populated(&self) -> bool {
        &&& self.goal_position matches Some(g)
        &&& self.current_player_position matches Some(p)
        &&& {
            let g = self.goal_position->0 as int;
            let p = self.current_player_position->0 as int;
            &&& g != p
            &&& self.nodes@[g].value == Tile::Empty
            &&& self.nodes@[p].value == Tile::Empty
            &&& count_tile(self.nodes@, Tile::Treasure(Treasure {  })) == self.config.treasures()
            &&& count_tile(self.nodes@, Tile::Enemy(Enemy {  })) == self.config.enemies()
            &&& (exists|v: int| 0 <= v < self.size() && #[trigger] self.dead_end(v)) ==> self.dead_end(g)
            &&& (exists|v: int| 0 <= v < self.size() && v != g && #[trigger] self.dead_end(v)) ==> self.dead_end(p)
            &&& forall|v: int, w: int|
                0 <= v < self.size() && 0 <= w < self.size() && #[trigger] self.has_treasure(v)
                    && #[trigger] self.unassigned(w) && self.dead_end(w) ==> self.dead_end(v)
            &&& self.config.enemies() > 0 ==> exists|r: Seq<usize>| {
                &&& self.is_shortest_route(p, g, r)
                &&& (exists|k: int|
                    0 <= k < r.len() && r[k] as int != g && r[k] as int != p && !self.has_treasure(
                        #[trigger] r[k] as int,
                    )) ==> exists|k: int| 0 <= k < r.len() && self.has_enemy(#[trigger] r[k] as int)
            }
        }
    }

    /// Sets the content of room `v`.
    pub(crate) fn set_tile(&mut self, v: usize, t: Tile)
        requires
            old(self).wf(),
            v < old(self).size(),
        ensures
            final(self).wf(),
            final(self).same_state(old(self)),
            final(self).same_layout(old(self)),
            final(self).nodes@[v as int].value == t,
            forall|i: int| 0 <= i < final(self).size() && i != v ==> #[trigger] final(self).nodes@[i] == old(self).nodes@[i],
            forall|a: int, b: int| #[trigger] final(self).adjacent(a, b) == old(self).adjacent(a, b),
            final(self).edge_count() == old(self).edge_count(),
            forall|tt: Tile|
                #[trigger] count_tile(final(self).nodes@, tt) == count_tile(old(self).nodes@, tt) - (if old(self).nodes@[v as int].value == tt {
                    1int
                } else {
                    0int
                }) + (if t == tt { 1int } else { 0int }),
    {
        let ghost o = self.nodes@;
        self.nodes[v].value = t;
        proof {
            assert(self.nodes@ =~= o.update(v as int, self.nodes@[v as int]));
            crate::graph::lemma_degree_sum_update(o, v as int, self.nodes@[v as int]);
            assert forall|tt: Tile| #[trigger] count_tile(self.nodes@, tt) == count_tile(o, tt) - (if o[v as int].value == tt {
                1int
            } else {
                0int
            }) + (if t == tt { 1int } else { 0int }) by {
                lemma_count_tile_update(o, v as int, self.nodes@[v as int], tt);
            }
            assert forall|a: int, b: int| #[trigger] self.adjacent(a, b) == old(self).adjacent(a, b) by {
                if 0 <= a < self.size() {
                    assert(self.nodes@[a].neighbors@ == o[a].neighbors@);
                }
            }
            assert(self.unique_positions()) by {
                assert forall|i: int, j: int|
                    0 <= i < self.size() && 0 <= j < self.size() && i != j implies !(
                    #[trigger] self.nodes@[i]).eq_position(#[trigger] self.nodes@[j]) by {
                    assert(o[i].eq_position(o[j]) == self.nodes@[i].eq_position(self.nodes@[j]));
                }
            }
            assert(self.simple_lists()) by {
                assert forall|i: int| 0 <= i < self.size() implies {
                    &&& (#[trigger] self.nodes@[i]).neighbors@.no_duplicates()
                    &&& forall|k: int|
                        0 <= k < self.nodes@[i].neighbors@.len() ==> {
                            &&& (#[trigger] self.nodes@[i].neighbors@[k]) < self.size()
                            &&& self.nodes@[i].neighbors@[k] != i
                        }
                } by {
                    assert(self.nodes@[i].neighbors@ == o[i].neighbors@);
                }
            }
        }
    }

    /// Takes from `pool` its first dead end, or its last room when it holds no
    /// dead end, and returns it.
    fn take_preferred(&self, pool: &mut Vec<usize>) -> (r: usize)
        requires
            self.wf(),
            old(pool)@.len() > 0,
            self.valid_ids(old(pool)@),
        ensures
            exists|k: int| {
                &&& 0 <= k < old(pool)@.len()
                &&& old(pool)@[k] == r
                &&& final(pool)@ == old(pool)@.remove(k)
                &&& forall|j: int| 0 <= j < k ==> !self.dead_end(#[trigger] old(pool)@[j] as int)
                &&& (self.dead_end(r as int) || k == old(pool)@.len() - 1)
            },
            (exists|j: int| 0 <= j < old(pool)@.len() && self.dead_end(#[trigger] old(pool)@[j] as int))
                ==> self.dead_end(r as int),
    {
        let mut i: usize = 0;
        while i < pool.len()
            invariant
                self.wf(),
                pool@ == old(pool)@,
                self.valid_ids(pool@),
                i <= pool@.len(),
                forall|j: int| 0 <= j < i ==> !self.dead_end(#[trigger] pool@[j] as int),
            decreases pool@.len() - i,
        {
            let v = pool[i];
            if self.nodes[v].neighbors.len() == 1 {
                let r = pool.remove(i);
                return r;
            }
            i = i + 1;
        }
        let ghost before = pool@;
        let r = pool.pop().unwrap();
        proof {
            assert(pool@ =~= before.remove(before.len() - 1));
        }
        r
    }

    /// Makes the room that `take_preferred` picks from `pool` the goal.
    fn add_goal(&mut self, pool: &mut Vec<usize>)
        requires
            old(self).wf(),
            old(self).pool_ok(old(pool)@),
            old(pool)@.len() > 0,
            old(self).goal_position is None,
        ensures
            final(self).wf(),
            final(self).nodes@ == old(self).nodes@,
            final(self).config == old(self).config,
            final(self).level == old(self).level,
            final(self).current_player_position == old(self).current_player_position,
            final(self).player_path@ == old(self).player_path@,
            final(self).pool_ok(final(pool)@),
            final(pool)@.len() == old(pool)@.len() - 1,
            final(self).goal_position matches Some(g) && old(pool)@.contains(g) && ((exists|j: int|
                0 <= j < old(pool)@.len() && old(self).dead_end(#[trigger] old(pool)@[j] as int))
                ==> old(self).dead_end(g as int)),
    {
        let ghost op = pool@;
        let g = self.take_preferred(pool);
        self.goal_position = Some(g);
        proof {
            let k = choose|k: int| {
                &&& 0 <= k < op.len()
                &&& op[k] == g
                &&& pool@ == op.remove(k)
                &&& forall|j: int| 0 <= j < k ==> !self.dead_end(#[trigger] op[j] as int)
                &&& (self.dead_end(g as int) || k == op.len() - 1)
            };
            lemma_remove_distinct(op, k);
            assert(op.contains(g));
            assert(op[k] < self.size());
            old(self).lemma_same_nodes_adjacency(self);
            assert forall|j: int| 0 <= j < pool@.len() implies (#[trigger] pool@[j]) < self.size() by {
                assert(pool@.contains(pool@[j]));
                let m = choose|m: int| 0 <= m < op.len() && op[m] == pool@[j];
                assert(op[m] < self.size());
            }
        }
    }

    /// Makes the room that `take_preferred` picks from `pool` the player's.
    fn add_player(&mut self, pool: &mut Vec<usize>)
        requires
            old(self).wf(),
            old(self).pool_ok(old(pool)@),
            old(pool)@.len() > 0,
            old(self).current_player_position is None,
        ensures
            final(self).wf(),
            final(self).nodes@ == old(self).nodes@,
            final(self).config == old(self).config,
            final(self).level == old(self).level,
            final(self).goal_position == old(self).goal_position,
            final(self).player_path@ == old(self).player_path@,
            final(self).pool_ok(final(pool)@),
            final(pool)@.len() == old(pool)@.len() - 1,
            final(self).current_player_position matches Some(p) && old(pool)@.contains(p) && ((exists|j: int|
                0 <= j < old(pool)@.len() && old(self).dead_end(#[trigger] old(pool)@[j] as int))
                ==> old(self).dead_end(p as int)),
    {
        let ghost op = pool@;
        let p = self.take_preferred(pool);
        self.current_player_position = Some(p);
        proof {
            let k = choose|k: int| {
                &&& 0 <= k < op.len()
                &&& op[k] == p
                &&& pool@ == op.remove(k)
                &&& forall|j: int| 0 <= j < k ==> !self.dead_end(#[trigger] op[j] as int)
                &&& (self.dead_end(p as int) || k == op.len() - 1)
            };
            lemma_remove_distinct(op, k);
            assert(op.contains(p));
            assert(op[k] < self.size());
            old(self).lemma_same_nodes_adjacency(self);
            assert forall|j: int| 0 <= j < pool@.len() implies (#[trigger] pool@[j]) < self.size() by {
                assert(pool@.contains(pool@[j]));
                let m = choose|m: int| 0 <= m < op.len() && op[m] == pool@[j];
                assert(op[m] < self.size());
            }
        }
    }

    /// Gives room `v`, taken out of `pool` at `pos`, the content `t`.
    fn assign(&mut self, pool: &mut Vec<usize>, pos: usize, t: Tile)
        requires
            old(self).wf(),
            old(self).pool_ok(old(pool)@),
            pos < old(pool)@.len(),
            t != Tile::Empty,
        ensures
            final(self).wf(),
            final(self).same_state(old(self)),
            final(self).same_layout(old(self)),
            final(self).pool_ok(final(pool)@),
            final(pool)@ == old(pool)@.remove(pos as int),
            final(self).nodes@[old(pool)@[pos as int] as int].value == t,
            forall|i: int|
                0 <= i < final(self).size() && i != old(pool)@[pos as int] ==> #[trigger] final(self).nodes@[i]
                    == old(self).nodes@[i],
            forall|a: int, b: int| #[trigger] final(self).adjacent(a, b) == old(self).adjacent(a, b),
            forall|tt: Tile|
                #[trigger] count_tile(final(self).nodes@, tt) == count_tile(old(self).nodes@, tt) - (if tt
                    == Tile::Empty {
                    1int
                } else {
                    0int
                }) + (if t == tt { 1int } else { 0int }),
    {
        let ghost op = pool@;
        let v = pool[pos];
        proof {
            assert(op.contains(v));
            assert(op[pos as int] < self.size());
            assert(op.contains((v as int) as usize));
            assert(self.unassigned(v as int));
        }
        self.set_tile(v, t);
        pool.remove(pos);
        proof {
            lemma_remove_distinct(op, pos as int);
            assert forall|j: int| 0 <= j < pool@.len() implies (#[trigger] pool@[j]) < self.size() by {
                assert(pool@.contains(pool@[j]));
                let m = choose|m: int| 0 <= m < op.len() && op[m] == pool@[j];
                assert(op[m] < self.size());
            }
            assert forall|w: int| 0 <= w < self.size() implies (#[trigger] pool@.contains(w as usize)
                <==> self.unassigned(w)) by {
                if w != v {
                    assert(self.nodes@[w] == old(self).nodes@[w]);
                    assert(op.contains(w as usize) <==> old(self).unassigned(w));
                }
            }
        }
    }

    /// Puts treasure in `max(1, round(rooms / treasure_divisor))` rooms of
    /// `pool`: its dead ends first, in pool order, then rooms from its end.
    fn add_treasure(&mut self, pool: &mut Vec<usize>)
        requires
            old(self).wf(),
            old(self).pool_ok(old(pool)@),
            old(self).config.treasure_divisor > 0,
            old(self).nodes@.len() <= MAX_GRID_SIZE * MAX_GRID_SIZE,
            old(pool)@.len() >= treasure_count(
                old(self).nodes@.len() as nat,
                old(self).config.treasure_divisor as nat,
            ),
        ensures
            final(self).wf(),
            final(self).same_state(old(self)),
            final(self).same_layout(old(self)),
            final(self).pool_ok(final(pool)@),
            final(pool)@.len() == old(pool)@.len() - treasure_count(
                old(self).nodes@.len() as nat,
                old(self).config.treasure_divisor as nat,
            ),
            forall|w: usize| #[trigger] final(pool)@.contains(w) ==> old(pool)@.contains(w),
            forall|v: int|
                0 <= v < final(self).size() ==> (#[trigger] final(self).nodes@[v]).value == (if old(pool)@.contains(
                    v as usize,
                ) && !final(pool)@.contains(v as usize) {
                    Tile::Treasure(Treasure {  })
                } else {
                    old(self).nodes@[v].value
                }),
            forall|v: int, w: int|
                0 <= v < final(self).size() && 0 <= w < final(self).size() && #[trigger] old(pool)@.contains(
                    v as usize,
                ) && !final(pool)@.contains(v as usize) && #[trigger] final(pool)@.contains(w as usize)
                    && old(self).dead_end(w) ==> old(self).dead_end(v),
            count_tile(final(self).nodes@, Tile::Treasure(Treasure {  })) == count_tile(
                old(self).nodes@,
                Tile::Treasure(Treasure {  }),
            ) + treasure_count(old(self).nodes@.len() as nat, old(self).config.treasure_divisor as nat),
            count_tile(final(self).nodes@, Tile::Enemy(Enemy {  })) == count_tile(
                old(self).nodes@,
                Tile::Enemy(Enemy {  }),
            ),
    {
        let t = self.config.treasure_total(self.nodes.len());
        let treasure = Tile::Treasure(Treasure {  });
        let ghost op = pool@;
        let ghost og = *self;
        let mut remaining = t;
        let mut i: usize = 0;
        while i < pool.len() && remaining > 0
            invariant
                self.wf(),
                self.same_state(&og),
                self.same_layout(&og),
                og.pool_ok(op),
                self.pool_ok(pool@),
                t == treasure_count(og.nodes@.len() as nat, og.config.treasure_divisor as nat),
                og.config.treasure_divisor > 0,
                treasure == Tile::Treasure(Treasure {  }),
                remaining <= t,
                pool@.len() + (t - remaining) == op.len(),
                i <= pool@.len(),
                forall|j: int| 0 <= j < i ==> !og.dead_end(#[trigger] pool@[j] as int),
                forall|w: usize| #[trigger] pool@.contains(w) ==> op.contains(w),
                forall|v: int|
                    0 <= v < self.size() ==> (#[trigger] self.nodes@[v]).value == (if op.contains(v as usize)
                        && !pool@.contains(v as usize) {
                        treasure
                    } else {
                        og.nodes@[v].value
                    }),
                forall|v: int|
                    0 <= v < self.size() && op.contains(v as usize) && !(#[trigger] pool@.contains(v as usize))
                        ==> og.dead_end(v),
                count_tile(self.nodes@, treasure) == count_tile(og.nodes@, treasure) + (t - remaining),
                count_tile(self.nodes@, Tile::Enemy(Enemy {  })) == count_tile(og.nodes@, Tile::Enemy(Enemy {  })),
            decreases pool@.len() - i,
        {
            let v = pool[i];
            if self.nodes[v].neighbors.len() == 1 {
                let ghost pp = pool@;
                let ghost before = *self;
                self.assign(pool, i, treasure);
                remaining = remaining - 1;
                proof {
                    lemma_remove_distinct(pp, i as int);
                    assert forall|j: int| 0 <= j < i implies !og.dead_end(#[trigger] pool@[j] as int) by {
                        assert(pool@[j] == pp[j]);
                    }
                    assert forall|w: int|
                        0 <= w < self.size() implies (#[trigger] self.nodes@[w]).value == (if op.contains(w as usize)
                        && !pool@.contains(w as usize) {
                        treasure
                    } else {
                        og.nodes@[w].value
                    }) by {
                        if w != v {
                            assert(self.nodes@[w] == before.nodes@[w]);
                            assert(pool@.contains(w as usize) == pp.contains(w as usize));
                        } else {
                            assert(pp[i as int] == v);
                            assert(pp.contains(v));
                            assert(op.contains(v));
                        }
                    }
                }
            } else {
                i = i + 1;
            }
        }
        while remaining > 0
            invariant
                self.wf(),
                self.same_state(&og),
                self.same_layout(&og),
                og.pool_ok(op),
                self.pool_ok(pool@),
                t == treasure_count(og.nodes@.len() as nat, og.config.treasure_divisor as nat),
                og.config.treasure_divisor > 0,
                treasure == Tile::Treasure(Treasure {  }),
                remaining <= t,
                pool@.len() + (t - remaining) == op.len(),
                op.len() >= t,
                remaining > 0 ==> forall|j: int| 0 <= j < pool@.len() ==> !og.dead_end(#[trigger] pool@[j] as int),
                forall|w: usize| #[trigger] pool@.contains(w) ==> op.contains(w),
                forall|v: int|
                    0 <= v < self.size() ==> (#[trigger] self.nodes@[v]).value == (if op.contains(v as usize)
                        && !pool@.contains(v as usize) {
                        treasure
                    } else {
                        og.nodes@[v].value
                    }),
                forall|v: int, w: int|
                    0 <= v < self.size() && 0 <= w < self.size() && #[trigger] op.contains(v as usize) && !pool@.contains(
                        v as usize,
                    ) && #[trigger] pool@.contains(w as usize) && og.dead_end(w) ==> og.dead_end(v),
                count_tile(self.nodes@, treasure) == count_tile(og.nodes@, treasure) + (t - remaining),
                count_tile(self.nodes@, Tile::Enemy(Enemy {  })) == count_tile(og.nodes@, Tile::Enemy(Enemy {  })),
            decreases remaining,
        {
            let last = pool.len() - 1;
            let ghost pp = pool@;
            let ghost before = *self;
            let v = pool[last];
            self.assign(pool, last, treasure);
            remaining = remaining - 1;
            proof {
                lemma_remove_distinct(pp, last as int);
                assert forall|w: int|
                    0 <= w < self.size() implies (#[trigger] self.nodes@[w]).value == (if op.contains(w as usize)
                    && !pool@.contains(w as usize) {
                    treasure
                } else {
                    og.nodes@[w].value
                }) by {
                    if w != v {
                        assert(self.nodes@[w] == before.nodes@[w]);
                        assert(pool@.contains(w as usize) == pp.contains(w as usize));
                    } else {
                        assert(pp[last as int] == v);
                        assert(pp.contains(v));
                        assert(op.contains(v));
                    }
                }
                assert forall|j: int| 0 <= j < pool@.len() implies !og.dead_end(#[trigger] pool@[j] as int) by {
                    assert(pool@[j] == pp[j]);
                }
            }
        }
    }

    /// Puts enemies in `rooms / enemy_divisor` rooms of `pool`. When there is
    /// one to place, the first room of `pool` met on the shuffled shortest route
    /// from the player to the goal gets it; the rest come from the end of `pool`.
    fn add_enemies(&mut self, pool: &mut Vec<usize>, rng: &mut StdRng)
        requires
            old(self).wf(),
            old(self).pool_ok(old(pool)@),
            old(self).config.enemy_divisor > 0,
            old(pool)@.len() >= enemy_count(
                old(self).nodes@.len() as nat,
                old(self).config.enemy_divisor as nat,
            ),
            old(self).current_player_position is Some,
            old(self).goal_position is Some,
        ensures
            final(self).wf(),
            final(self).same_state(old(self)),
            final(self).same_layout(old(self)),
            final(self).pool_ok(final(pool)@),
            final(pool)@.len() == old(pool)@.len() - enemy_count(
                old(self).nodes@.len() as nat,
                old(self).config.enemy_divisor as nat,
            ),
            forall|v: int|
                0 <= v < final(self).size() ==> (#[trigger] final(self).nodes@[v]).value == (if old(pool)@.contains(
                    v as usize,
                ) && !final(pool)@.contains(v as usize) {
                    Tile::Enemy(Enemy {  })
                } else {
                    old(self).nodes@[v].value
                }),
            count_tile(final(self).nodes@, Tile::Enemy(Enemy {  })) == count_tile(
                old(self).nodes@,
                Tile::Enemy(Enemy {  }),
            ) + enemy_count(old(self).nodes@.len() as nat, old(self).config.enemy_divisor as nat),
            count_tile(final(self).nodes@, Tile::Treasure(Treasure {  })) == count_tile(
                old(self).nodes@,
                Tile::Treasure(Treasure {  }),
            ),
            ({
                let pl = old(self).current_player_position->0 as int;
                let gl = old(self).goal_position->0 as int;
                enemy_count(old(self).nodes@.len() as nat, old(self).config.enemy_divisor as nat) > 0
                    && old(self).reachable(pl, gl) ==> exists|p: Seq<usize>| {
                    &&& old(self).is_shortest_route(pl, gl, p)
                    &&& (exists|k: int| 0 <= k < p.len() && old(pool)@.contains(#[trigger] p[k]))
                        ==> exists|k: int|
                        0 <= k < p.len() && old(pool)@.contains(#[trigger] p[k]) && !final(pool)@.contains(p[k])
                            && final(self).nodes@[p[k] as int].value == Tile::Enemy(Enemy {  })
                }
            }),
    {
        let e = self.config.enemy_total(self.nodes.len());
        let enemy = Tile::Enemy(Enemy {  });
        let ghost op = pool@;
        let ghost og = *self;
        let ghost pl = og.current_player_position->0 as int;
        let ghost gl = og.goal_position->0 as int;
        let ghost mut route: Seq<usize> = Seq::empty();
        let ghost mut forced: int = -1;
        let mut remaining = e;
        if remaining > 0 {
            let player = self.current_player_position.unwrap();
            let goal = self.goal_position.unwrap();
            match self.get_path(player, goal) {
                Some(mut path) => {
                    proof {
                        route = path@;
                    }
                    shuffle_ids(rng, &mut path);
                    match first_in_pool(&path, pool) {
                        Some(pos) => {
                            let v = pool[pos];
                            proof {
                                let k = choose|k: int|
                                    0 <= k < path@.len() && path@[k] == pool@[pos as int] && forall|j: int|
                                        0 <= j < k ==> !pool@.contains(#[trigger] path@[j]);
                                assert(path@.contains(v));
                                assert(path@.to_multiset().count(v) > 0);
                                assert(route.to_multiset().count(v) > 0);
                                assert(route.contains(v));
                                forced = v as int;
                                assert(op.contains(v));
                                assert(op[pos as int] < self.size());
                            }
                            self.assign(pool, pos, enemy);
                            remaining = remaining - 1;
                            proof {
                                lemma_remove_distinct(op, pos as int);
                            }
                        },
                        None => {
                            proof {
                                assert forall|k: int| 0 <= k < route.len() implies !op.contains(#[trigger] route[k]) by {
                                    assert(route.contains(route[k]));
                                    assert(route.to_multiset().count(route[k]) > 0);
                                    assert(path@.to_multiset().count(route[k]) > 0);
                                    assert(path@.contains(route[k]));
                                    let m = choose|m: int| 0 <= m < path@.len() && path@[m] == route[k];
                                    assert(!pool@.contains(path@[m]));
                                }
                            }
                        },
                    }
                },
                None => {},
            }
        }
        while remaining > 0
            invariant
                self.wf(),
                self.same_state(&og),
                self.same_layout(&og),
                og.pool_ok(op),
                self.pool_ok(pool@),
                e == enemy_count(og.nodes@.len() as nat, og.config.enemy_divisor as nat),
                og.config.enemy_divisor > 0,
                enemy == Tile::Enemy(Enemy {  }),
                remaining <= e,
                pool@.len() + (e - remaining) == op.len(),
                op.len() >= e,
                forall|w: usize| #[trigger] pool@.contains(w) ==> op.contains(w),
                forall|v: int|
                    0 <= v < self.size() ==> (#[trigger] self.nodes@[v]).value == (if op.contains(v as usize)
                        && !pool@.contains(v as usize) {
                        enemy
                    } else {
                        og.nodes@[v].value
                    }),
                count_tile(self.nodes@, enemy) == count_tile(og.nodes@, enemy) + (e - remaining),
                count_tile(self.nodes@, Tile::Treasure(Treasure {  })) == count_tile(og.nodes@, Tile::Treasure(Treasure {  })),
                forced >= 0 ==> 0 <= forced < self.size() && op.contains(forced as usize) && !pool@.contains(forced as usize)
                    && route.contains(forced as usize),
                e > 0 && og.reachable(pl, gl) ==> og.is_shortest_route(pl, gl, route) && ((exists|k: int|
                    0 <= k < route.len() && op.contains(#[trigger] route[k])) ==> forced >= 0),
            decreases remaining,
        {
            let last = pool.len() - 1;
            let ghost pp = pool@;
            let ghost before = *self;
            let v = pool[last];
            self.assign(pool, last, enemy);
            remaining = remaining - 1;
            proof {
                lemma_remove_distinct(pp, last as int);
                assert forall|w: int|
                    0 <= w < self.size() implies (#[trigger] self.nodes@[w]).value == (if op.contains(w as usize)
                    && !pool@.contains(w as usize) {
                    enemy
                } else {
                    og.nodes@[w].value
                }) by {
                    if w != v {
                        assert(self.nodes@[w] == before.nodes@[w]);
                        assert(pool@.contains(w as usize) == pp.contains(w as usize));
                    } else {
                        assert(pp[last as int] == v);
                        assert(pp.contains(v));
                        assert(op.contains(v));
                    }
                }
                if forced >= 0 {
                    assert(pool@.contains(forced as usize) ==> pp.contains(forced as usize));
                }
            }
        }
        proof {
            if e > 0 && og.reachable(pl, gl) {
                if exists|k: int| 0 <= k < route.len() && op.contains(#[trigger] route[k]) {
                    let k = choose|k: int| 0 <= k < route.len() && route[k] == forced as usize;
                    assert(self.nodes@[route[k] as int].value == enemy);
                    assert(op.contains(route[k]) && !pool@.contains(route[k]));
                }
            }
        }
    }

    /// Places the goal, the player, the treasure and the enemies, in that order,
    /// each taking its rooms from one shuffled pool of the unassigned rooms.
    pub(crate) fn populate_board(&mut self, rng: &mut StdRng)
        requires
            old(self).wf(),
            old(self).connected(),
            old(self).all_empty(),
            old(self).goal_position is None,
            old(self).current_player_position is None,
            old(self).config.valid(),
            old(self).nodes@.len() == old(self).config.rooms(),
            old(self).nodes@.len() <= MAX_GRID_SIZE * MAX_GRID_SIZE,
        ensures
            final(self).wf(),
            final(self).same_layout(old(self)),
            final(self).config == old(self).config,
            final(self).level == old(self).level,
            final(self).player_path@ == old(self).player_path@,
            final(self).populated(),
    {
        let n = self.nodes.len();
        let mut pool: Vec<usize> = Vec::new();
        let mut k: usize = 0;
        while k < n
            invariant
                k <= n,
                pool@.len() == k,
                forall|j: int| 0 <= j < k ==> (#[trigger] pool@[j]) == j,
            decreases n - k,
        {
            pool.push(k);
            k = k + 1;
        }
        let ghost ordered = pool@;
        proof {
            assert(ordered.no_duplicates());
            ordered.lemma_multiset_has_no_duplicates();
        }
        shuffle_ids(rng, &mut pool);
        let ghost g0 = *self;
        proof {
            assert forall|x: usize| pool@.to_multiset().contains(x) implies pool@.to_multiset().count(x) == 1 by {
                assert(ordered.to_multiset().contains(x));
            }
            pool@.lemma_multiset_has_no_duplicates_conv();
            assert forall|v: usize| #[trigger] pool@.contains(v) <==> ordered.contains(v) by {
                assert(pool@.to_multiset().count(v) == ordered.to_multiset().count(v));
            }
            assert forall|j: int| 0 <= j < pool@.len() implies (#[trigger] pool@[j]) < self.size() by {
                assert(pool@.contains(pool@[j]));
                let m = choose|m: int| 0 <= m < ordered.len() && ordered[m] == pool@[j];
            }
            assert forall|v: int| 0 <= v < self.size() implies (#[trigger] pool@.contains(v as usize) <==> self.unassigned(v)) by {
                assert(ordered[v] == v as usize);
            }
            crate::graph::lemma_count_tile_none(self.nodes@, Tile::Treasure(Treasure {  }));
            crate::graph::lemma_count_tile_none(self.nodes@, Tile::Enemy(Enemy {  }));
        }
        let ghost p0 = pool@;
        self.add_goal(&mut pool);
        let ghost p1 = pool@;
        self.add_player(&mut pool);
        let ghost p2 = pool@;
        let ghost g2 = *self;
        self.add_treasure(&mut pool);
        let ghost p3 = pool@;
        let ghost g3 = *self;
        self.add_enemies(&mut pool, rng);
        proof {
            let g = self.goal_position->0 as int;
            let p = self.current_player_position->0 as int;
            assert(self.nodes@.len() == n);
            // The goal and the player.
            assert(p1.contains(p as usize));
            assert(!p1.contains(g as usize)) by {
                assert(g2.goal_position == Some(g as usize));
            }
            assert(g != p);
            assert(!g2.unassigned(g));
            assert(!p2.contains(g as usize));
            assert(!g2.unassigned(p));
            assert(!p2.contains(p as usize));
            assert(g3.nodes@[g].value == g2.nodes@[g].value);
            assert(g3.nodes@[p].value == g2.nodes@[p].value);
            assert(!g3.unassigned(g));
            assert(!p3.contains(g as usize));
            assert(!g3.unassigned(p));
            assert(!p3.contains(p as usize));
            assert(self.nodes@[g].value == g3.nodes@[g].value);
            assert(self.nodes@[p].value == g3.nodes@[p].value);
            if exists|v: int| 0 <= v < self.size() && #[trigger] self.dead_end(v) {
                let v = choose|v: int| 0 <= v < self.size() && #[trigger] self.dead_end(v);
                assert(g0.dead_end(v));
                assert(p0.contains(v as usize));
                let j = choose|j: int| 0 <= j < p0.len() && p0[j] == v as usize;
                assert(g0.dead_end(p0[j] as int));
                assert(g0.dead_end(g));
            }
            if exists|v: int| 0 <= v < self.size() && v != g && #[trigger] self.dead_end(v) {
                let v = choose|v: int| 0 <= v < self.size() && v != g && #[trigger] self.dead_end(v);
                assert(g0.dead_end(v));
                assert(g2.unassigned(v) || g2.current_player_position == Some(v as usize));
                if v != p {
                    assert(p2.contains(v as usize));
                }
                assert(p1.contains(v as usize)) by {
                    assert(p0.contains(v as usize));
                }
                let j = choose|j: int| 0 <= j < p1.len() && p1[j] == v as usize;
                assert(g0.dead_end(p1[j] as int));
                assert(g0.dead_end(p));
            }
            // Treasure rooms before dead ends.
            assert forall|v: int, w: int|
                0 <= v < self.size() && 0 <= w < self.size() && #[trigger] self.has_treasure(v)
                    && #[trigger] self.unassigned(w) && self.dead_end(w) implies self.dead_end(v) by {
                assert(self.nodes@[w].value == g3.nodes@[w].value);
                assert(g3.unassigned(w));
                assert(p3.contains(w as usize));
                assert(g3.nodes@[v].value == self.nodes@[v].value);
                assert(p2.contains(v as usize));
                assert(!p3.contains(v as usize));
                assert(g2.dead_end(w));
            }
            // The forced encounter.
            if self.config.enemies() > 0 {
                g0.lemma_connected_pairs(p, g);
                g0.lemma_same_nodes_adjacency(&g2);
                g0.lemma_same_adjacency_routes(&g3, p, g, seq![]);
                g3.lemma_same_adjacency_routes(self, p, g, seq![]);
                assert(g3.reachable(p, g));
                let r = choose|r: Seq<usize>| {
                    &&& g3.is_shortest_route(p, g, r)
                    &&& (exists|k: int| 0 <= k < r.len() && p3.contains(#[trigger] r[k]))
                        ==> exists|k: int|
                        0 <= k < r.len() && p3.contains(#[trigger] r[k]) && !pool@.contains(r[k])
                            && self.nodes@[r[k] as int].value == Tile::Enemy(Enemy {  })
                };
                g3.lemma_same_adjacency_routes(self, p, g, r);
                if exists|k: int|
                    0 <= k < r.len() && r[k] as int != g && r[k] as int != p && !self.has_treasure(
                        #[trigger] r[k] as int,
                    ) {
                    let k = choose|k: int|
                        0 <= k < r.len() && r[k] as int != g && r[k] as int != p && !self.has_treasure(
                            #[trigger] r[k] as int,
                        );
                    let v = r[k] as int;
                    self.lemma_route_in_range(p, g, r);
                    assert(0 <= v < self.size());
                    if !self.has_enemy(v) {
                        assert(self.nodes@[v].value == Tile::Empty);
                        assert(g3.nodes@[v].value == Tile::Empty);
                        assert(p3.contains(r[k]));
                    }
                    assert(exists|k: int| 0 <= k < r.len() && self.has_enemy(#[trigger] r[k] as int));
                }
            }
        }
    }
}

} // verus!
