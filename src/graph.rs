//! The board: rooms on grid coordinates, their content and their adjacency.

use vstd::prelude::*;
use crate::config::Config;
use crate::geometry::{dist2, distance_squared, in_bounds};

verus! {

/// What an enemy room holds.
#[derive(PartialEq, Eq, Structural, Clone, Copy, Debug, Hash)]
pub struct Enemy {}

/// What a treasure room holds.
#[derive(PartialEq, Eq, Structural, Clone, Copy, Debug, Hash)]
pub struct Treasure {}

/// The content of a room. The player and the goal are kept apart, as positions.
#[derive(PartialEq, Eq, Structural, Clone, Copy, Debug, Hash)]
pub enum Tile {
    Empty,
    Enemy(Enemy),
    Treasure(Treasure),
}

/// A room: its grid coordinates, content, neighbours (by id) and own id.
#[derive(Clone, Debug)]
pub struct Node {
    pub x: isize,
    pub y: isize,
    pub value: Tile,
    pub neighbors: Vec<usize>,
    pub index: usize,
}

/// The board. `nodes[i]` has id `i`; `player_path` is consumed from its end.
pub struct Graph {
    pub config: Config,
    pub level: usize,
    pub nodes: Vec<Node>,
    pub current_player_position: Option<usize>,
    pub goal_position: Option<usize>,
    pub player_path: Vec<usize>,
}

/// Sum of the lengths of all neighbour lists: twice the number of edges.
pub open spec fn degree_sum(nodes: Seq<Node>) -> int
    decreases nodes.len(),
{
    if nodes.len() == 0 {
        0
    } else {
        degree_sum(nodes.drop_last()) + nodes.last().neighbors@.len()
    }
}

/// Number of rooms whose content is `t`.
pub open spec fn count_tile(nodes: Seq<Node>, t: Tile) -> int
    decreases nodes.len(),
{
    if nodes.len() == 0 {
        0
    } else {
        count_tile(nodes.drop_last(), t) + if nodes.last().value == t { 1int } else { 0int }
    }
}

/// Replacing one room changes the degree sum by the change of its list length.
pub proof fn lemma_degree_sum_update(nodes: Seq<Node>, i: int, nd: Node)
    requires
        0 <= i < nodes.len(),
    ensures
        degree_sum(nodes.update(i, nd)) == degree_sum(nodes) - nodes[i].neighbors@.len()
            + nd.neighbors@.len(),
    decreases nodes.len(),
{
    if i == nodes.len() - 1 {
        assert(nodes.update(i, nd).drop_last() =~= nodes.drop_last());
    } else {
        lemma_degree_sum_update(nodes.drop_last(), i, nd);
        assert(nodes.update(i, nd).drop_last() =~= nodes.drop_last().update(i, nd));
    }
}

/// The degree sum depends on the lengths of the neighbour lists alone.
pub proof fn lemma_degree_sum_same(a: Seq<Node>, b: Seq<Node>)
    requires
        a.len() == b.len(),
        forall|i: int| 0 <= i < a.len() ==> (#[trigger] a[i]).neighbors@.len() == b[i].neighbors@.len(),
    ensures
        degree_sum(a) == degree_sum(b),
    decreases a.len(),
{
    if a.len() > 0 {
        lemma_degree_sum_same(a.drop_last(), b.drop_last());
    }
}

/// Replacing one room changes each content count by that room alone.
pub proof fn lemma_count_tile_update(nodes: Seq<Node>, i: int, nd: Node, t: Tile)
    requires
        0 <= i < nodes.len(),
    ensures
        count_tile(nodes.update(i, nd), t) == count_tile(nodes, t) - (if nodes[i].value == t {
            1int
        } else {
            0int
        }) + (if nd.value == t { 1int } else { 0int }),
    decreases nodes.len(),
{
    if i == nodes.len() - 1 {
        assert(nodes.update(i, nd).drop_last() =~= nodes.drop_last());
    } else {
        lemma_count_tile_update(nodes.drop_last(), i, nd, t);
        assert(nodes.update(i, nd).drop_last() =~= nodes.drop_last().update(i, nd));
    }
}

/// No room holds `t`, so none is counted.
pub proof fn lemma_count_tile_none(nodes: Seq<Node>, t: Tile)
    requires
        forall|i: int| 0 <= i < nodes.len() ==> nodes[i].value != t,
    ensures
        count_tile(nodes, t) == 0,
    decreases nodes.len(),
{
    if nodes.len() > 0 {
        lemma_count_tile_none(nodes.drop_last(), t);
    }
}

/// What a sequence holds after a push.
pub proof fn lemma_push_contains(s: Seq<usize>, v: usize)
    ensures
        forall|x: usize| #[trigger] s.push(v).contains(x) <==> (s.contains(x) || x == v),
{
    assert forall|x: usize| #[trigger] s.push(v).contains(x) <==> (s.contains(x) || x == v) by {
        if s.contains(x) {
            let k = choose|k: int| 0 <= k < s.len() && s[k] == x;
            assert(s.push(v)[k] == x);
        }
        if x == v {
            assert(s.push(v)[s.len() as int] == x);
        }
        if s.push(v).contains(x) {
            let k = choose|k: int| 0 <= k < s.push(v).len() && s.push(v)[k] == x;
            if k < s.len() {
                assert(s[k] == x);
            }
        }
    }
}

impl Graph {
    /// Number of rooms.
    pub open spec fn size(&self) -> int {
        self.nodes@.len() as int
    }

    /// `b` is in the neighbour list of `a`.
    pub open spec fn adjacent(&self, a: int, b: int) -> bool {
        &&& 0 <= a < self.size()
        &&& 0 <= b < self.size()
        &&& self.nodes@[a].neighbors@.contains(b as usize)
    }

    /// Number of edges.
    pub open spec fn edge_count(&self) -> int {
        degree_sum(self.nodes@) / 2
    }

    /// Squared distance between rooms `a` and `b`.
    pub open spec fn node_dist(&self, a: int, b: int) -> int {
        dist2(
            self.nodes@[a].x as int,
            self.nodes@[a].y as int,
            self.nodes@[b].x as int,
            self.nodes@[b].y as int,
        )
    }

    /// Room `i` stands at `(x, y)`.
    pub open spec fn at(&self, i: int, x: int, y: int) -> bool {
        self.nodes@[i].x as int == x && self.nodes@[i].y as int == y
    }

    /// Each room knows its own id.
    pub open spec fn ids_ok(&self) -> bool {
        forall|i: int| 0 <= i < self.size() ==> (#[trigger] self.nodes@[i]).index == i
    }

    /// All coordinates lie on a grid of the largest size.
    pub open spec fn coords_in_bounds(&self) -> bool {
        forall|i: int|
            0 <= i < self.size() ==> in_bounds((#[trigger] self.nodes@[i]).x as int) && in_bounds(
                self.nodes@[i].y as int,
            )
    }

    /// No two rooms share coordinates.
    pub open spec fn unique_positions(&self) -> bool {
        forall|i: int, j: int|
            0 <= i < self.size() && 0 <= j < self.size() && i != j ==> !(#[trigger] self.nodes@[i]).eq_position(
                #[trigger] self.nodes@[j],
            )
    }

    /// Each neighbour list names existing rooms, other than the room itself, once each.
    pub open spec fn simple_lists(&self) -> bool {
        forall|i: int|
            0 <= i < self.size() ==> {
                &&& (#[trigger] self.nodes@[i]).neighbors@.no_duplicates()
                &&& forall|k: int|
                    0 <= k < self.nodes@[i].neighbors@.len() ==> {
                        &&& (#[trigger] self.nodes@[i].neighbors@[k]) < self.size()
                        &&& self.nodes@[i].neighbors@[k] != i
                    }
            }
    }

    /// Adjacency goes both ways.
    pub open spec fn symmetric(&self) -> bool {
        forall|a: int, b: int| #[trigger] self.adjacent(a, b) ==> self.adjacent(b, a)
    }

    /// The player, the goal and every step of the pending path name existing rooms.
    pub open spec fn markers_ok(&self) -> bool {
        &&& (self.current_player_position matches Some(p) ==> p < self.size())
        &&& (self.goal_position matches Some(g) ==> g < self.size())
        &&& forall|k: int|
            0 <= k < self.player_path@.len() ==> (#[trigger] self.player_path@[k]) < self.size()
    }

    /// The structural invariant of a board.
    pub open spec fn wf(&self) -> bool {
        &&& self.ids_ok()
        &&& self.coords_in_bounds()
        &&& self.unique_positions()
        &&& self.simple_lists()
        &&& self.symmetric()
        &&& self.markers_ok()
    }

    /// All but the rooms are as in `other`.
    pub open spec fn same_state(&self, other: &Graph) -> bool {
        &&& self.config == other.config
        &&& self.level == other.level
        &&& self.current_player_position == other.current_player_position
        &&& self.goal_position == other.goal_position
        &&& self.player_path@ == other.player_path@
    }

    /// A board with no room, to be filled by `add_node` and `add_edge`.
    pub fn empty(config: Config) -> (g: Graph)
        ensures
            g.wf(),
            g.nodes@.len() == 0,
            g.config == config,
            g.level == 0,
            g.current_player_position is None,
            g.goal_position is None,
            g.player_path@.len() == 0,
    {
        Graph {
            config,
            level: 0,
            nodes: Vec::new(),
            current_player_position: None,
            goal_position: None,
            player_path: Vec::new(),
        }
    }

    /// Appends a room with no neighbour at fresh coordinates.
    pub fn add_node(&mut self, node: Node)
        requires
            old(self).wf(),
            node.index == old(self).nodes@.len(),
            node.neighbors@.len() == 0,
            in_bounds(node.x as int),
            in_bounds(node.y as int),
            forall|i: int| 0 <= i < old(self).size() ==> !(#[trigger] old(self).nodes@[i]).eq_position(node),
        ensures
            final(self).wf(),
            final(self).nodes@ == old(self).nodes@.push(node),
            final(self).same_state(old(self)),
            final(self).edge_count() == old(self).edge_count(),
    {
        self.nodes.push(node);
        proof {
            let s = self.nodes@;
            assert(s.drop_last() =~= old(self).nodes@);
            assert(forall|a: int, b: int| #[trigger] self.adjacent(a, b) ==> old(self).adjacent(a, b));
            assert(forall|a: int, b: int| old(self).adjacent(a, b) ==> #[trigger] self.adjacent(a, b));
        }
    }

    /// Connects two distinct rooms that are not yet neighbours.
    pub fn add_edge(&mut self, node_1: usize, node_2: usize)
        requires
            old(self).wf(),
            node_1 < old(self).nodes@.len(),
            node_2 < old(self).nodes@.len(),
            node_1 != node_2,
            !old(self).adjacent(node_1 as int, node_2 as int),
        ensures
            final(self).wf(),
            final(self).same_state(old(self)),
            final(self).nodes@.len() == old(self).nodes@.len(),
            final(self).nodes@[node_1 as int].neighbors@ == old(self).nodes@[node_1 as int].neighbors@.push(node_2),
            final(self).nodes@[node_2 as int].neighbors@ == old(self).nodes@[node_2 as int].neighbors@.push(node_1),
            forall|i: int|
                0 <= i < final(self).nodes@.len() ==> {
                    &&& (#[trigger] final(self).nodes@[i]).x == old(self).nodes@[i].x
                    &&& final(self).nodes@[i].y == old(self).nodes@[i].y
                    &&& final(self).nodes@[i].value == old(self).nodes@[i].value
                    &&& final(self).nodes@[i].index == old(self).nodes@[i].index
                },
            forall|i: int|
                0 <= i < final(self).nodes@.len() && i != node_1 && i != node_2
                    ==> (#[trigger] final(self).nodes@[i]) == old(self).nodes@[i],
            forall|a: int, b: int|
                #[trigger] final(self).adjacent(a, b) <==> (old(self).adjacent(a, b) || (a
                    == node_1 && b == node_2) || (a == node_2 && b == node_1)),
            final(self).edge_count() == old(self).edge_count() + 1,
    {
        let ghost o = self.nodes@;
        self.nodes[node_1].neighbors.push(node_2);
        let ghost mid = self.nodes@;
        self.nodes[node_2].neighbors.push(node_1);
        proof {
            let a1 = node_1 as int;
            let a2 = node_2 as int;
            lemma_degree_sum_update(o, a1, mid[a1]);
            assert(mid =~= o.update(a1, mid[a1]));
            lemma_degree_sum_update(mid, a2, self.nodes@[a2]);
            assert(self.nodes@ =~= mid.update(a2, self.nodes@[a2]));
            lemma_push_contains(o[a1].neighbors@, node_2);
            lemma_push_contains(o[a2].neighbors@, node_1);
            assert(self.nodes@[a1].neighbors@ == o[a1].neighbors@.push(node_2));
            assert(self.nodes@[a2].neighbors@ == o[a2].neighbors@.push(node_1));
            assert forall|a: int, b: int|
                #[trigger] self.adjacent(a, b) <==> (old(self).adjacent(a, b) || (a == a1 && b
                    == a2) || (a == a2 && b == a1)) by {
                if 0 <= a < self.size() && a != a1 && a != a2 {
                    assert(self.nodes@[a] == o[a]);
                }
                if 0 <= b < self.size() {
                    assert(o[a1].neighbors@.push(node_2).contains(b as usize) <==> (
                    o[a1].neighbors@.contains(b as usize) || b as usize == node_2));
                    assert(o[a2].neighbors@.push(node_1).contains(b as usize) <==> (
                    o[a2].neighbors@.contains(b as usize) || b as usize == node_1));
                }
            }
            if o[a2].neighbors@.contains(node_1) {
                assert(old(self).adjacent(a2, a1));
            }
            assert(self.simple_lists()) by {
                assert forall|i: int| 0 <= i < self.size() implies {
                    &&& (#[trigger] self.nodes@[i]).neighbors@.no_duplicates()
                    &&& forall|k: int|
                        0 <= k < self.nodes@[i].neighbors@.len() ==> {
                            &&& (#[trigger] self.nodes@[i].neighbors@[k]) < self.size()
                            &&& self.nodes@[i].neighbors@[k] != i
                        }
                } by {
                    if i != a1 && i != a2 {
                        assert(self.nodes@[i] == o[i]);
                    }
                }
            }
            assert(self.unique_positions()) by {
                assert forall|i: int, j: int|
                    0 <= i < self.size() && 0 <= j < self.size() && i != j implies !(
                    #[trigger] self.nodes@[i]).eq_position(#[trigger] self.nodes@[j]) by {
                    assert(o[i].eq_position(o[j]) == self.nodes@[i].eq_position(self.nodes@[j]));
                }
            }
        }
    }
}

impl Graph {
    /// `pos` is the first position in `ids` of a room nearest to room `from`.
    pub open spec fn first_nearest(&self, ids: Seq<usize>, from: int, pos: int) -> bool {
        &&& 0 <= pos < ids.len()
        &&& forall|j: int|
            0 <= j < ids.len() ==> self.node_dist(from, ids[pos] as int) <= self.node_dist(
                from,
                #[trigger] ids[j] as int,
            )
        &&& forall|j: int|
            0 <= j < pos ==> self.node_dist(from, ids[pos] as int) < self.node_dist(
                from,
                #[trigger] ids[j] as int,
            )
    }

    /// Every entry of `ids` names a room.
    pub open spec fn valid_ids(&self, ids: Seq<usize>) -> bool {
        forall|k: int| 0 <= k < ids.len() ==> (#[trigger] ids[k]) < self.size()
    }

    /// The id of the room at `(x, y)`, if there is one.
    pub fn get_node(&self, x: isize, y: isize) -> (r: Option<usize>)
        requires
            self.wf(),
        ensures
            match r {
                Some(i) => i < self.size() && self.at(i as int, x as int, y as int),
                None => forall|i: int| 0 <= i < self.size() ==> !self.at(i, x as int, y as int),
            },
    {
        let mut i: usize = 0;
        while i < self.nodes.len()
            invariant
                i <= self.size(),
                forall|j: int| 0 <= j < i ==> !self.at(j, x as int, y as int),
            decreases self.nodes.len() - i,
        {
            if self.nodes[i].x == x && self.nodes[i].y == y {
                return Some(i);
            }
            i = i + 1;
        }
        None
    }

    /// Squared Euclidean distance between rooms `index_1` and `index_2`.
    pub fn distance(&self, index_1: usize, index_2: usize) -> (r: u64)
        requires
            self.wf(),
            index_1 < self.size(),
            index_2 < self.size(),
        ensures
            r as int == self.node_dist(index_1 as int, index_2 as int),
    {
        let a = &self.nodes[index_1];
        let b = &self.nodes[index_2];
        distance_squared(a.x, a.y, b.x, b.y)
    }

    /// The room of `node_indices` nearest to room `current_node_index`; on a tie
    /// the one that comes first. `None` when `node_indices` is empty.
    pub fn closest_node(&self, node_indices: &Vec<usize>, current_node_index: &usize) -> (r: Option<usize>)
        requires
            self.wf(),
            *current_node_index < self.size(),
            self.valid_ids(node_indices@),
        ensures
            match r {
                None => node_indices@.len() == 0,
                Some(c) => exists|pos: int|
                    self.first_nearest(node_indices@, *current_node_index as int, pos)
                        && node_indices@[pos] == c,
            },
    {
        let from = *current_node_index;
        let ghost ids = node_indices@;
        let mut best: Option<usize> = None;
        let mut best_pos: usize = 0;
        let mut best_dist: u64 = 0;
        let mut k: usize = 0;
        while k < node_indices.len()
            invariant
                self.wf(),
                from < self.size(),
                self.valid_ids(ids),
                ids == node_indices@,
                k <= ids.len(),
                best is None <==> k == 0,
                best matches Some(c) ==> {
                    &&& best_pos < k
                    &&& ids[best_pos as int] == c
                    &&& best_dist as int == self.node_dist(from as int, c as int)
                    &&& forall|j: int|
                        0 <= j < k ==> (best_dist as int) <= self.node_dist(
                            from as int,
                            #[trigger] ids[j] as int,
                        )
                    &&& forall|j: int|
                        0 <= j < best_pos ==> (best_dist as int) < self.node_dist(
                            from as int,
                            #[trigger] ids[j] as int,
                        )
                },
            decreases ids.len() - k,
        {
            let d = self.distance(from, node_indices[k]);
            if best.is_none() || d < best_dist {
                best = Some(node_indices[k]);
                best_pos = k;
                best_dist = d;
            }
            k = k + 1;
        }
        proof {
            if best is Some {
                assert(self.first_nearest(ids, from as int, best_pos as int));
            }
        }
        best
    }

    /// Among all pairs of a room of `visited` and a room of `unconnected`, a
    /// nearest one: the first room of `visited` (in its order) that comes that
    /// close, with its nearest room as `closest_node` picks it.
    pub fn closest_pair(&self, visited: &Vec<usize>, unconnected: &Vec<usize>) -> (r: Option<(usize, usize)>)
        requires
            self.wf(),
            self.valid_ids(visited@),
            self.valid_ids(unconnected@),
        ensures
            r is None <==> (visited@.len() == 0 || unconnected@.len() == 0),
            r matches Some((u, c)) ==> exists|ku: int, pc: int| {
                &&& 0 <= ku < visited@.len()
                &&& visited@[ku] == u
                &&& unconnected@[pc] == c
                &&& self.first_nearest(unconnected@, u as int, pc)
                &&& forall|k: int, j: int|
                    0 <= k < visited@.len() && 0 <= j < unconnected@.len() ==> self.node_dist(
                        u as int,
                        c as int,
                    ) <= self.node_dist(#[trigger] visited@[k] as int, #[trigger] unconnected@[j] as int)
                &&& forall|k: int, j: int|
                    0 <= k < ku && 0 <= j < unconnected@.len() ==> self.node_dist(
                        u as int,
                        c as int,
                    ) < self.node_dist(#[trigger] visited@[k] as int, #[trigger] unconnected@[j] as int)
            },
    {
        let ghost vs = visited@;
        let ghost us = unconnected@;
        let mut best: Option<(usize, usize)> = None;
        let ghost mut best_k: int = 0;
        let ghost mut best_p: int = 0;
        let mut best_dist: u64 = 0;
        let mut k: usize = 0;
        while k < visited.len()
            invariant
                self.wf(),
                self.valid_ids(vs),
                self.valid_ids(us),
                vs == visited@,
                us == unconnected@,
                k <= vs.len(),
                us.len() == 0 ==> best is None,
                us.len() > 0 ==> (best is None <==> k == 0),
                best matches Some((u, c)) ==> {
                    &&& 0 <= best_k < k
                    &&& vs[best_k] == u
                    &&& us[best_p] == c
                    &&& self.first_nearest(us, u as int, best_p)
                    &&& best_dist as int == self.node_dist(u as int, c as int)
                    &&& forall|i: int, j: int|
                        0 <= i < k && 0 <= j < us.len() ==> (best_dist as int) <= self.node_dist(
                            #[trigger] vs[i] as int,
                            #[trigger] us[j] as int,
                        )
                    &&& forall|i: int, j: int|
                        0 <= i < best_k && 0 <= j < us.len() ==> (best_dist as int)
                            < self.node_dist(#[trigger] vs[i] as int, #[trigger] us[j] as int)
                },
            decreases vs.len() - k,
        {
            let u = visited[k];
            match self.closest_node(unconnected, &u) {
                None => {},
                Some(c) => {
                    let d = self.distance(u, c);
                    let ghost pc = choose|pos: int| self.first_nearest(us, u as int, pos) && us[pos] == c;
                    proof {
                        assert forall|j: int| 0 <= j < us.len() implies (d as int) <= self.node_dist(
                            u as int,
                            #[trigger] us[j] as int,
                        ) by {
                            assert(self.node_dist(u as int, us[pc] as int) <= self.node_dist(u as int, us[j] as int));
                        }
                    }
                    if best.is_none() || d < best_dist {
                        best = Some((u, c));
                        proof {
                            best_k = k as int;
                            best_p = pc;
                        }
                        best_dist = d;
                    }
                },
            }
            k = k + 1;
        }
        proof {
            if best is Some {
                let ku = best_k;
                let pc = best_p;
                assert(0 <= ku < visited@.len());
            }
        }
        best
    }
}

impl Graph {
    /// Adjacency depends on the rooms alone.
    pub proof fn lemma_same_nodes_adjacency(&self, other: &Graph)
        requires
            self.nodes@ == other.nodes@,
        ensures
            forall|a: int, b: int| #[trigger] self.adjacent(a, b) == other.adjacent(a, b),
            self.symmetric() ==> other.symmetric(),
    {
        if self.symmetric() {
            assert forall|a: int, b: int| #[trigger] other.adjacent(a, b) implies other.adjacent(b, a) by {
                assert(self.adjacent(a, b));
                assert(self.adjacent(b, a));
            }
        }
    }
}

impl Node {
    /// Both rooms stand at the same coordinates.
    pub open spec fn eq_position(&self, other: Node) -> bool {
        self.x == other.x && self.y == other.y
    }
}

} // verus!
