//! Building a board: unique random coordinates, then a greedy spanning tree.

use vstd::prelude::*;
use rand::rngs::StdRng;
use crate::config::{target_count, Config, ConfigError};
use crate::geometry::MAX_GRID_SIZE;
use crate::graph::{Graph, Node, Tile};
use crate::ids::{lemma_remove_distinct, lemma_swap_remove_distinct, position_of};
use crate::random::{os_seeded_rng, random_below, seeded_rng, shuffle_ids};

verus! {

/// Seed of the generator `Graph::new` uses when the operating system
/// provides no randomness.
pub const FALLBACK_SEED: u64 = 0x5eed;

broadcast use vstd::seq_lib::group_to_multiset_ensures;

/// Room `v` had joined the tree before step `s` of `order`: it is room 0, or
/// the room that an earlier step joined.
pub open spec fn joined_before(order: Seq<(usize, usize)>, s: int, v: int) -> bool {
    v == 0 || exists|j: int| 0 <= j < s && (#[trigger] order[j]).1 as int == v
}

/// Appending a step leaves what earlier steps saw unchanged, and the new
/// step's room joins after it.
proof fn lemma_joined_push(order: Seq<(usize, usize)>, e: (usize, usize))
    ensures
        forall|s: int, v: int|
            0 <= s <= order.len() ==> #[trigger] joined_before(order.push(e), s, v) == joined_before(
                order,
                s,
                v,
            ),
        forall|v: int|
            #[trigger] joined_before(order.push(e), order.len() as int + 1, v) == (joined_before(
                order,
                order.len() as int,
                v,
            ) || v == e.1 as int),
{
    let o2 = order.push(e);
    assert forall|s: int, v: int| 0 <= s <= order.len() implies #[trigger] joined_before(o2, s, v)
        == joined_before(order, s, v) by {
        if joined_before(o2, s, v) && v != 0 {
            let j = choose|j: int| 0 <= j < s && (#[trigger] o2[j]).1 as int == v;
            assert(order[j] == o2[j]);
        }
        if joined_before(order, s, v) && v != 0 {
            let j = choose|j: int| 0 <= j < s && (#[trigger] order[j]).1 as int == v;
            assert(order[j] == o2[j]);
        }
    }
    assert forall|v: int| #[trigger] joined_before(o2, order.len() as int + 1, v) == (joined_before(
        order,
        order.len() as int,
        v,
    ) || v == e.1 as int) by {
        let l = order.len() as int;
        if joined_before(o2, l + 1, v) && v != 0 && v != e.1 as int {
            let j = choose|j: int| 0 <= j < l + 1 && (#[trigger] o2[j]).1 as int == v;
            assert(j < l);
            assert(order[j] == o2[j]);
        }
        if joined_before(order, l, v) && v != 0 {
            let j = choose|j: int| 0 <= j < l && (#[trigger] order[j]).1 as int == v;
            assert(order[j] == o2[j]);
        }
        if v == e.1 as int && v != 0 {
            assert(o2[l] == e);
        }
    }
}

impl Graph {
    /// Every room is empty and has no neighbour.
    pub open spec fn bare(&self) -> bool {
        forall|i: int|
            0 <= i < self.size() ==> (#[trigger] self.nodes@[i]).value == Tile::Empty
                && self.nodes@[i].neighbors@.len() == 0
    }

    /// Every room lies on the configured grid.
    pub open spec fn on_grid(&self) -> bool {
        forall|i: int|
            0 <= i < self.size() ==> 0 <= (#[trigger] self.nodes@[i]).x < self.config.grid_size
                && 0 <= self.nodes@[i].y < self.config.grid_size
    }

    /// Places `round(grid_size^1.5)` rooms on distinct coordinates. Each room's
    /// coordinates are drawn uniformly from those still free: the distribution
    /// of drawing pairs until an unused one comes up, in a bounded number of
    /// draws.
    fn create_nodes(&mut self, rng: &mut StdRng)
        requires
            old(self).wf(),
            old(self).nodes@.len() == 0,
            old(self).config.grid_size <= MAX_GRID_SIZE,
        ensures
            final(self).wf(),
            final(self).same_state(old(self)),
            final(self).nodes@.len() == old(self).config.rooms(),
            final(self).nodes@.len() <= MAX_GRID_SIZE * MAX_GRID_SIZE,
            final(self).bare(),
            final(self).unique_positions(),
            final(self).on_grid(),
            final(self).edge_count() == 0,
    {
        let g = self.config.grid_size;
        let target = target_count(g);
        assert(g * g <= MAX_GRID_SIZE * MAX_GRID_SIZE) by (nonlinear_arith)
            requires
                g <= MAX_GRID_SIZE,
        ;
        let cells = g * g;
        let mut free: Vec<usize> = Vec::new();
        let mut c: usize = 0;
        while c < cells
            invariant
                c <= cells,
                free@.len() == c,
                forall|k: int| 0 <= k < c ==> (#[trigger] free@[k]) == k,
            decreases cells - c,
        {
            free.push(c);
            c = c + 1;
        }
        proof {
            assert(free@.no_duplicates());
        }
        let mut i: usize = 0;
        while i < target
            invariant
                self.wf(),
                self.same_state(old(self)),
                self.config.grid_size == g,
                g <= MAX_GRID_SIZE,
                cells == g * g,
                target <= cells,
                i <= target,
                self.nodes@.len() == i,
                free@.len() == cells - i,
                free@.no_duplicates(),
                forall|k: int| 0 <= k < free@.len() ==> (#[trigger] free@[k]) < cells,
                self.bare(),
                self.on_grid(),
                self.edge_count() == 0,
                forall|j: int|
                    0 <= j < i ==> !free@.contains(
                        ((#[trigger] self.nodes@[j]).y * g as isize + self.nodes@[j].x) as usize,
                    ),
            decreases target - i,
        {
            let r = random_below(rng, free.len());
            let ghost old_free = free@;
            let cell = free.swap_remove(r);
            proof {
                lemma_swap_remove_distinct(old_free, r as int);
            }
            let x = cell % g;
            let y = cell / g;
            assert(y < g) by (nonlinear_arith)
                requires
                    y == cell / g,
                    cell < g * g,
                    g > 0,
            ;
            assert(y * g + x == cell) by (nonlinear_arith)
                requires
                    x == cell % g,
                    y == cell / g,
                    g > 0,
            ;
            let node = Node {
                x: x as isize,
                y: y as isize,
                value: Tile::Empty,
                neighbors: Vec::new(),
                index: i,
            };
            proof {
                assert forall|j: int| 0 <= j < self.size() implies !(#[trigger] self.nodes@[j]).eq_position(node) by {
                    let nj = self.nodes@[j];
                    if nj.eq_position(node) {
                        assert(old_free.contains(cell));
                        assert((nj.y * g as isize + nj.x) as usize == cell);
                    }
                }
            }
            let ghost before = self.nodes@;
            self.add_node(node);
            proof {
                assert forall|j: int| 0 <= j < i + 1 implies !free@.contains(
                    ((#[trigger] self.nodes@[j]).y * g as isize + self.nodes@[j].x) as usize,
                ) by {
                    if j < i {
                        assert(self.nodes@[j] == before[j]);
                    }
                }
            }
            i = i + 1;
        }
    }

    /// Step `s` of `order` joins the tree room `order[s].0` to the new room
    /// `order[s].1`, a pair at least as near as any pair of a joined and a not
    /// yet joined room (Prim's rule, on squared distances).
    pub open spec fn greedy_step(&self, order: Seq<(usize, usize)>, s: int) -> bool {
        &&& order[s].0 < self.size()
        &&& order[s].1 < self.size()
        &&& joined_before(order, s, order[s].0 as int)
        &&& !joined_before(order, s, order[s].1 as int)
        &&& forall|x: int, y: int|
            0 <= x < self.size() && 0 <= y < self.size() && joined_before(order, s, x) && !joined_before(
                order,
                s,
                y,
            ) ==> self.node_dist(order[s].0 as int, order[s].1 as int) <= #[trigger] self.node_dist(x, y)
    }

    /// Some step of `order` joins `a` and `b`.
    pub open spec fn joins(order: Seq<(usize, usize)>, a: int, b: int) -> bool {
        exists|s: int|
            0 <= s < order.len() && (((#[trigger] order[s]).0 as int == a && order[s].1 as int == b) || (
            order[s].0 as int == b && order[s].1 as int == a))
    }

    /// The edges were added one by one in the order `order`, each step by
    /// Prim's rule (`greedy_step`), and no other edge exists.
    pub open spec fn grown_greedily(&self, order: Seq<(usize, usize)>) -> bool {
        &&& forall|s: int| 0 <= s < order.len() ==> #[trigger] self.greedy_step(order, s)
        &&& forall|a: int, b: int| #[trigger] self.adjacent(a, b) <==> Graph::joins(order, a, b)
    }

    /// Squared distances depend on the coordinates alone.
    proof fn lemma_same_coords_dist(&self, other: &Graph)
        requires
            other.size() == self.size(),
            forall|i: int|
                0 <= i < self.size() ==> (#[trigger] other.nodes@[i]).x == self.nodes@[i].x
                    && other.nodes@[i].y == self.nodes@[i].y,
        ensures
            forall|a: int, b: int|
                0 <= a < self.size() && 0 <= b < self.size() ==> #[trigger] other.node_dist(a, b)
                    == self.node_dist(a, b),
    {
        assert forall|a: int, b: int|
            0 <= a < self.size() && 0 <= b < self.size() implies #[trigger] other.node_dist(a, b)
            == self.node_dist(a, b) by {
            assert(other.nodes@[a].x == self.nodes@[a].x && other.nodes@[b].x == self.nodes@[b].x);
        }
    }

    /// A greedy step stays one on a board with the same coordinates.
    proof fn lemma_greedy_step_moves(&self, other: &Graph, order: Seq<(usize, usize)>, s: int)
        requires
            self.greedy_step(order, s),
            other.size() == self.size(),
            forall|a: int, b: int|
                0 <= a < self.size() && 0 <= b < self.size() ==> #[trigger] other.node_dist(a, b)
                    == self.node_dist(a, b),
        ensures
            other.greedy_step(order, s),
    {
        assert forall|x: int, y: int|
            0 <= x < other.size() && 0 <= y < other.size() && joined_before(order, s, x) && !joined_before(
                order,
                s,
                y,
            ) implies other.node_dist(order[s].0 as int, order[s].1 as int) <= #[trigger] other.node_dist(
            x,
            y,
        ) by {
            assert(self.node_dist(order[s].0 as int, order[s].1 as int) <= self.node_dist(x, y));
        }
    }

    /// The greedy record carries over to a board with the same rooms and lists.
    pub proof fn lemma_same_layout_greedy(&self, other: &Graph, order: Seq<(usize, usize)>)
        requires
            self.grown_greedily(order),
            other.same_layout(self),
        ensures
            other.grown_greedily(order),
    {
        assert forall|a: int, b: int| #[trigger] other.adjacent(a, b) == self.adjacent(a, b) by {
            if 0 <= a < self.size() {
                assert(self.nodes@[a].neighbors@ == other.nodes@[a].neighbors@);
            }
        }
        self.lemma_same_coords_dist(other);
        assert forall|s: int| 0 <= s < order.len() implies #[trigger] other.greedy_step(order, s) by {
            self.lemma_greedy_step_moves(other, order, s);
        }
    }

    /// The step that `connect_nodes` adds, a nearest pair of a visited room `u`
    /// and an unvisited room `c`, is a greedy step.
    proof fn lemma_greedy_new_step(
        &self,
        order: Seq<(usize, usize)>,
        u: usize,
        c: usize,
        vis: Seq<usize>,
        unc: Seq<usize>,
    )
        requires
            self.size() <= usize::MAX,
            forall|v: int|
                0 <= v < self.size() ==> (#[trigger] vis.contains(v as usize) <==> joined_before(
                    order,
                    order.len() as int,
                    v,
                )),
            forall|v: int| 0 <= v < self.size() ==> #[trigger] vis.contains(v as usize) != unc.contains(v as usize),
            vis.contains(u),
            unc.contains(c),
            u < self.size(),
            c < self.size(),
            forall|k: int, j: int|
                0 <= k < vis.len() && 0 <= j < unc.len() ==> self.node_dist(u as int, c as int)
                    <= self.node_dist(#[trigger] vis[k] as int, #[trigger] unc[j] as int),
        ensures
            self.greedy_step(order.push((u, c)), order.len() as int),
    {
        let o2 = order.push((u, c));
        let l = order.len() as int;
        lemma_joined_push(order, (u, c));
        assert(o2[l] == (u, c));
        assert(vis.contains((u as int) as usize));
        assert(unc.contains((c as int) as usize));
        assert(!vis.contains((c as int) as usize));
        assert(joined_before(order, l, u as int));
        assert(!joined_before(order, l, c as int));
        assert(joined_before(o2, l, u as int));
        assert(!joined_before(o2, l, c as int));
        assert forall|x: int, y: int|
            0 <= x < self.size() && 0 <= y < self.size() && joined_before(o2, l, x) && !joined_before(
                o2,
                l,
                y,
            ) implies self.node_dist(u as int, c as int) <= #[trigger] self.node_dist(x, y) by {
            assert(joined_before(order, l, x));
            assert(!joined_before(order, l, y));
            assert(vis.contains(x as usize));
            assert(!vis.contains(y as usize));
            assert(unc.contains(y as usize));
            let k = choose|k: int| 0 <= k < vis.len() && vis[k] == x as usize;
            let j = choose|j: int| 0 <= j < unc.len() && unc[j] == y as usize;
            assert(self.node_dist(u as int, c as int) <= self.node_dist(vis[k] as int, unc[j] as int));
        }
    }

    /// One step of `connect_nodes` keeps the greedy record.
    proof fn lemma_greedy_step(
        &self,
        after: &Graph,
        order: Seq<(usize, usize)>,
        u: usize,
        c: usize,
        vis: Seq<usize>,
        unc: Seq<usize>,
    )
        requires
            self.size() <= usize::MAX,
            self.grown_greedily(order),
            after.size() == self.size(),
            forall|i: int|
                0 <= i < self.size() ==> (#[trigger] after.nodes@[i]).x == self.nodes@[i].x
                    && after.nodes@[i].y == self.nodes@[i].y,
            forall|a: int, b: int|
                #[trigger] after.adjacent(a, b) <==> (self.adjacent(a, b) || (a == u && b == c) || (a
                    == c && b == u)),
            forall|v: int|
                0 <= v < self.size() ==> (#[trigger] vis.contains(v as usize) <==> joined_before(
                    order,
                    order.len() as int,
                    v,
                )),
            forall|v: int| 0 <= v < self.size() ==> #[trigger] vis.contains(v as usize) != unc.contains(v as usize),
            vis.contains(u),
            unc.contains(c),
            u < self.size(),
            c < self.size(),
            forall|k: int, j: int|
                0 <= k < vis.len() && 0 <= j < unc.len() ==> self.node_dist(u as int, c as int)
                    <= self.node_dist(#[trigger] vis[k] as int, #[trigger] unc[j] as int),
        ensures
            after.grown_greedily(order.push((u, c))),
            forall|v: int|
                0 <= v < self.size() ==> (#[trigger] vis.push(c).contains(v as usize) <==> joined_before(
                    order.push((u, c)),
                    order.len() as int + 1,
                    v,
                )),
    {
        let o2 = order.push((u, c));
        let l = order.len() as int;
        lemma_joined_push(order, (u, c));
        crate::graph::lemma_push_contains(vis, c);
        self.lemma_same_coords_dist(after);
        self.lemma_greedy_new_step(order, u, c, vis, unc);
        self.lemma_greedy_step_moves(after, o2, l);
        assert forall|v: int|
            0 <= v < self.size() implies (#[trigger] vis.push(c).contains(v as usize) <==> joined_before(
            o2,
            l + 1,
            v,
        )) by {
            assert(vis.push(c).contains(v as usize) <==> (vis.contains(v as usize) || v as usize == c));
            assert(joined_before(o2, l + 1, v) == (joined_before(order, l, v) || v == c as int));
        }
        assert forall|s: int| 0 <= s < o2.len() implies #[trigger] after.greedy_step(o2, s) by {
            if s < l {
                assert(self.greedy_step(order, s));
                assert(o2[s] == order[s]);
                assert forall|v: int| #[trigger] joined_before(o2, s, v) == joined_before(order, s, v) by {}
                assert(self.greedy_step(o2, s));
                self.lemma_greedy_step_moves(after, o2, s);
            }
        }
        assert forall|a: int, b: int| #[trigger] after.adjacent(a, b) <==> Graph::joins(o2, a, b) by {
            if self.adjacent(a, b) {
                let s = choose|s: int|
                    0 <= s < order.len() && (((#[trigger] order[s]).0 as int == a && order[s].1 as int
                        == b) || (order[s].0 as int == b && order[s].1 as int == a));
                assert(o2[s] == order[s]);
            }
            if (a == u && b == c) || (a == c && b == u) {
                assert(o2[l] == (u, c));
            }
            if Graph::joins(o2, a, b) {
                let s = choose|s: int|
                    0 <= s < o2.len() && (((#[trigger] o2[s]).0 as int == a && o2[s].1 as int == b) || (
                    o2[s].0 as int == b && o2[s].1 as int == a));
                if s < l {
                    assert(o2[s] == order[s]);
                    assert(Graph::joins(order, a, b));
                }
            }
        }
    }

    /// Joins the rooms into a spanning tree, rooted at room 0: while a room is
    /// left out, the visited rooms are shuffled and the nearest pair of a
    /// visited and an unvisited room (`closest_pair`) gets an edge.
    fn connect_nodes(&mut self, rng: &mut StdRng)
        requires
            old(self).wf(),
            old(self).nodes@.len() >= 1,
            old(self).edge_count() == 0,
            forall|i: int|
                0 <= i < old(self).size() ==> (#[trigger] old(self).nodes@[i]).neighbors@.len() == 0,
        ensures
            final(self).wf(),
            final(self).same_state(old(self)),
            final(self).nodes@.len() == old(self).nodes@.len(),
            forall|i: int|
                0 <= i < final(self).size() ==> {
                    &&& (#[trigger] final(self).nodes@[i]).x == old(self).nodes@[i].x
                    &&& final(self).nodes@[i].y == old(self).nodes@[i].y
                    &&& final(self).nodes@[i].value == old(self).nodes@[i].value
                },
            final(self).edge_count() == final(self).size() - 1,
            final(self).connected(),
            exists|order: Seq<(usize, usize)>| final(self).grown_greedily(order),
    {
        let n = self.nodes.len();
        let mut unconnected: Vec<usize> = Vec::new();
        let mut k: usize = 1;
        while k < n
            invariant
                1 <= k <= n,
                unconnected@.len() == k - 1,
                forall|j: int| 0 <= j < k - 1 ==> (#[trigger] unconnected@[j]) == j + 1,
            decreases n - k,
        {
            unconnected.push(k);
            k = k + 1;
        }
        let mut visited: Vec<usize> = Vec::new();
        visited.push(0);
        proof {
            assert(unconnected@.no_duplicates());
            assert forall|v: int| 0 <= v < n implies #[trigger] visited@.contains(v as usize)
                != unconnected@.contains(v as usize) by {
                if v > 0 {
                    assert(unconnected@[v - 1] == v);
                } else {
                    assert(visited@[0] == 0);
                }
            }
            let p0 = seq![0usize];
            assert(self.is_route(0, 0, p0));
            assert forall|v: usize| #[trigger] visited@.contains(v) implies self.reachable(0, v as int) by {
                assert(self.is_route(0, v as int, p0));
            }
        }
        let ghost mut order: Seq<(usize, usize)> = Seq::empty();
        proof {
            assert forall|v: int| 0 <= v < n implies (#[trigger] visited@.contains(v as usize) <==> joined_before(
                order,
                order.len() as int,
                v,
            )) by {
                if visited@.contains(v as usize) {
                    let j = choose|j: int| 0 <= j < visited@.len() && visited@[j] == v as usize;
                    assert(visited@[0] == 0);
                }
            }
            assert forall|a: int, b: int| #[trigger] self.adjacent(a, b) <==> Graph::joins(order, a, b) by {
                if self.adjacent(a, b) {
                    assert(self.nodes@[a].neighbors@.len() == 0);
                }
            }
        }
        while unconnected.len() > 0
            invariant
                self.wf(),
                self.same_state(old(self)),
                n == self.size(),
                forall|i: int|
                    0 <= i < self.size() ==> {
                        &&& (#[trigger] self.nodes@[i]).x == old(self).nodes@[i].x
                        &&& self.nodes@[i].y == old(self).nodes@[i].y
                        &&& self.nodes@[i].value == old(self).nodes@[i].value
                    },
                self.valid_ids(visited@),
                self.valid_ids(unconnected@),
                unconnected@.no_duplicates(),
                visited@.len() >= 1,
                forall|v: int| 0 <= v < n ==> #[trigger] visited@.contains(v as usize)
                    != unconnected@.contains(v as usize),
                visited@.len() + unconnected@.len() == n,
                self.edge_count() == visited@.len() - 1,
                forall|v: usize| #[trigger] unconnected@.contains(v) ==> self.nodes@[v as int].neighbors@.len() == 0,
                forall|v: usize| #[trigger] visited@.contains(v) ==> self.reachable(0, v as int),
                forall|v: int| 0 <= v < n ==> (#[trigger] visited@.contains(v as usize) <==> joined_before(
                    order,
                    order.len() as int,
                    v,
                )),
                self.grown_greedily(order),
            decreases unconnected@.len(),
        {
            let ghost pre_shuffle = visited@;
            shuffle_ids(rng, &mut visited);
            proof {
                assert forall|v: usize| #[trigger] visited@.contains(v) <==> pre_shuffle.contains(v) by {
                    assert(visited@.to_multiset().count(v) == pre_shuffle.to_multiset().count(v));
                }
                assert forall|j: int| 0 <= j < visited@.len() implies (#[trigger] visited@[j]) < self.size() by {
                    assert(visited@.contains(visited@[j]));
                    let m = choose|m: int| 0 <= m < pre_shuffle.len() && pre_shuffle[m] == visited@[j];
                    assert(pre_shuffle[m] < self.size());
                }
            }
            match self.closest_pair(&visited, &unconnected) {
                None => {
                    proof {
                        assert(false);
                    }
                },
                Some((u, c)) => {
                    proof {
                        assert(visited@.contains(u));
                        assert(unconnected@.contains(c));
                        assert(pre_shuffle.contains((u as int) as usize));
                        assert(!unconnected@.contains(u));
                        if self.adjacent(u as int, c as int) {
                            assert(self.adjacent(c as int, u as int));
                            assert(self.nodes@[c as int].neighbors@.contains(u));
                        }
                    }
                    let ghost before = *self;
                    let ghost rq = choose|q: Seq<usize>| before.is_route(0, u as int, q);
                    self.add_edge(u, c);
                    let ghost pre_push = visited@;
                    visited.push(c);
                    let pos = position_of(&unconnected, c);
                    let ghost pre_remove = unconnected@;
                    unconnected.remove(pos);
                    proof {
                        before.lemma_greedy_step(self, order, u, c, pre_push, pre_remove);
                        order = order.push((u, c));
                        lemma_remove_distinct(pre_remove, pos as int);
                        crate::graph::lemma_push_contains(pre_push, c);
                        assert forall|v: usize| #[trigger] visited@.contains(v) implies self.reachable(0, v as int) by {
                            if v == c {
                                before.lemma_route_lift(self, 0, u as int, rq);
                                self.lemma_route_extend(0, rq, c);
                                assert(self.is_route(0, c as int, seq![c] + rq));
                            } else {
                                assert(pre_push.contains(v));
                                let q = choose|q: Seq<usize>| before.is_route(0, v as int, q);
                                before.lemma_route_lift(self, 0, v as int, q);
                            }
                        }
                        assert forall|v: usize| #[trigger] unconnected@.contains(v) implies self.nodes@[v as int].neighbors@.len() == 0 by {
                            assert(pre_remove.contains(v));
                            assert(v != u);
                        }
                        assert forall|j: int| 0 <= j < visited@.len() implies (#[trigger] visited@[j]) < self.size() by {
                            if j < pre_push.len() {
                                assert(pre_push[j] == visited@[j]);
                            }
                        }
                        assert forall|j: int| 0 <= j < unconnected@.len() implies (#[trigger] unconnected@[j]) < self.size() by {
                            assert(unconnected@.contains(unconnected@[j]));
                            assert(pre_remove.contains(unconnected@[j]));
                            let m = choose|m: int| 0 <= m < pre_remove.len() && pre_remove[m] == unconnected@[j];
                            assert(pre_remove[m] < self.size());
                        }
                    }
                },
            }
        }
        proof {
            assert forall|v: int| 0 <= v < self.size() implies #[trigger] self.reachable(0, v) by {
                assert(visited@.contains(v as usize) != unconnected@.contains(v as usize));
                if unconnected@.contains(v as usize) {
                    let m = choose|m: int| 0 <= m < unconnected@.len() && unconnected@[m] == v as usize;
                }
            }
        }
    }

    /// A board as generation leaves it: a spanning tree of `rooms()` rooms on
    /// distinct coordinates of the configured grid, grown edge by edge by
    /// Prim's rule, populated, with no path pending.
    pub open spec fn generated(&self) -> bool {
        &&& self.wf()
        &&& self.nodes@.len() == self.config.rooms()
        &&& self.edge_count() == self.size() - 1
        &&& self.connected()
        &&& exists|order: Seq<(usize, usize)>| self.grown_greedily(order)
        &&& self.on_grid()
        &&& self.populated()
        &&& self.player_path@.len() == 0
    }

    /// Builds a board from `config`, drawing from `rng`: rooms, then the tree
    /// that joins them, then the special rooms. Fails exactly when `config`
    /// cannot produce a board.
    pub fn generate(config: Config, rng: &mut StdRng) -> (r: Result<Graph, ConfigError>)
        ensures
            match r {
                Ok(g) => config.valid() && g.config == config && g.level == 0 && g.generated(),
                Err(e) => config.error() == Some(e),
            },
    {
        match config.check() {
            Err(e) => {
                return Err(e);
            },
            Ok(()) => {},
        }
        let mut g = Graph::empty(config);
        g.create_nodes(rng);
        g.connect_nodes(rng);
        let ghost connected = g;
        g.populate_board(rng);
        proof {
            assert forall|i: int| 0 <= i < g.size() implies 0 <= (#[trigger] g.nodes@[i]).x < g.config.grid_size
                && 0 <= g.nodes@[i].y < g.config.grid_size by {
                assert(g.nodes@[i].x == connected.nodes@[i].x);
            }
            connected.lemma_same_layout_connected(&g);
            let order = choose|order: Seq<(usize, usize)>| connected.grown_greedily(order);
            connected.lemma_same_layout_greedy(&g, order);
            crate::graph::lemma_degree_sum_same(connected.nodes@, g.nodes@);
        }
        Ok(g)
    }

    /// A board of the standard configuration, drawn from a generator seeded by
    /// the operating system; should its random source fail, from one seeded
    /// with `FALLBACK_SEED`.
    pub fn new() -> (g: Graph)
        ensures
            g.config == Config::standard_spec(),
            g.level == 0,
            g.generated(),
    {
        let config = Config::standard();
        proof {
            crate::laws::lemma_standard_counts();
        }
        let mut rng = match os_seeded_rng() {
            Some(rng) => rng,
            None => seeded_rng(FALLBACK_SEED),
        };
        match Graph::generate(config, &mut rng) {
            Ok(g) => g,
            Err(_) => {
                proof {
                    assert(false);
                }
                Graph::empty(config)
            },
        }
    }

    /// Replaces the board by a fresh one of the same configuration, keeping
    /// the level.
    pub fn regenerate(&mut self, rng: &mut StdRng)
        requires
            old(self).config.valid(),
        ensures
            final(self).generated(),
            final(self).config == old(self).config,
            final(self).level == old(self).level,
    {
        match Graph::generate(self.config, rng) {
            Ok(mut g) => {
                let ghost fresh = g;
                g.level = self.level;
                proof {
                    fresh.lemma_same_nodes_generated(&g);
                }
                *self = g;
            },
            Err(_) => {
                proof {
                    assert(false);
                }
            },
        }
    }

    /// The goal of the current level was reached: moves to the next level and
    /// returns whether that ends the game. Unless it does, the board is
    /// regenerated.
    pub fn complete_level(&mut self, rng: &mut StdRng) -> (game_over: bool)
        requires
            old(self).config.valid(),
            old(self).level < old(self).config.level_count,
        ensures
            final(self).level == old(self).level + 1,
            final(self).config == old(self).config,
            game_over == (final(self).level == final(self).config.level_count),
            !game_over ==> final(self).generated(),
    {
        self.level = self.level + 1;
        if self.level == self.config.level_count {
            return true;
        }
        self.regenerate(rng);
        false
    }

    /// Connectivity depends on adjacency alone.
    pub proof fn lemma_same_layout_connected(&self, other: &Graph)
        requires
            self.connected(),
            other.same_layout(self),
        ensures
            other.connected(),
    {
        assert forall|a: int, b: int| #[trigger] self.adjacent(a, b) == other.adjacent(a, b) by {
            if 0 <= a < self.size() {
                assert(self.nodes@[a].neighbors@ == other.nodes@[a].neighbors@);
            }
        }
        assert forall|v: int| 0 <= v < other.size() implies #[trigger] other.reachable(0, v) by {
            assert(self.reachable(0, v));
            self.lemma_same_adjacency_routes(other, 0, v, seq![]);
        }
    }

    /// Generation's guarantees do not depend on the level.
    pub proof fn lemma_same_nodes_generated(&self, other: &Graph)
        requires
            self.generated(),
            other.nodes@ == self.nodes@,
            other.config == self.config,
            other.current_player_position == self.current_player_position,
            other.goal_position == self.goal_position,
            other.player_path@ == self.player_path@,
        ensures
            other.generated(),
    {
        self.lemma_same_nodes_adjacency(other);
        self.lemma_same_layout_connected(other);
        let order = choose|order: Seq<(usize, usize)>| self.grown_greedily(order);
        self.lemma_same_layout_greedy(other, order);
        let g = self.goal_position->0 as int;
        let p = self.current_player_position->0 as int;
        assert forall|v: int, w: int|
            0 <= v < other.size() && 0 <= w < other.size() && #[trigger] other.has_treasure(v)
                && #[trigger] other.unassigned(w) && other.dead_end(w) implies other.dead_end(v) by {
            assert(self.has_treasure(v) && self.unassigned(w));
        }
        if exists|v: int| 0 <= v < other.size() && #[trigger] other.dead_end(v) {
            let v = choose|v: int| 0 <= v < other.size() && #[trigger] other.dead_end(v);
            assert(self.dead_end(v));
        }
        if exists|v: int| 0 <= v < other.size() && v != g && #[trigger] other.dead_end(v) {
            let v = choose|v: int| 0 <= v < other.size() && v != g && #[trigger] other.dead_end(v);
            assert(self.dead_end(v));
        }
        if self.config.enemies() > 0 {
            let r = choose|r: Seq<usize>| {
                &&& self.is_shortest_route(p, g, r)
                &&& (exists|k: int|
                    0 <= k < r.len() && r[k] as int != g && r[k] as int != p && !self.has_treasure(
                        #[trigger] r[k] as int,
                    )) ==> exists|k: int| 0 <= k < r.len() && self.has_enemy(#[trigger] r[k] as int)
            };
            self.lemma_same_adjacency_routes(other, p, g, r);
            if exists|k: int|
                0 <= k < r.len() && r[k] as int != g && r[k] as int != p && !other.has_treasure(
                    #[trigger] r[k] as int,
                ) {
                let k = choose|k: int|
                    0 <= k < r.len() && r[k] as int != g && r[k] as int != p && !other.has_treasure(
                        #[trigger] r[k] as int,
                    );
                assert(!self.has_treasure(r[k] as int));
                let j = choose|j: int| 0 <= j < r.len() && self.has_enemy(#[trigger] r[j] as int);
                assert(other.has_enemy(r[j] as int));
            }
        }
    }
}

} // verus!
