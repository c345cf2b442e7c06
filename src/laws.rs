//! General properties of boards and routes, proved from the contracts above.

use vstd::prelude::*;
use crate::config::{lemma_room_count, rounds_three_halves, Config};
use crate::graph::Graph;

verus! {

/// A generated board is a spanning tree: it has one edge fewer than rooms,
/// every room is reachable from room 0, and so from every other room.
pub proof fn lemma_generated_is_spanning_tree(g: Graph)
    requires
        g.generated(),
    ensures
        g.edge_count() == g.size() - 1,
        g.connected(),
        forall|a: int, b: int| 0 <= a < g.size() && 0 <= b < g.size() ==> #[trigger] g.reachable(a, b),
{
    assert forall|a: int, b: int| 0 <= a < g.size() && 0 <= b < g.size() implies #[trigger] g.reachable(a, b) by {
        g.lemma_connected_pairs(a, b);
    }
}

/// On a generated board no two rooms share coordinates, and all coordinates
/// lie in `[0, grid_size)`.
pub proof fn lemma_generated_positions(g: Graph)
    requires
        g.generated(),
    ensures
        forall|i: int, j: int|
            0 <= i < g.size() && 0 <= j < g.size() && i != j ==> !(#[trigger] g.nodes@[i]).eq_position(
                #[trigger] g.nodes@[j],
            ),
        forall|i: int|
            0 <= i < g.size() ==> 0 <= (#[trigger] g.nodes@[i]).x < g.config.grid_size && 0
                <= g.nodes@[i].y < g.config.grid_size,
{
}

/// The shortest route from a room to itself is that room alone.
pub proof fn lemma_path_to_itself(g: Graph, a: int, p: Seq<usize>)
    requires
        g.wf(),
        0 <= a < g.size(),
        g.is_shortest_route(a, a, p),
    ensures
        p == seq![a as usize],
{
    let single = seq![a as usize];
    assert(g.is_route(a, a, single));
    assert(p.len() <= 1);
    assert(p =~= single);
}

/// A shortest route read from `start` to `end` follows edges in that
/// direction, and all shortest routes between two rooms have the same number
/// of hops: the breadth-first distance.
pub proof fn lemma_shortest_route_walk(g: Graph, start: int, end: int, p: Seq<usize>, q: Seq<usize>)
    requires
        g.wf(),
        g.is_shortest_route(start, end, p),
        g.is_shortest_route(start, end, q),
    ensures
        p.reverse()[0] as int == start,
        p.reverse().last() as int == end,
        forall|k: int| 0 <= k < p.len() - 1 ==> g.adjacent(#[trigger] p.reverse()[k] as int, p.reverse()[k + 1] as int),
        p.len() == q.len(),
{
    let r = p.reverse();
    let l = p.len() as int;
    assert forall|k: int| 0 <= k < p.len() - 1 implies g.adjacent(#[trigger] r[k] as int, r[k + 1] as int) by {
        assert(g.hop(p, l - 2 - k));
        assert(r[k] == p[l - 1 - k] && r[k + 1] == p[l - 2 - k]);
    }
}

/// The standard grid of side 6 holds `round(6^1.5) = 15` rooms, 2 of them
/// with treasure and 3 with an enemy.
pub proof fn lemma_standard_counts()
    ensures
        Config::standard_spec().rooms() == 15,
        Config::standard_spec().treasures() == 2,
        Config::standard_spec().enemies() == 3,
        Config::standard_spec().valid(),
{
    assert(6int * 6 * 6 == 216) by (nonlinear_arith);
    assert((2int * 15 - 1) * (2int * 15 - 1) == 841) by (nonlinear_arith);
    assert((2int * 15 + 1) * (2int * 15 + 1) == 961) by (nonlinear_arith);
    assert(rounds_three_halves(6, 15));
    lemma_room_count(6, 15);
    assert((2int * 15 + 10) / (2int * 10) == 2) by (nonlinear_arith);
}

} // verus!
