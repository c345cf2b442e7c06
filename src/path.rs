//! Routes between rooms and the breadth-first search that finds a shortest one.

use vstd::prelude::*;
use crate::graph::Graph;

verus! {

/// Number of `true` entries.
spec fn count_true(s: Seq<bool>) -> int
    decreases s.len(),
{
    if s.len() == 0 {
        0
    } else {
        count_true(s.drop_last()) + if s.last() { 1int } else { 0int }
    }
}

proof fn lemma_count_true_bounds(s: Seq<bool>)
    ensures
        0 <= count_true(s) <= s.len(),
    decreases s.len(),
{
    if s.len() > 0 {
        lemma_count_true_bounds(s.drop_last());
    }
}

proof fn lemma_count_true_set(s: Seq<bool>, i: int)
    requires
        0 <= i < s.len(),
        !s[i],
    ensures
        count_true(s.update(i, true)) == count_true(s) + 1,
    decreases s.len(),
{
    if i == s.len() - 1 {
        assert(s.update(i, true).drop_last() =~= s.drop_last());
    } else {
        lemma_count_true_set(s.drop_last(), i);
        assert(s.update(i, true).drop_last() =~= s.drop_last().update(i, true));
    }
}

proof fn lemma_count_true_single(n: nat, i: int)
    requires
        0 <= i < n,
    ensures
        count_true(Seq::new(n, |k: int| false).update(i, true)) == 1,
{
    lemma_count_false(n);
    lemma_count_true_set(Seq::new(n, |k: int| false), i);
}

proof fn lemma_count_false(n: nat)
    ensures
        count_true(Seq::new(n, |k: int| false)) == 0,
    decreases n,
{
    if n > 0 {
        lemma_count_false((n - 1) as nat);
        assert(Seq::new(n, |k: int| false).drop_last() =~= Seq::new((n - 1) as nat, |k: int| false));
    }
}

impl Graph {
    /// Step `k` of route `p` follows an edge, from `p[k + 1]` to `p[k]`.
    pub open spec fn hop(&self, p: Seq<usize>, k: int) -> bool {
        self.adjacent(p[k + 1] as int, p[k] as int)
    }

    /// `p` lists a route from `start` to `end`, `end` first and `start` last;
    /// read backwards, each step follows an edge.
    pub open spec fn is_route(&self, start: int, end: int, p: Seq<usize>) -> bool {
        &&& 0 <= start < self.size()
        &&& 0 <= end < self.size()
        &&& p.len() >= 1
        &&& p[0] as int == end
        &&& p.last() as int == start
        &&& forall|k: int| 0 <= k < p.len() - 1 ==> #[trigger] self.hop(p, k)
    }

    /// Some route leads from `start` to `end`.
    pub open spec fn reachable(&self, start: int, end: int) -> bool {
        exists|p: Seq<usize>| self.is_route(start, end, p)
    }

    /// `p` is a route from `start` to `end` with the fewest hops.
    pub open spec fn is_shortest_route(&self, start: int, end: int, p: Seq<usize>) -> bool {
        &&& self.is_route(start, end, p)
        &&& forall|q: Seq<usize>| #[trigger] self.is_route(start, end, q) ==> p.len() <= q.len()
    }

    /// Every room can be reached from room 0.
    pub open spec fn connected(&self) -> bool {
        forall|v: int| 0 <= v < self.size() ==> #[trigger] self.reachable(0, v)
    }

    /// The search state: `queue` holds the visited rooms in visiting order,
    /// `qpos` their places in it and `dist` their levels, which never decrease
    /// along the queue; every visited room but `start` has a visited parent one
    /// level up.
    spec fn bfs_core(
        &self,
        start: int,
        visited: Seq<bool>,
        parent: Seq<usize>,
        queue: Seq<usize>,
        dist: Seq<int>,
        qpos: Seq<int>,
    ) -> bool {
        let n = self.size();
        &&& visited.len() == n
        &&& parent.len() == n
        &&& dist.len() == n
        &&& qpos.len() == n
        &&& 0 <= start < n
        &&& queue.len() >= 1
        &&& queue.len() == count_true(visited)
        &&& queue[0] as int == start
        &&& dist[start] == 0
        &&& forall|j: int|
            0 <= j < queue.len() ==> {
                &&& (#[trigger] queue[j]) < n
                &&& visited[queue[j] as int]
                &&& qpos[queue[j] as int] == j
            }
        &&& forall|v: int|
            0 <= v < n && #[trigger] visited[v] ==> {
                &&& 0 <= qpos[v] < queue.len()
                &&& queue[qpos[v]] as int == v
                &&& dist[v] >= 0
            }
        &&& forall|v: int|
            0 <= v < n && #[trigger] visited[v] && v != start ==> {
                &&& parent[v] < n
                &&& visited[parent[v] as int]
                &&& self.adjacent(parent[v] as int, v)
                &&& dist[v] == dist[parent[v] as int] + 1
            }
        &&& forall|i: int, j: int|
            0 <= i <= j < queue.len() ==> dist[(#[trigger] queue[i]) as int] <= dist[(
            #[trigger] queue[j]) as int]
    }

    /// Every neighbour of an expanded room (before `head`) is visited, at most one
    /// level below it.
    spec fn bfs_closed(&self, queue: Seq<usize>, head: int, visited: Seq<bool>, dist: Seq<int>) -> bool {
        forall|i: int, v: int|
            0 <= i < head && #[trigger] self.adjacent(queue[i] as int, v) ==> {
                &&& visited[v]
                &&& dist[v] <= dist[queue[i] as int] + 1
            }
    }

    /// Room `v` has been expanded.
    spec fn processed(&self, v: int, head: int, visited: Seq<bool>, qpos: Seq<int>) -> bool {
        visited[v] && qpos[v] < head
    }

    /// Along a route from `start` whose first `h` rooms are expanded, the room
    /// at hop `h` is visited at a level of at most `h`.
    proof fn lemma_route_prefix(
        &self,
        start: int,
        q: Seq<usize>,
        h: int,
        head: int,
        visited: Seq<bool>,
        parent: Seq<usize>,
        queue: Seq<usize>,
        dist: Seq<int>,
        qpos: Seq<int>,
    )
        requires
            self.wf(),
            self.bfs_core(start, visited, parent, queue, dist, qpos),
            0 <= head <= queue.len(),
            self.bfs_closed(queue, head, visited, dist),
            self.is_route(start, q[0] as int, q),
            0 <= h < q.len(),
            forall|h2: int|
                0 <= h2 < h ==> self.processed(
                    #[trigger] q[q.len() - 1 - h2] as int,
                    head,
                    visited,
                    qpos,
                ),
        ensures
            q[q.len() - 1 - h] < self.size(),
            visited[q[q.len() - 1 - h] as int],
            dist[q[q.len() - 1 - h] as int] <= h,
        decreases h,
    {
        let l = q.len() as int;
        if h > 0 {
            self.lemma_route_prefix(start, q, h - 1, head, visited, parent, queue, dist, qpos);
            let prev = q[l - h] as int;
            let cur = q[l - 1 - h] as int;
            assert(self.processed(q[l - 1 - (h - 1)] as int, head, visited, qpos));
            assert(self.hop(q, l - 1 - h));
            let i = qpos[prev];
            assert(queue[i] as int == prev);
            assert(self.adjacent(queue[i] as int, cur));
        } else {
            assert(queue[0] as int == start);
        }
    }

    /// The first room along a route, from `start`, that is not expanded.
    proof fn lemma_first_unprocessed(
        &self,
        q: Seq<usize>,
        h: int,
        head: int,
        visited: Seq<bool>,
        qpos: Seq<int>,
    ) -> (h2: int)
        requires
            0 <= h < q.len(),
            !self.processed(q[0] as int, head, visited, qpos),
            forall|h1: int|
                0 <= h1 < h ==> self.processed(
                    #[trigger] q[q.len() - 1 - h1] as int,
                    head,
                    visited,
                    qpos,
                ),
        ensures
            h <= h2 < q.len(),
            !self.processed(q[q.len() - 1 - h2] as int, head, visited, qpos),
            forall|h1: int|
                0 <= h1 < h2 ==> self.processed(
                    #[trigger] q[q.len() - 1 - h1] as int,
                    head,
                    visited,
                    qpos,
                ),
        decreases q.len() - h,
    {
        if !self.processed(q[q.len() - 1 - h] as int, head, visited, qpos) {
            h
        } else {
            self.lemma_first_unprocessed(q, h + 1, head, visited, qpos)
        }
    }

    /// A route with the fewest hops from `start_node` to `end_node`, listed from
    /// `end_node` back to `start_node`, found by breadth-first search; `None`
    /// when no route exists.
    #[verifier::rlimit(60)]
    pub fn get_path(&self, start_node: usize, end_node: usize) -> (r: Option<Vec<usize>>)
        requires
            self.wf(),
            start_node < self.size(),
            end_node < self.size(),
        ensures
            match r {
                Some(p) => self.is_shortest_route(start_node as int, end_node as int, p@),
                None => !self.reachable(start_node as int, end_node as int),
            },
    {
        let n = self.nodes.len();
        let start = start_node;
        let end = end_node;
        let mut visited: Vec<bool> = vec![false; n];
        let mut parent: Vec<usize> = vec![start; n];
        let mut queue: Vec<usize> = Vec::new();
        let ghost mut dist: Seq<int> = Seq::new(n as nat, |i: int| 0);
        let ghost mut qpos: Seq<int> = Seq::new(n as nat, |i: int| 0);
        proof {
            assert(visited@ =~= Seq::new(n as nat, |k: int| false));
            lemma_count_true_single(n as nat, start as int);
        }
        visited.set(start, true);
        queue.push(start);
        let mut head: usize = 0;
        let mut found = false;
        while head < queue.len()
            invariant_except_break
                !found,
            invariant
                self.wf(),
                n == self.size(),
                start < n,
                end < n,
                self.bfs_core(start as int, visited@, parent@, queue@, dist, qpos),
                head <= queue.len(),
                self.bfs_closed(queue@, head as int, visited@, dist),
                forall|i: int| 0 <= i < head ==> queue@[i] != end,
                head < queue.len() ==> forall|j: int|
                    0 <= j < queue.len() ==> dist[(#[trigger] queue@[j]) as int] <= dist[queue@[head as int] as int] + 1,
            ensures
                found ==> head < queue.len() && queue@[head as int] == end,
                !found ==> head == queue.len(),
                self.bfs_core(start as int, visited@, parent@, queue@, dist, qpos),
                head <= queue.len(),
                self.bfs_closed(queue@, head as int, visited@, dist),
                forall|i: int| 0 <= i < head ==> queue@[i] != end,
            decreases n - head,
        {
            proof {
                lemma_count_true_bounds(visited@);
            }
            let u = queue[head];
            if u == end {
                found = true;
                break;
            }
            let ghost du = dist[u as int];
            let mut t: usize = 0;
            let nb_len = self.nodes[u].neighbors.len();
            while t < nb_len
                invariant
                    self.wf(),
                    n == self.size(),
                    start < n,
                    u < n,
                    head < queue.len(),
                    queue@[head as int] == u,
                    du == dist[u as int],
                    nb_len == self.nodes@[u as int].neighbors@.len(),
                    self.bfs_core(start as int, visited@, parent@, queue@, dist, qpos),
                    self.bfs_closed(queue@, head as int, visited@, dist),
                    forall|i: int| 0 <= i < head ==> queue@[i] != end,
                    forall|j: int| 0 <= j < queue.len() ==> dist[(#[trigger] queue@[j]) as int] <= du + 1,
                    forall|k: int|
                        0 <= k < t ==> {
                            let v = (#[trigger] self.nodes@[u as int].neighbors@[k]) as int;
                            visited@[v] && dist[v] <= du + 1
                        },
                    t <= nb_len,
                decreases nb_len - t,
            {
                let v = self.nodes[u].neighbors[t];
                if !visited[v] {
                    let ghost old_queue = queue@;
                    let ghost old_visited = visited@;
                    proof {
                        assert(forall|k: int| 0 <= k < old_queue.len() ==> old_queue[k] != v);
                    }
                    proof {
                        lemma_count_true_set(visited@, v as int);
                        lemma_count_true_bounds(visited@.update(v as int, true));
                    }
                    visited.set(v, true);
                    parent.set(v, u);
                    proof {
                        dist = dist.update(v as int, du + 1);
                        qpos = qpos.update(v as int, queue.len() as int);
                    }
                    queue.push(v);
                    proof {
                        assert(self.adjacent(u as int, v as int));
                        assert(self.adjacent(parent@[v as int] as int, v as int));
                        assert forall|w: int|
                            0 <= w < n && #[trigger] visited@[w] && w != start implies {
                                &&& parent@[w] < n
                                &&& visited@[parent@[w] as int]
                                &&& self.adjacent(parent@[w] as int, w)
                                &&& dist[w] == dist[parent@[w] as int] + 1
                            } by {
                            if w != v {
                                assert(old_visited[w]);
                            }
                        }
                        assert forall|i: int, j: int|
                            0 <= i <= j < queue@.len() implies dist[(#[trigger] queue@[i]) as int]
                            <= dist[(#[trigger] queue@[j]) as int] by {
                            if j == queue@.len() - 1 && i < j {
                                assert(dist[old_queue[i] as int] <= du + 1);
                            }
                        }
                        assert(self.bfs_core(start as int, visited@, parent@, queue@, dist, qpos));
                        assert forall|i: int, w: int|
                            0 <= i < head && #[trigger] self.adjacent(queue@[i] as int, w) implies {
                                &&& visited@[w]
                                &&& dist[w] <= dist[queue@[i] as int] + 1
                            } by {
                            assert(old_queue[i] == queue@[i]);
                        }
                    }
                }
                t = t + 1;
            }
            proof {
                assert forall|i: int, w: int|
                    0 <= i < head + 1 && #[trigger] self.adjacent(queue@[i] as int, w) implies {
                        &&& visited@[w]
                        &&& dist[w] <= dist[queue@[i] as int] + 1
                    } by {
                    if i == head {
                        let k = choose|k: int|
                            0 <= k < nb_len && self.nodes@[u as int].neighbors@[k] == w as usize;
                        assert(self.nodes@[u as int].neighbors@[k] == w as usize);
                    }
                }
            }
            proof {
                if head + 1 < queue.len() {
                    assert(dist[queue@[head as int] as int] <= dist[queue@[head + 1] as int]);
                }
            }
            head = head + 1;
        }
        if !visited[end] {
            proof {
                assert(!found);
                if self.reachable(start as int, end as int) {
                    let q = choose|q: Seq<usize>| self.is_route(start as int, end as int, q);
                    assert forall|h1: int| 0 <= h1 < q.len() implies self.processed(
                        #[trigger] q[q.len() - 1 - h1] as int,
                        head as int,
                        visited@,
                        qpos,
                    ) by {
                        self.lemma_all_processed(start as int, q, h1, head as int, visited@, parent@, queue@, dist, qpos);
                    }
                    assert(self.processed(q[q.len() - 1 - (q.len() - 1)] as int, head as int, visited@, qpos));
                }
            }
            return None;
        }
        let ghost dend = dist[end as int];
        let mut path: Vec<usize> = Vec::new();
        path.push(end);
        let mut cur = end;
        while cur != start
            invariant
                self.wf(),
                n == self.size(),
                start < n,
                end < n,
                cur < n,
                self.bfs_core(start as int, visited@, parent@, queue@, dist, qpos),
                visited@[cur as int],
                visited@[end as int],
                dend == dist[end as int],
                path@.len() == dend - dist[cur as int] + 1,
                path@.len() >= 1,
                path@[0] == end,
                path@.last() == cur,
                forall|k: int| 0 <= k < path@.len() - 1 ==> #[trigger] self.hop(path@, k),
            decreases dist[cur as int],
        {
            let ghost old_path = path@;
            let ghost old_cur = cur;
            cur = parent[cur];
            path.push(cur);
            proof {
                assert(path@[0] == old_path[0]);
                assert forall|k: int| 0 <= k < path@.len() - 1 implies #[trigger] self.hop(path@, k) by {
                    if k < old_path.len() - 1 {
                        assert(self.hop(old_path, k));
                    }
                }
            }
        }
        proof {
            assert(self.is_route(start as int, end as int, path@));
            assert forall|q: Seq<usize>| #[trigger] self.is_route(start as int, end as int, q) implies path@.len()
                <= q.len() by {
                self.lemma_route_length(start as int, end as int, q, head as int, found, visited@, parent@, queue@, dist, qpos);
            }
        }
        Some(path)
    }

    /// Once the queue is exhausted, every room on a route from `start` is expanded.
    proof fn lemma_all_processed(
        &self,
        start: int,
        q: Seq<usize>,
        h: int,
        head: int,
        visited: Seq<bool>,
        parent: Seq<usize>,
        queue: Seq<usize>,
        dist: Seq<int>,
        qpos: Seq<int>,
    )
        requires
            self.wf(),
            self.bfs_core(start, visited, parent, queue, dist, qpos),
            head == queue.len(),
            self.bfs_closed(queue, head, visited, dist),
            self.is_route(start, q[0] as int, q),
            0 <= h < q.len(),
        ensures
            self.processed(q[q.len() - 1 - h] as int, head, visited, qpos),
        decreases h,
    {
        if h > 0 {
            self.lemma_all_processed(start, q, h - 1, head, visited, parent, queue, dist, qpos);
        }
        assert forall|h2: int| 0 <= h2 < h implies self.processed(
            #[trigger] q[q.len() - 1 - h2] as int,
            head,
            visited,
            qpos,
        ) by {
            self.lemma_all_processed(start, q, h2, head, visited, parent, queue, dist, qpos);
        }
        self.lemma_route_prefix(start, q, h, head, visited, parent, queue, dist, qpos);
    }

    /// No route from `start` to `end` is shorter than the level of `end`.
    proof fn lemma_route_length(
        &self,
        start: int,
        end: int,
        q: Seq<usize>,
        head: int,
        found: bool,
        visited: Seq<bool>,
        parent: Seq<usize>,
        queue: Seq<usize>,
        dist: Seq<int>,
        qpos: Seq<int>,
    )
        requires
            self.wf(),
            self.bfs_core(start, visited, parent, queue, dist, qpos),
            0 <= end < self.size(),
            0 <= head,
            visited[end],
            found ==> head < queue.len() && queue[head] as int == end,
            !found ==> head == queue.len(),
            self.bfs_closed(queue, head, visited, dist),
            self.is_route(start, end, q),
        ensures
            dist[end] + 1 <= q.len(),
    {
        if found {
            assert(qpos[queue[head] as int] == head);
            let h = self.lemma_first_unprocessed(q, 0, head, visited, qpos);
            self.lemma_route_prefix(start, q, h, head, visited, parent, queue, dist, qpos);
            let w = q[q.len() - 1 - h] as int;
            assert(qpos[w] >= head);
            assert(queue[qpos[w]] as int == w);
            assert(dist[queue[head] as int] <= dist[queue[qpos[w]] as int]);
        } else {
            assert forall|h2: int| 0 <= h2 < q.len() - 1 implies self.processed(
                #[trigger] q[q.len() - 1 - h2] as int,
                head,
                visited,
                qpos,
            ) by {
                self.lemma_all_processed(start, q, h2, head, visited, parent, queue, dist, qpos);
            }
            self.lemma_route_prefix(start, q, q.len() - 1, head, visited, parent, queue, dist, qpos);
        }
    }

    /// A route stays a route when edges are only added.
    pub proof fn lemma_route_lift(&self, other: &Graph, start: int, end: int, q: Seq<usize>)
        requires
            self.is_route(start, end, q),
            other.size() == self.size(),
            forall|a: int, b: int| #[trigger] self.adjacent(a, b) ==> other.adjacent(a, b),
        ensures
            other.is_route(start, end, q),
    {
        assert forall|k: int| 0 <= k < q.len() - 1 implies #[trigger] other.hop(q, k) by {
            assert(self.hop(q, k));
        }
    }

    /// A route to `q[0]` followed by the edge to `c` is a route to `c`.
    pub proof fn lemma_route_extend(&self, start: int, q: Seq<usize>, c: usize)
        requires
            self.is_route(start, q[0] as int, q),
            self.adjacent(q[0] as int, c as int),
        ensures
            self.is_route(start, c as int, seq![c] + q),
    {
        let p = seq![c] + q;
        assert forall|k: int| 0 <= k < p.len() - 1 implies #[trigger] self.hop(p, k) by {
            if k > 0 {
                assert(self.hop(q, k - 1));
                assert(p[k] == q[k - 1] && p[k + 1] == q[k]);
            }
        }
    }

    /// Read the other way, a route is a route back.
    pub proof fn lemma_route_reverse(&self, start: int, end: int, p: Seq<usize>)
        requires
            self.symmetric(),
            self.is_route(start, end, p),
        ensures
            self.is_route(end, start, p.reverse()),
    {
        let r = p.reverse();
        let l = p.len() as int;
        assert forall|k: int| 0 <= k < r.len() - 1 implies #[trigger] self.hop(r, k) by {
            assert(r[k] == p[l - 1 - k] && r[k + 1] == p[l - 2 - k]);
            assert(self.hop(p, l - 2 - k));
        }
    }

    /// A route from `a` to `b` followed by a route from `b` to `c`.
    pub proof fn lemma_route_concat(&self, a: int, b: int, c: int, p: Seq<usize>, q: Seq<usize>)
        requires
            self.is_route(a, b, p),
            self.is_route(b, c, q),
        ensures
            self.is_route(a, c, q + p.subrange(1, p.len() as int)),
    {
        let tail = p.subrange(1, p.len() as int);
        let r = q + tail;
        let lq = q.len() as int;
        assert forall|k: int| 0 <= k < r.len() - 1 implies #[trigger] self.hop(r, k) by {
            if k < lq - 1 {
                assert(self.hop(q, k));
                assert(r[k] == q[k] && r[k + 1] == q[k + 1]);
            } else if k == lq - 1 {
                assert(self.hop(p, 0));
                assert(r[k] == q[lq - 1] && r[k + 1] == p[1]);
            } else {
                let j = k - lq + 1;
                assert(self.hop(p, j));
                assert(r[k] == p[j] && r[k + 1] == p[j + 1]);
            }
        }
        if p.len() > 1 {
            assert(r.last() == p.last());
        } else {
            assert(r =~= q);
        }
    }

    /// In a connected board with symmetric adjacency any room reaches any other.
    pub proof fn lemma_connected_pairs(&self, a: int, b: int)
        requires
            self.symmetric(),
            self.connected(),
            0 <= a < self.size(),
            0 <= b < self.size(),
        ensures
            self.reachable(a, b),
    {
        assert(self.reachable(0, a));
        assert(self.reachable(0, b));
        let p = choose|p: Seq<usize>| self.is_route(0, a, p);
        let q = choose|q: Seq<usize>| self.is_route(0, b, q);
        self.lemma_route_reverse(0, a, p);
        self.lemma_route_concat(a, 0, b, p.reverse(), q);
    }

    /// Two boards with the same adjacency have the same routes.
    pub proof fn lemma_same_adjacency_routes(&self, other: &Graph, start: int, end: int, p: Seq<usize>)
        requires
            self.size() == other.size(),
            forall|a: int, b: int| #[trigger] self.adjacent(a, b) == other.adjacent(a, b),
        ensures
            self.is_route(start, end, p) == other.is_route(start, end, p),
            self.is_shortest_route(start, end, p) == other.is_shortest_route(start, end, p),
            self.reachable(start, end) == other.reachable(start, end),
    {
        assert forall|q: Seq<usize>| #[trigger] self.is_route(start, end, q) == other.is_route(start, end, q) by {
            if self.is_route(start, end, q) {
                self.lemma_route_lift(other, start, end, q);
            }
            if other.is_route(start, end, q) {
                other.lemma_route_lift(self, start, end, q);
            }
        }
        if self.reachable(start, end) {
            let q = choose|q: Seq<usize>| self.is_route(start, end, q);
            assert(other.is_route(start, end, q));
        }
        if other.reachable(start, end) {
            let q = choose|q: Seq<usize>| other.is_route(start, end, q);
            assert(self.is_route(start, end, q));
        }
        if self.is_shortest_route(start, end, p) {
            assert forall|q: Seq<usize>| #[trigger] other.is_route(start, end, q) implies p.len() <= q.len() by {
                assert(self.is_route(start, end, q));
            }
        }
        if other.is_shortest_route(start, end, p) {
            assert forall|q: Seq<usize>| #[trigger] self.is_route(start, end, q) implies p.len() <= q.len() by {
                assert(other.is_route(start, end, q));
            }
        }
    }

    /// Every room on a route exists.
    pub proof fn lemma_route_in_range(&self, start: int, end: int, p: Seq<usize>)
        requires
            self.is_route(start, end, p),
        ensures
            forall|k: int| 0 <= k < p.len() ==> (#[trigger] p[k]) < self.size(),
    {
        assert forall|k: int| 0 <= k < p.len() implies (#[trigger] p[k]) < self.size() by {
            if k < p.len() - 1 {
                assert(self.hop(p, k));
            }
        }
    }
}

} // verus!
