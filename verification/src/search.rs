//! Breadth-first search and the distances it finds.

use vstd::prelude::*;
use vstd::set_lib::lemma_int_range;
use vstd::set_lib::lemma_len_subset;
use vstd::set_lib::set_int_range;
use std::collections::VecDeque;
use crate::graph::Graph;
use crate::graph::GraphModel;
use crate::graph::Vertex;
use crate::graph::lemma_inverse_index_of;
use crate::paths::distance;
use crate::paths::has_edge;
use crate::paths::is_path;
use crate::paths::joins;
use crate::paths::walk;
use crate::paths::lemma_distance_to_self;
use crate::paths::lemma_shortest_is_distance;
use crate::paths::lemma_walk_extend;
use crate::paths::lemma_walk_none;

verus! {

/// An entry of a distance vector as a number of edges.
pub open spec fn hops(entry: Option<u32>) -> Option<nat> {
    match entry {
        Some(d) => Some(d as nat),
        None => None,
    }
}

/// The distance between the vertices labelled `from` and `to`; there is none
/// where either label is missing or no path leads from the one to the other.
pub open spec fn label_distance(g: GraphModel, from: Seq<char>, to: Seq<char>) -> Option<nat> {
    if g.labels.contains(from) && g.labels.contains(to) {
        distance(g.adj, g.labels.index_of(from), g.labels.index_of(to))
    } else {
        None
    }
}

/// Some path leads from `s` to every vertex.
pub open spec fn reaches_all(adj: Seq<Seq<usize>>, s: int) -> bool {
    forall|t: int| 0 <= t < adj.len() ==> (#[trigger] distance(adj, s, t)) is Some
}

/// `m` is the greatest distance from `s` to any vertex, all of which `s`
/// reaches.
pub open spec fn is_eccentricity(adj: Seq<Seq<usize>>, s: int, m: nat) -> bool {
    &&& forall|t: int|
        0 <= t < adj.len() ==> (#[trigger] distance(adj, s, t)) is Some && distance(adj, s, t)->0
            <= m
    &&& exists|t: int| 0 <= t < adj.len() && #[trigger] distance(adj, s, t) == Some(m)
}

/// Some path leads from every vertex to every vertex.
pub open spec fn strongly_connected(adj: Seq<Seq<usize>>) -> bool {
    forall|s: int| 0 <= s < adj.len() ==> #[trigger] reaches_all(adj, s)
}

/// `m` is the greatest distance from any vertex to any vertex, all of which
/// reach each other; in the graph without vertices it is 0.
pub open spec fn is_diameter(adj: Seq<Seq<usize>>, m: nat) -> bool {
    &&& forall|s: int, t: int|
        0 <= s < adj.len() && 0 <= t < adj.len() ==> (#[trigger] distance(adj, s, t)) is Some
            && distance(adj, s, t)->0 <= m
    &&& if adj.len() == 0 {
        m == 0
    } else {
        exists|s: int, t: int|
            0 <= s < adj.len() && 0 <= t < adj.len() && #[trigger] distance(adj, s, t) == Some(m)
    }
}

/// Every vertex that `dist` marks is reached from `start` by a walk of the
/// length that `dist` gives it.
spec fn witnessed(adj: Seq<Seq<usize>>, start: int, dist: Seq<Option<u32>>) -> bool {
    forall|t: int|
        0 <= t < dist.len() && (#[trigger] dist[t]) is Some ==> walk(
            adj,
            start,
            t,
            dist[t]->0 as nat,
        )
}

/// Every vertex of `done` is marked, and so is each vertex that an edge from
/// it leads to, at most one step further out.
spec fn settled(adj: Seq<Seq<usize>>, dist: Seq<Option<u32>>, done: Set<int>) -> bool {
    &&& forall|u: int| #[trigger] done.contains(u) ==> 0 <= u < adj.len() && dist[u] is Some
    &&& forall|u: int, k: int|
        done.contains(u) && 0 <= k < adj[u].len() ==> dist[(#[trigger] adj[u][k]) as int] is Some
            && dist[adj[u][k] as int]->0 <= dist[u]->0 + 1
}

/// `seen` is the set of marked vertices, and each mark is below their number.
spec fn counted(dist: Seq<Option<u32>>, seen: Set<int>) -> bool {
    &&& seen.finite()
    &&& seen.len() <= dist.len()
    &&& forall|t: int| 0 <= t < dist.len() ==> (seen.contains(t) <==> (#[trigger] dist[t]) is Some)
    &&& forall|t: int| #[trigger] seen.contains(t) ==> 0 <= t < dist.len() && dist[t]->0 < seen.len()
}

/// Where every marked vertex is settled, a path from `start` ends at a marked
/// vertex whose mark is at most the number of its edges.
proof fn lemma_marks_bound_paths(
    adj: Seq<Seq<usize>>,
    start: int,
    dist: Seq<Option<u32>>,
    done: Set<int>,
    p: Seq<int>,
)
    requires
        dist.len() == adj.len(),
        dist[start] == Some(0u32),
        settled(adj, dist, done),
        forall|t: int| 0 <= t < dist.len() && (#[trigger] dist[t]) is Some ==> done.contains(t),
        is_path(adj, p),
        p[0] == start,
    ensures
        dist[p.last()] is Some,
        dist[p.last()]->0 <= p.len() - 1,
    decreases p.len(),
{
    if p.len() > 1 {
        let q = p.drop_last();
        assert forall|i: int| 0 <= i < q.len() - 1 implies has_edge(adj, #[trigger] q[i], q[i + 1]) by {
            assert(q[i] == p[i]);
            assert(has_edge(adj, p[i], p[i + 1]));
        }
        lemma_marks_bound_paths(adj, start, dist, done, q);
        let u = q.last();
        let i = p.len() - 2;
        assert(p[i] == u);
        assert(has_edge(adj, p[i], p[i + 1]));
        let k = choose|k: int| 0 <= k < adj[u].len() && #[trigger] adj[u][k] == p.last();
        assert(done.contains(u));
        assert(dist[adj[u][k] as int] is Some);
    }
}

/// Marks that are witnessed and settled throughout are the distances.
proof fn lemma_marks_are_distances(
    adj: Seq<Seq<usize>>,
    start: int,
    dist: Seq<Option<u32>>,
    done: Set<int>,
    t: int,
)
    requires
        dist.len() == adj.len(),
        0 <= start < adj.len(),
        0 <= t < adj.len(),
        dist[start] == Some(0u32),
        witnessed(adj, start, dist),
        settled(adj, dist, done),
        forall|t: int| 0 <= t < dist.len() && (#[trigger] dist[t]) is Some ==> done.contains(t),
    ensures
        hops(dist[t]) == distance(adj, start, t),
{
    assert forall|k: nat| walk(adj, start, t, k) implies dist[t] is Some && dist[t]->0 <= k by {
        let p = choose|p: Seq<int>| #[trigger] joins(adj, p, start, t) && p.len() == k + 1;
        lemma_marks_bound_paths(adj, start, dist, done, p);
    }
    match dist[t] {
        Some(d) => {
            assert(walk(adj, start, t, d as nat));
            lemma_shortest_is_distance(adj, start, t, d as nat);
        },
        None => {},
    }
}

/// A vector of `n` entries, none of them set.
fn unmarked(n: usize) -> (dist: Vec<Option<u32>>)
    ensures
        dist@.len() == n,
        forall|t: int| 0 <= t < n ==> (#[trigger] dist@[t]) is None,
{
    let mut dist: Vec<Option<u32>> = Vec::new();
    let mut t: usize = 0;
    while t < n
        invariant
            t <= n,
            dist@.len() == t,
            forall|w: int| 0 <= w < t ==> (#[trigger] dist@[w]) is None,
        decreases n - t,
    {
        dist.push(None);
        t += 1;
    }
    dist
}

impl Graph {
    /// The distance vector of `start`: for each vertex the least number of
    /// edges on a path from `start` to it, or `None` where no path leads
    /// there.
    pub fn bfs(&self, start: Vertex) -> (dist: Vec<Option<u32>>)
        requires
            self.well_formed(),
            start < self.n,
            self.n <= u32::MAX,
        ensures
            dist@.len() == self.n,
            dist@[start as int] == Some(0u32),
            forall|t: int|
                0 <= t < self.n ==> hops(#[trigger] dist@[t]) == distance(
                    self@.adj,
                    start as int,
                    t,
                ),
    {
        let n = self.n;
        let ghost adj = self@.adj;
        let mut found = unmarked(n);
        found[start] = Some(0);
        let mut queue: VecDeque<usize> = VecDeque::new();
        queue.push_back(start);
        let ghost mut done: Set<int> = Set::empty();
        let ghost mut seen: Set<int> = Set::empty().insert(start as int);
        proof {
            lemma_walk_none(adj, start as int);
            assert(queue@[0] == start);
        }
        while queue.len() > 0
            invariant
                self.well_formed(),
                adj == self@.adj,
                n == self.n,
                start < n,
                n <= u32::MAX,
                found@.len() == n,
                found@[start as int] == Some(0u32),
                witnessed(adj, start as int, found@),
                settled(adj, found@, done),
                counted(found@, seen),
                forall|i: int|
                    0 <= i < queue@.len() ==> (#[trigger] queue@[i]) < n && found@[queue@[i] as int] is Some,
                forall|i: int, j: int|
                    0 <= i <= j < queue@.len() ==> found@[(#[trigger] queue@[i]) as int]->0
                        <= found@[(#[trigger] queue@[j]) as int]->0 <= found@[queue@[i] as int]->0
                        + 1,
                forall|u: int, i: int|
                    #![trigger done.contains(u), queue@[i]]
                    done.contains(u) && 0 <= i < queue@.len() ==> found@[u]->0
                        <= found@[queue@[i] as int]->0,
                forall|t: int|
                    0 <= t < n && (#[trigger] found@[t]) is Some ==> done.contains(t)
                        || queue@.contains(t as usize),
            decreases 2 * (n - seen.len()) + queue@.len(),
        {
            let ghost waiting = queue@;
            let ghost budget = 2 * (n - seen.len()) + queue@.len();
            let v = queue.pop_front().unwrap();
            let reach = found[v].unwrap();
            let row = &self.outedges[v];
            proof {
                assert(waiting[0] == v);
                assert forall|i: int| 0 <= i < queue@.len() implies #[trigger] queue@[i] == waiting[i
                    + 1] by {}
                assert forall|t: int|
                    0 <= t < n && (#[trigger] found@[t]) is Some implies done.contains(t)
                    || queue@.contains(t as usize) || t == v by {
                    if !done.contains(t) {
                        let i = choose|i: int| 0 <= i < waiting.len() && waiting[i] == t as usize;
                        if i > 0 {
                            assert(queue@[i - 1] == t as usize);
                        }
                    }
                }
                assert(row@ == adj[v as int]);
            }
            let mut k: usize = 0;
            while k < row.len()
                invariant
                    k <= row.len(),
                    row@ == adj[v as int],
                    self.well_formed(),
                    adj == self@.adj,
                    n == self.n,
                    start < n,
                    v < n,
                    n <= u32::MAX,
                    found@.len() == n,
                    found@[start as int] == Some(0u32),
                    found@[v as int] == Some(reach),
                    witnessed(adj, start as int, found@),
                    settled(adj, found@, done),
                    counted(found@, seen),
                    2 * (n - seen.len()) + queue@.len() < budget,
                    forall|i: int|
                        0 <= i < queue@.len() ==> (#[trigger] queue@[i]) < n && found@[queue@[i] as int] is Some,
                    forall|i: int|
                        0 <= i < queue@.len() ==> reach <= found@[(#[trigger] queue@[i]) as int]->0
                            <= reach + 1,
                    forall|i: int, j: int|
                        0 <= i <= j < queue@.len() ==> found@[(#[trigger] queue@[i]) as int]->0
                            <= found@[(#[trigger] queue@[j]) as int]->0,
                    forall|u: int| #[trigger] done.contains(u) ==> found@[u]->0 <= reach,
                    forall|t: int|
                        0 <= t < n && (#[trigger] found@[t]) is Some ==> done.contains(t)
                            || queue@.contains(t as usize) || t == v,
                    forall|j: int|
                        0 <= j < k ==> found@[(#[trigger] row@[j]) as int] is Some
                            && found@[row@[j] as int]->0 <= reach + 1,
                decreases row.len() - k,
            {
                let u = row[k];
                proof {
                    assert(adj[v as int][k as int] < adj.len());
                }
                if found[u].is_none() {
                    let ghost marks = found@;
                    let ghost line = queue@;
                    proof {
                        assert(!seen.contains(u as int));
                        lemma_int_range(0, n as int);
                        assert(seen.insert(u as int).subset_of(set_int_range(0, n as int)));
                        lemma_len_subset(seen.insert(u as int), set_int_range(0, n as int));
                        assert(seen.contains(v as int));
                    }
                    found[u] = Some(reach + 1);
                    queue.push_back(u);
                    proof {
                        seen = seen.insert(u as int);
                        assert(has_edge(adj, v as int, u as int));
                        lemma_walk_extend(adj, start as int, v as int, u as int, reach as nat);
                        assert(found@ == marks.update(u as int, Some((reach + 1) as u32)));
                        assert(queue@ == line.push(u));
                        assert forall|t: int|
                            0 <= t < n && (#[trigger] found@[t]) is Some implies done.contains(t)
                            || queue@.contains(t as usize) || t == v by {
                            if t == u {
                                assert(queue@[line.len() as int] == u);
                            } else if !done.contains(t) && t != v {
                                assert(marks[t] is Some);
                                let i = choose|i: int| 0 <= i < line.len() && line[i] == t as usize;
                                assert(queue@[i] == t as usize);
                            }
                        }
                        assert forall|w: int, j: int|
                            done.contains(w) && 0 <= j < adj[w].len() implies found@[(
                        #[trigger] adj[w][j]) as int] is Some && found@[adj[w][j] as int]->0
                            <= found@[w]->0 + 1 by {
                            assert(marks[adj[w][j] as int] is Some);
                        }
                    }
                }
                proof {
                    if !done.contains(u as int) && u != v {
                        let i = choose|i: int| 0 <= i < queue@.len() && queue@[i] == u;
                        assert(found@[queue@[i] as int]->0 <= reach + 1);
                    }
                }
                k += 1;
            }
            proof {
                let grown = done.insert(v as int);
                assert forall|w: int, j: int|
                    grown.contains(w) && 0 <= j < adj[w].len() implies found@[(
                #[trigger] adj[w][j]) as int] is Some && found@[adj[w][j] as int]->0
                    <= found@[w]->0 + 1 by {
                    if w == v {
                        assert(adj[w][j] == row@[j]);
                    }
                }
                done = grown;
            }
        }
        proof {
            assert forall|t: int| 0 <= t < n && (#[trigger] found@[t]) is Some implies done.contains(
                t,
            ) by {
                assert(!queue@.contains(t as usize));
            }
            assert forall|t: int| 0 <= t < n implies hops(#[trigger] found@[t]) == distance(
                adj,
                start as int,
                t,
            ) by {
                lemma_marks_are_distances(adj, start as int, found@, done, t);
            }
        }
        found
    }
    /// The distance from the vertex labelled `start_label` to the vertex
    /// labelled `end_label`, or `None` where either label is missing or no
    /// path leads from the one to the other.
    pub fn min_distance(&self, start_label: &str, end_label: &str) -> (hop_count: Option<u32>)
        requires
            self.well_formed(),
            self.well_labeled(),
            self.n <= u32::MAX,
        ensures
            hops(hop_count) == label_distance(self@, start_label@, end_label@),
    {
        proof {
            lemma_inverse_index_of(self.vertex_indices@, self@.labels, start_label@);
            lemma_inverse_index_of(self.vertex_indices@, self@.labels, end_label@);
        }
        let start_index = match self.vertex_indices.get(start_label) {
            Some(index) => *index,
            None => { return None; },
        };
        let end_index = match self.vertex_indices.get(end_label) {
            Some(index) => *index,
            None => { return None; },
        };
        let distances = self.bfs(start_index);
        distances[end_index]
    }

    /// The greatest distance from `start` to any vertex, or `None` where
    /// `start` does not reach every vertex.
    pub fn eccentricity(&self, start: Vertex) -> (farthest: Option<u32>)
        requires
            self.well_formed(),
            start < self.n,
            self.n <= u32::MAX,
        ensures
            match farthest {
                Some(m) => is_eccentricity(self@.adj, start as int, m as nat),
                None => !reaches_all(self@.adj, start as int),
            },
    {
        let ghost adj = self@.adj;
        let distances = self.bfs(start);
        let mut farthest: u32 = 0;
        let ghost mut holder: int = start as int;
        proof {
            lemma_distance_to_self(adj, start as int);
        }
        let mut t: usize = 0;
        while t < distances.len()
            invariant
                t <= distances@.len(),
                distances@.len() == self.n,
                adj == self@.adj,
                adj.len() == self.n,
                forall|w: int|
                    0 <= w < self.n ==> hops(#[trigger] distances@[w]) == distance(
                        adj,
                        start as int,
                        w,
                    ),
                forall|w: int|
                    0 <= w < t ==> (#[trigger] distance(adj, start as int, w)) is Some && distance(
                        adj,
                        start as int,
                        w,
                    )->0 <= farthest,
                0 <= holder < self.n,
                distance(adj, start as int, holder) == Some(farthest as nat),
            decreases distances@.len() - t,
        {
            match distances[t] {
                Some(d) => {
                    if d > farthest {
                        farthest = d;
                        proof {
                            holder = t as int;
                        }
                    }
                },
                None => {
                    assert(hops(distances@[t as int]) is None);
                    assert(distance(adj, start as int, t as int) is None);
                    return None;
                },
            }
            assert(hops(distances@[t as int]) == distance(adj, start as int, t as int));
            t += 1;
        }
        Some(farthest)
    }

    /// The greatest distance between any two vertices, or `None` where some
    /// vertex does not reach every vertex. In the graph without vertices it
    /// is 0.
    pub fn max_degree_of_separation(&self) -> (separation: Option<u32>)
        requires
            self.well_formed(),
            self.n <= u32::MAX,
        ensures
            match separation {
                Some(m) => is_diameter(self@.adj, m as nat),
                None => !strongly_connected(self@.adj),
            },
    {
        let ghost adj = self@.adj;
        let mut max_separation: u32 = 0;
        let ghost mut ends: (int, int) = (0, 0);
        let mut start: usize = 0;
        while start < self.n
            invariant
                start <= self.n,
                self.well_formed(),
                self.n <= u32::MAX,
                adj == self@.adj,
                adj.len() == self.n,
                forall|s: int, t: int|
                    0 <= s < start && 0 <= t < self.n ==> (#[trigger] distance(adj, s, t)) is Some
                        && distance(adj, s, t)->0 <= max_separation,
                if start == 0 {
                    max_separation == 0
                } else {
                    0 <= ends.0 < self.n && 0 <= ends.1 < self.n && distance(adj, ends.0, ends.1)
                        == Some(max_separation as nat)
                },
            decreases self.n - start,
        {
            match self.eccentricity(start) {
                Some(farthest) => {
                    if farthest > max_separation || start == 0 {
                        proof {
                            let t = choose|t: int|
                                0 <= t < adj.len() && #[trigger] distance(adj, start as int, t)
                                    == Some(farthest as nat);
                            ends = (start as int, t);
                        }
                    }
                    if farthest > max_separation {
                        max_separation = farthest;
                    }
                },
                None => {
                    return None;
                },
            }
            start += 1;
        }
        Some(max_separation)
    }
}

} // verus!
