//! Paths, walks and distances in an adjacency structure, and what holds of
//! them.

use vstd::prelude::*;

verus! {

/// `adj` has an edge from `u` to `v`.
pub open spec fn has_edge(adj: Seq<Seq<usize>>, u: int, v: int) -> bool {
    0 <= u < adj.len() && exists|k: int| 0 <= k < adj[u].len() && #[trigger] adj[u][k] == v
}

/// `p` is a non-empty sequence of vertices of `adj`, each joined to the next
/// by an edge.
pub open spec fn is_path(adj: Seq<Seq<usize>>, p: Seq<int>) -> bool {
    &&& p.len() > 0
    &&& forall|i: int| 0 <= i < p.len() ==> 0 <= #[trigger] p[i] < adj.len()
    &&& forall|i: int| 0 <= i < p.len() - 1 ==> has_edge(adj, #[trigger] p[i], p[i + 1])
}

/// `p` is a path of `adj` from `s` to `t`.
pub open spec fn joins(adj: Seq<Seq<usize>>, p: Seq<int>, s: int, t: int) -> bool {
    is_path(adj, p) && p[0] == s && p.last() == t
}

/// Some path of `d` edges leads from `s` to `t`.
pub open spec fn walk(adj: Seq<Seq<usize>>, s: int, t: int, d: nat) -> bool {
    exists|p: Seq<int>| #[trigger] joins(adj, p, s, t) && p.len() == d + 1
}

/// Some path leads from `s` to `t`.
pub open spec fn reachable(adj: Seq<Seq<usize>>, s: int, t: int) -> bool {
    exists|d: nat| walk(adj, s, t, d)
}

/// `d` is the least number of edges on a path from `s` to `t`.
pub open spec fn shortest(adj: Seq<Seq<usize>>, s: int, t: int, d: nat) -> bool {
    walk(adj, s, t, d) && forall|k: nat| k < d ==> !walk(adj, s, t, k)
}

/// The least number of edges on a path from `s` to `t`, if there is a path.
pub open spec fn distance(adj: Seq<Seq<usize>>, s: int, t: int) -> Option<nat> {
    if reachable(adj, s, t) {
        Some(choose|d: nat| shortest(adj, s, t, d))
    } else {
        None
    }
}

/// A vertex is joined to itself by the path that holds it alone.
pub proof fn lemma_walk_none(adj: Seq<Seq<usize>>, s: int)
    requires
        0 <= s < adj.len(),
    ensures
        walk(adj, s, s, 0),
{
    let p = seq![s];
    assert(joins(adj, p, s, s));
}

/// A walk followed by an edge is a walk one edge longer.
pub proof fn lemma_walk_extend(adj: Seq<Seq<usize>>, s: int, u: int, w: int, d: nat)
    requires
        walk(adj, s, u, d),
        has_edge(adj, u, w),
        0 <= w < adj.len(),
    ensures
        walk(adj, s, w, d + 1),
{
    let p = choose|p: Seq<int>| #[trigger] joins(adj, p, s, u) && p.len() == d + 1;
    let q = p.push(w);
    assert forall|i: int| 0 <= i < q.len() - 1 implies has_edge(adj, #[trigger] q[i], q[i + 1]) by {
        if i < p.len() - 1 {
            assert(q[i] == p[i]);
            assert(has_edge(adj, p[i], p[i + 1]));
        }
    }
    assert(joins(adj, q, s, w));
}

/// A walk of at least one edge is a shorter walk followed by an edge.
pub proof fn lemma_walk_last_edge(adj: Seq<Seq<usize>>, s: int, t: int, d: nat) -> (u: int)
    requires
        walk(adj, s, t, d),
        d > 0,
    ensures
        walk(adj, s, u, (d - 1) as nat),
        has_edge(adj, u, t),
{
    let p = choose|p: Seq<int>| #[trigger] joins(adj, p, s, t) && p.len() == d + 1;
    let q = p.drop_last();
    assert forall|i: int| 0 <= i < q.len() - 1 implies has_edge(adj, #[trigger] q[i], q[i + 1]) by {
        assert(q[i] == p[i]);
        assert(has_edge(adj, p[i], p[i + 1]));
    }
    assert(has_edge(adj, p[d - 1], p[d - 1 + 1]));
    assert(joins(adj, q, s, q.last()));
    q.last()
}

/// Among the walks from `s` to `t` of at most `d` edges one is shortest.
proof fn lemma_least_walk(adj: Seq<Seq<usize>>, s: int, t: int, d: nat) -> (least: nat)
    requires
        walk(adj, s, t, d),
    ensures
        least <= d,
        shortest(adj, s, t, least),
    decreases d,
{
    if exists|k: nat| k < d && walk(adj, s, t, k) {
        let k = choose|k: nat| k < d && walk(adj, s, t, k);
        lemma_least_walk(adj, s, t, k)
    } else {
        d
    }
}

/// The distance is the length of a shortest walk, and there is none where
/// nothing leads from `s` to `t`.
pub proof fn lemma_distance(adj: Seq<Seq<usize>>, s: int, t: int)
    ensures
        match distance(adj, s, t) {
            Some(d) => shortest(adj, s, t, d),
            None => forall|k: nat| !walk(adj, s, t, k),
        },
{
    if reachable(adj, s, t) {
        let d = choose|d: nat| walk(adj, s, t, d);
        let least = lemma_least_walk(adj, s, t, d);
    }
}

/// A shortest walk has the distance as its length.
pub proof fn lemma_shortest_is_distance(adj: Seq<Seq<usize>>, s: int, t: int, d: nat)
    requires
        shortest(adj, s, t, d),
    ensures
        distance(adj, s, t) == Some(d),
{
    lemma_distance(adj, s, t);
}

/// Two walks, the second starting where the first ends, make one walk of
/// their joint length.
pub proof fn lemma_walk_concat(adj: Seq<Seq<usize>>, s: int, m: int, t: int, a: nat, b: nat)
    requires
        walk(adj, s, m, a),
        walk(adj, m, t, b),
    ensures
        walk(adj, s, t, a + b),
    decreases b,
{
    if b == 0 {
        let q = choose|q: Seq<int>| #[trigger] joins(adj, q, m, t) && q.len() == b + 1;
        assert(q[0] == q.last());
    } else {
        let u = lemma_walk_last_edge(adj, m, t, b);
        lemma_walk_concat(adj, s, m, u, a, (b - 1) as nat);
        let q = choose|q: Seq<int>| #[trigger] joins(adj, q, m, t) && q.len() == b + 1;
        assert(0 <= q[b as int] < adj.len());
        lemma_walk_extend(adj, s, u, t, (a + b - 1) as nat);
    }
}

/// Every vertex is at distance 0 from itself.
pub proof fn lemma_distance_to_self(adj: Seq<Seq<usize>>, s: int)
    requires
        0 <= s < adj.len(),
    ensures
        distance(adj, s, s) == Some(0nat),
{
    lemma_walk_none(adj, s);
    lemma_shortest_is_distance(adj, s, s, 0);
}

/// A vertex has a distance from `s` exactly if some path leads to it from
/// `s`.
pub proof fn lemma_distance_is_reachability(adj: Seq<Seq<usize>>, s: int, t: int)
    ensures
        distance(adj, s, t) is Some <==> reachable(adj, s, t),
{
}

/// The start of a path, up to and including its vertex number `i`, is a path.
pub proof fn lemma_path_prefix(adj: Seq<Seq<usize>>, p: Seq<int>, i: int)
    requires
        is_path(adj, p),
        0 <= i < p.len(),
    ensures
        joins(adj, p.take(i + 1), p[0], p[i]),
{
    let q = p.take(i + 1);
    assert forall|j: int| 0 <= j < q.len() - 1 implies has_edge(adj, #[trigger] q[j], q[j + 1]) by {
        assert(q[j] == p[j]);
        assert(has_edge(adj, p[j], p[j + 1]));
    }
}

/// The rest of a path, from its vertex number `i` on, is a path.
pub proof fn lemma_path_suffix(adj: Seq<Seq<usize>>, p: Seq<int>, i: int)
    requires
        is_path(adj, p),
        0 <= i < p.len(),
    ensures
        joins(adj, p.skip(i), p[i], p.last()),
{
    let q = p.skip(i);
    assert forall|j: int| 0 <= j < q.len() - 1 implies has_edge(adj, #[trigger] q[j], q[j + 1]) by {
        assert(q[j] == p[i + j]);
        assert(has_edge(adj, p[i + j], p[i + j + 1]));
    }
}

/// Along a shortest path the distance from its start grows by one with each
/// edge: vertex number `i` of the path is at distance `i`. So the distance
/// never falls along a shortest path.
pub proof fn lemma_distance_along_shortest_path(adj: Seq<Seq<usize>>, p: Seq<int>)
    requires
        is_path(adj, p),
        distance(adj, p[0], p.last()) == Some((p.len() - 1) as nat),
    ensures
        forall|i: int| 0 <= i < p.len() ==> distance(adj, p[0], #[trigger] p[i]) == Some(i as nat),
        forall|i: int, j: int|
            0 <= i <= j < p.len() ==> distance(adj, p[0], p[i])->0 <= distance(adj, p[0], p[j])->0,
{
    let s = p[0];
    let t = p.last();
    let whole = (p.len() - 1) as nat;
    lemma_distance(adj, s, t);
    assert forall|i: int| 0 <= i < p.len() implies distance(adj, s, #[trigger] p[i]) == Some(
        i as nat,
    ) by {
        lemma_path_prefix(adj, p, i);
        assert(p.take(i + 1).len() == i + 1);
        assert(walk(adj, s, p[i], i as nat));
        lemma_path_suffix(adj, p, i);
        assert(p.skip(i).len() == whole - i + 1);
        assert(walk(adj, p[i], t, (whole - i) as nat));
        assert forall|k: nat| k < i implies !walk(adj, s, p[i], k) by {
            if walk(adj, s, p[i], k) {
                lemma_walk_concat(adj, s, p[i], t, k, (whole - i) as nat);
                assert(walk(adj, s, t, (k + whole - i) as nat));
            }
        }
        lemma_shortest_is_distance(adj, s, p[i], i as nat);
    }
}

} // verus!
