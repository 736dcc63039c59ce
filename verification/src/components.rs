//! The components that a traversal along outgoing edges finds.

use vstd::prelude::*;
use crate::graph::Graph;
use crate::graph::closed;
use crate::graph::distinct;
use crate::graph::label_views;
use crate::paths::has_edge;
use crate::paths::reachable;
use crate::paths::walk;
use crate::paths::lemma_walk_concat;
use crate::paths::lemma_walk_extend;
use crate::paths::lemma_walk_none;

verus! {

/// The number of entries of `visited` that are not set.
pub open spec fn unvisited(visited: Seq<bool>) -> nat
    decreases visited.len(),
{
    if visited.len() == 0 {
        0
    } else if visited.last() {
        unvisited(visited.drop_last())
    } else {
        unvisited(visited.drop_last()) + 1
    }
}

/// Setting an entry that was not set leaves one entry fewer that is not set.
pub proof fn lemma_mark_one(visited: Seq<bool>, v: int)
    requires
        0 <= v < visited.len(),
        !visited[v],
    ensures
        unvisited(visited.update(v, true)) + 1 == unvisited(visited),
    decreases visited.len(),
{
    let marked = visited.update(v, true);
    if v == visited.len() - 1 {
        assert(marked.drop_last() =~= visited.drop_last());
    } else {
        lemma_mark_one(visited.drop_last(), v);
        assert(marked.drop_last() =~= visited.drop_last().update(v, true));
    }
}

/// The targets in `row` that `visited` does not mark, in the order of `row`.
pub open spec fn fresh_targets(row: Seq<usize>, visited: Seq<bool>) -> Seq<usize>
    decreases row.len(),
{
    if row.len() == 0 {
        Seq::empty()
    } else {
        let rest = fresh_targets(row.drop_last(), visited);
        if visited[row.last() as int] {
            rest
        } else {
            rest.push(row.last())
        }
    }
}

/// The vertices that a traversal discovers, in the order in which it does,
/// when it goes on from the stack `stack` with the vertices of `visited`
/// already marked. The traversal takes the top of the stack; if that vertex
/// is not marked yet, it is discovered and marked, and those of its targets
/// that are not marked are put on the stack in the order of its adjacency
/// list.
pub open spec fn discovery(adj: Seq<Seq<usize>>, stack: Seq<usize>, visited: Seq<bool>) -> Seq<
    usize,
>
    decreases unvisited(visited), stack.len(),
{
    if stack.len() == 0 {
        Seq::empty()
    } else {
        let v = stack.last();
        let rest = stack.drop_last();
        if v < adj.len() && v < visited.len() && !visited[v as int] {
            let marked = visited.update(v as int, true);
            proof {
                lemma_mark_one(visited, v as int);
            }
            seq![v] + discovery(adj, rest + fresh_targets(adj[v as int], marked), marked)
        } else {
            discovery(adj, rest, visited)
        }
    }
}

/// `visited` with the vertices of `order` marked too.
pub open spec fn marked_by(visited: Seq<bool>, order: Seq<usize>) -> Seq<bool> {
    Seq::new(visited.len(), |v: int| visited[v] || order.contains(v as usize))
}

/// The components found from the vertices `start..`, in turn, when the
/// vertices of `visited` are already marked: each vertex that is not marked
/// when its turn comes starts a traversal, and what that traversal discovers
/// is a component.
pub open spec fn components_from(adj: Seq<Seq<usize>>, start: nat, visited: Seq<bool>) -> Seq<
    Seq<usize>,
>
    decreases adj.len() - start,
{
    if start >= adj.len() {
        Seq::empty()
    } else if start < visited.len() && !visited[start as int] {
        let found = discovery(adj, seq![start as usize], visited);
        seq![found] + components_from(adj, start + 1, marked_by(visited, found))
    } else {
        components_from(adj, start + 1, visited)
    }
}

/// The components of `adj`, in the order of their first vertices.
pub open spec fn components_of(adj: Seq<Seq<usize>>) -> Seq<Seq<usize>> {
    components_from(adj, 0, Seq::new(adj.len(), |v: int| false))
}

/// The lists of `parts` with each vertex replaced by its label.
pub open spec fn named(parts: Seq<Seq<usize>>, labels: Seq<Seq<char>>) -> Seq<Seq<Seq<char>>> {
    Seq::new(parts.len(), |k: int| Seq::new(parts[k].len(), |j: int| labels[parts[k][j] as int]))
}

/// The lists of `lists`, each label as its sequence of characters.
pub open spec fn label_lists(lists: Seq<Vec<String>>) -> Seq<Seq<Seq<char>>> {
    Seq::new(lists.len(), |k: int| label_views(lists[k]@))
}

/// The vertex `v` occurs in some list of `parts`.
pub open spec fn occurs(parts: Seq<Seq<usize>>, v: int) -> bool {
    exists|k: int, j: int|
        0 <= k < parts.len() && 0 <= j < parts[k].len() && #[trigger] parts[k][j] == v
}

/// The label `label` occurs in some list of `lists`.
pub open spec fn label_occurs(lists: Seq<Seq<Seq<char>>>, label: Seq<char>) -> bool {
    exists|k: int, j: int|
        0 <= k < lists.len() && 0 <= j < lists[k].len() && #[trigger] lists[k][j] == label
}

/// Every vertex below `n` occurs in `parts`, in one place only, and nothing
/// else does.
pub open spec fn partitions(parts: Seq<Seq<usize>>, n: nat) -> bool {
    &&& forall|k: int, j: int|
        0 <= k < parts.len() && 0 <= j < parts[k].len() ==> (#[trigger] parts[k][j]) < n
    &&& forall|v: int| 0 <= v < n ==> #[trigger] occurs(parts, v)
    &&& forall|k: int, j: int, k2: int, j2: int|
        0 <= k < parts.len() && 0 <= j < parts[k].len() && 0 <= k2 < parts.len() && 0 <= j2
            < parts[k2].len() && #[trigger] parts[k][j] == #[trigger] parts[k2][j2] ==> k == k2
            && j == j2
}

/// What `fresh_targets` keeps of a row: exactly its unmarked entries.
pub proof fn lemma_fresh_targets(row: Seq<usize>, visited: Seq<bool>)
    ensures
        forall|i: int|
            0 <= i < fresh_targets(row, visited).len() ==> row.contains(
                #[trigger] fresh_targets(row, visited)[i],
            ) && !visited[fresh_targets(row, visited)[i] as int],
        forall|k: int|
            0 <= k < row.len() && !visited[(#[trigger] row[k]) as int] ==> fresh_targets(
                row,
                visited,
            ).contains(row[k]),
    decreases row.len(),
{
    if row.len() > 0 {
        let shorter = row.drop_last();
        lemma_fresh_targets(shorter, visited);
        let kept = fresh_targets(row, visited);
        let rest = fresh_targets(shorter, visited);
        assert forall|i: int| 0 <= i < kept.len() implies row.contains(#[trigger] kept[i])
            && !visited[kept[i] as int] by {
            if i < rest.len() {
                assert(kept[i] == rest[i]);
                let k = choose|k: int| 0 <= k < shorter.len() && shorter[k] == rest[i];
                assert(row[k] == rest[i]);
            } else {
                assert(row[row.len() - 1] == kept[i]);
            }
        }
        assert forall|k: int| 0 <= k < row.len() && !visited[(#[trigger] row[k]) as int] implies kept.contains(
            row[k],
        ) by {
            if k < shorter.len() {
                assert(shorter[k] == row[k]);
                let i = choose|i: int| 0 <= i < rest.len() && rest[i] == row[k];
                assert(kept[i] == row[k]);
            } else {
                assert(kept[kept.len() - 1] == row[k]);
            }
        }
    }
}

/// What a traversal discovers: vertices that were not marked, each once; and
/// every vertex on its stack is marked before it or discovered by it.
pub proof fn lemma_discovery(adj: Seq<Seq<usize>>, stack: Seq<usize>, visited: Seq<bool>)
    requires
        closed(adj),
        visited.len() == adj.len(),
        forall|i: int| 0 <= i < stack.len() ==> (#[trigger] stack[i]) < adj.len(),
    ensures
        forall|j: int|
            0 <= j < discovery(adj, stack, visited).len() ==> (#[trigger] discovery(
                adj,
                stack,
                visited,
            )[j]) < adj.len() && !visited[discovery(adj, stack, visited)[j] as int],
        discovery(adj, stack, visited).no_duplicates(),
        forall|i: int|
            0 <= i < stack.len() ==> visited[(#[trigger] stack[i]) as int] || discovery(
                adj,
                stack,
                visited,
            ).contains(stack[i]),
    decreases unvisited(visited), stack.len(),
{
    let order = discovery(adj, stack, visited);
    if stack.len() > 0 {
        let v = stack.last();
        let rest = stack.drop_last();
        assert(stack[stack.len() - 1] == v);
        if !visited[v as int] {
            let marked = visited.update(v as int, true);
            let fresh = fresh_targets(adj[v as int], marked);
            let next = rest + fresh;
            let sub = discovery(adj, next, marked);
            lemma_mark_one(visited, v as int);
            lemma_fresh_targets(adj[v as int], marked);
            assert forall|i: int| 0 <= i < next.len() implies (#[trigger] next[i]) < adj.len() by {
                if i < rest.len() {
                    assert(next[i] == stack[i]);
                } else {
                    let t = fresh[i - rest.len()];
                    assert(adj[v as int].contains(t));
                    let k = choose|k: int| 0 <= k < adj[v as int].len() && adj[v as int][k] == t;
                    assert(adj[v as int][k] < adj.len());
                }
            }
            lemma_discovery(adj, next, marked);
            assert(order =~= seq![v] + sub);
            assert forall|j: int| 0 <= j < order.len() implies (#[trigger] order[j]) < adj.len()
                && !visited[order[j] as int] by {
                if j > 0 {
                    assert(order[j] == sub[j - 1]);
                }
            }
            assert forall|i: int, j: int| 0 <= i < order.len() && 0 <= j < order.len() && i
                != j implies order[i] != order[j] by {
                if i > 0 {
                    assert(order[i] == sub[i - 1]);
                }
                if j > 0 {
                    assert(order[j] == sub[j - 1]);
                }
            }
            assert forall|i: int| 0 <= i < stack.len() implies visited[(#[trigger] stack[i]) as int]
                || order.contains(stack[i]) by {
                if i == stack.len() - 1 {
                    assert(order[0] == v);
                } else {
                    assert(next[i] == stack[i]);
                    if sub.contains(stack[i]) {
                        let j = choose|j: int| 0 <= j < sub.len() && sub[j] == stack[i];
                        assert(order[j + 1] == stack[i]);
                    } else if stack[i] == v {
                        assert(order[0] == v);
                    }
                }
            }
        } else {
            lemma_discovery(adj, rest, visited);
            assert forall|i: int| 0 <= i < stack.len() implies visited[(#[trigger] stack[i]) as int]
                || order.contains(stack[i]) by {
                if i < stack.len() - 1 {
                    assert(rest[i] == stack[i]);
                }
            }
        }
    }
}

/// What the components found from `start` on hold: vertices that were not
/// marked, each in one place only; and every vertex from `start` on is marked
/// before or held by one of them.
pub proof fn lemma_components_from(adj: Seq<Seq<usize>>, start: nat, visited: Seq<bool>)
    requires
        closed(adj),
        adj.len() <= usize::MAX,
        visited.len() == adj.len(),
    ensures
        forall|k: int, j: int|
            0 <= k < components_from(adj, start, visited).len() && 0 <= j < components_from(
                adj,
                start,
                visited,
            )[k].len() ==> (#[trigger] components_from(adj, start, visited)[k][j]) < adj.len()
                && !visited[components_from(adj, start, visited)[k][j] as int],
        forall|k: int, j: int, k2: int, j2: int|
            0 <= k < components_from(adj, start, visited).len() && 0 <= j < components_from(
                adj,
                start,
                visited,
            )[k].len() && 0 <= k2 < components_from(adj, start, visited).len() && 0 <= j2
                < components_from(adj, start, visited)[k2].len() && #[trigger] components_from(
                adj,
                start,
                visited,
            )[k][j] == #[trigger] components_from(adj, start, visited)[k2][j2] ==> k == k2 && j
                == j2,
        forall|w: int|
            start <= w < adj.len() ==> (#[trigger] visited[w]) || exists|k: int, j: int|
                0 <= k < components_from(adj, start, visited).len() && 0 <= j < components_from(
                    adj,
                    start,
                    visited,
                )[k].len() && #[trigger] components_from(adj, start, visited)[k][j] == w,
    decreases adj.len() - start,
{
    let parts = components_from(adj, start, visited);
    if start < adj.len() {
        if !visited[start as int] {
            let found = discovery(adj, seq![start as usize], visited);
            let marked = marked_by(visited, found);
            let later = components_from(adj, start + 1, marked);
            lemma_discovery(adj, seq![start as usize], visited);
            lemma_components_from(adj, start + 1, marked);
            assert(parts =~= seq![found] + later);
            assert forall|k: int, j: int| 0 <= k < parts.len() && 0 <= j < parts[k].len() implies (
            #[trigger] parts[k][j]) < adj.len() && !visited[parts[k][j] as int] by {
                if k > 0 {
                    assert(parts[k] == later[k - 1]);
                    assert(!marked[later[k - 1][j] as int]);
                }
            }
            assert forall|k: int, j: int, k2: int, j2: int|
                0 <= k < parts.len() && 0 <= j < parts[k].len() && 0 <= k2 < parts.len() && 0 <= j2
                    < parts[k2].len() && #[trigger] parts[k][j] == #[trigger] parts[k2][j2] implies k
                == k2 && j == j2 by {
                if k > 0 {
                    assert(parts[k] == later[k - 1]);
                    assert(!marked[later[k - 1][j] as int]);
                }
                if k2 > 0 {
                    assert(parts[k2] == later[k2 - 1]);
                    assert(!marked[later[k2 - 1][j2] as int]);
                }
                if k == 0 && k2 > 0 {
                    assert(found.contains(found[j]));
                }
                if k2 == 0 && k > 0 {
                    assert(found.contains(found[j2]));
                }
            }
            assert forall|w: int| start <= w < adj.len() implies (#[trigger] visited[w])
                || exists|k: int, j: int|
                0 <= k < parts.len() && 0 <= j < parts[k].len() && #[trigger] parts[k][j] == w by {
                if !visited[w] {
                    if w == start {
                        assert(seq![start as usize][0] == start);
                        assert(found.contains(start as usize));
                    }
                    if found.contains(w as usize) {
                        let j = choose|j: int| 0 <= j < found.len() && found[j] == w as usize;
                        assert(parts[0][j] == w);
                    } else {
                        assert(!marked[w]);
                        let (k, j) = choose|k: int, j: int|
                            0 <= k < later.len() && 0 <= j < later[k].len() && #[trigger] later[k][j]
                                == w;
                        assert(parts[k + 1][j] == w);
                    }
                }
            }
        } else {
            lemma_components_from(adj, start + 1, visited);
            assert(parts == components_from(adj, start + 1, visited));
        }
    } else {
        assert(parts.len() == 0);
    }
}

/// The components of a graph hold every vertex, each in one place only.
pub proof fn lemma_components_partition(adj: Seq<Seq<usize>>)
    requires
        closed(adj),
        adj.len() <= usize::MAX,
    ensures
        partitions(components_of(adj), adj.len()),
{
    let clear = Seq::new(adj.len(), |v: int| false);
    lemma_components_from(adj, 0, clear);
    assert forall|v: int| 0 <= v < adj.len() implies #[trigger] occurs(components_of(adj), v) by {
        assert(!clear[v]);
    }
}

/// Where the vertices are partitioned and no two carry the same label, the
/// labels are partitioned too: every label occurs among the named parts, in
/// one place only.
pub proof fn lemma_named_partition(parts: Seq<Seq<usize>>, labels: Seq<Seq<char>>)
    requires
        partitions(parts, labels.len()),
        distinct(labels),
    ensures
        forall|v: int|
            0 <= v < labels.len() ==> label_occurs(named(parts, labels), #[trigger] labels[v]),
        forall|k: int, j: int, k2: int, j2: int|
            0 <= k < parts.len() && 0 <= j < parts[k].len() && 0 <= k2 < parts.len() && 0 <= j2
                < parts[k2].len() && #[trigger] named(parts, labels)[k][j] == #[trigger] named(
                parts,
                labels,
            )[k2][j2] ==> k == k2 && j == j2,
{
    assert forall|v: int| 0 <= v < labels.len() implies label_occurs(
        named(parts, labels),
        #[trigger] labels[v],
    ) by {
        assert(occurs(parts, v));
        let (k, j) = choose|k: int, j: int|
            0 <= k < parts.len() && 0 <= j < parts[k].len() && #[trigger] parts[k][j] == v;
        assert(named(parts, labels)[k][j] == labels[v]);
    }
    assert forall|k: int, j: int, k2: int, j2: int|
        0 <= k < parts.len() && 0 <= j < parts[k].len() && 0 <= k2 < parts.len() && 0 <= j2
            < parts[k2].len() && #[trigger] named(parts, labels)[k][j] == #[trigger] named(
            parts,
            labels,
        )[k2][j2] implies k == k2 && j == j2 by {
        assert(parts[k][j] < labels.len());
        assert(parts[k2][j2] < labels.len());
        assert(labels[parts[k][j] as int] == labels[parts[k2][j2] as int]);
    }
}

/// The vertex `w` occurs in one of the first `upto` lists of `parts`.
pub open spec fn occurs_before(parts: Seq<Seq<usize>>, w: int, upto: int) -> bool {
    exists|k: int, j: int|
        0 <= k < upto && k < parts.len() && 0 <= j < parts[k].len() && #[trigger] parts[k][j] == w
}

/// Some path leads to `w` from a vertex on `stack`.
pub open spec fn reached_from(adj: Seq<Seq<usize>>, stack: Seq<usize>, w: int) -> bool {
    exists|i: int| 0 <= i < stack.len() && reachable(adj, (#[trigger] stack[i]) as int, w)
}

/// A traversal discovers only what some path reaches from its stack, and it
/// leaves no edge behind: where an edge leads from a vertex it discovers, the
/// vertex at the other end was marked before or is discovered too.
pub proof fn lemma_discovery_reach(adj: Seq<Seq<usize>>, stack: Seq<usize>, visited: Seq<bool>)
    requires
        closed(adj),
        visited.len() == adj.len(),
        forall|i: int| 0 <= i < stack.len() ==> (#[trigger] stack[i]) < adj.len(),
    ensures
        forall|j: int|
            0 <= j < discovery(adj, stack, visited).len() ==> reached_from(
                adj,
                stack,
                (#[trigger] discovery(adj, stack, visited)[j]) as int,
            ),
        forall|j: int, e: int|
            0 <= j < discovery(adj, stack, visited).len() && 0 <= e < adj[discovery(
                adj,
                stack,
                visited,
            )[j] as int].len() ==> visited[(#[trigger] adj[discovery(
                adj,
                stack,
                visited,
            )[j] as int][e]) as int] || discovery(adj, stack, visited).contains(
                adj[discovery(adj, stack, visited)[j] as int][e],
            ),
    decreases unvisited(visited), stack.len(),
{
    let order = discovery(adj, stack, visited);
    lemma_discovery(adj, stack, visited);
    if stack.len() > 0 {
        let v = stack.last();
        let rest = stack.drop_last();
        assert(stack[stack.len() - 1] == v);
        if !visited[v as int] {
            let marked = visited.update(v as int, true);
            let fresh = fresh_targets(adj[v as int], marked);
            let next = rest + fresh;
            let sub = discovery(adj, next, marked);
            lemma_mark_one(visited, v as int);
            lemma_fresh_targets(adj[v as int], marked);
            assert forall|i: int| 0 <= i < next.len() implies (#[trigger] next[i]) < adj.len() by {
                if i < rest.len() {
                    assert(next[i] == stack[i]);
                } else {
                    let t = fresh[i - rest.len()];
                    assert(adj[v as int].contains(t));
                    let k = choose|k: int| 0 <= k < adj[v as int].len() && adj[v as int][k] == t;
                    assert(adj[v as int][k] < adj.len());
                }
            }
            lemma_discovery_reach(adj, next, marked);
            lemma_discovery(adj, next, marked);
            assert(order =~= seq![v] + sub);
            assert forall|j: int| 0 <= j < order.len() implies reached_from(
                adj,
                stack,
                (#[trigger] order[j]) as int,
            ) by {
                if j == 0 {
                    lemma_walk_none(adj, v as int);
                    assert(reachable(adj, stack[stack.len() - 1] as int, v as int));
                } else {
                    let w = sub[j - 1];
                    assert(order[j] == w);
                    assert(reached_from(adj, next, w as int));
                    let i = choose|i: int|
                        0 <= i < next.len() && reachable(adj, (#[trigger] next[i]) as int, w as int);
                    if i < rest.len() {
                        assert(next[i] == stack[i]);
                    } else {
                        let t = fresh[i - rest.len()];
                        assert(next[i] == t);
                        assert(adj[v as int].contains(t));
                        let k = choose|k: int|
                            0 <= k < adj[v as int].len() && adj[v as int][k] == t;
                        assert(has_edge(adj, v as int, t as int));
                        lemma_walk_none(adj, v as int);
                        lemma_walk_extend(adj, v as int, v as int, t as int, 0);
                        let d = choose|d: nat| walk(adj, t as int, w as int, d);
                        lemma_walk_concat(adj, v as int, t as int, w as int, 1, d);
                        assert(reachable(adj, stack[stack.len() - 1] as int, w as int));
                    }
                }
            }
            assert forall|j: int, e: int|
                0 <= j < order.len() && 0 <= e < adj[order[j] as int].len() implies visited[(
            #[trigger] adj[order[j] as int][e]) as int] || order.contains(
                adj[order[j] as int][e],
            ) by {
                let w = adj[order[j] as int][e];
                assert(w < adj.len());
                if j == 0 {
                    if !marked[w as int] {
                        assert(fresh.contains(adj[v as int][e]));
                        let i = choose|i: int| 0 <= i < fresh.len() && fresh[i] == w;
                        assert(next[rest.len() + i] == w);
                        assert(marked[w as int] || sub.contains(w));
                    }
                } else {
                    assert(order[j] == sub[j - 1]);
                    assert(marked[(adj[sub[j - 1] as int][e]) as int] || sub.contains(
                        adj[sub[j - 1] as int][e],
                    ));
                }
                if sub.contains(w) {
                    let i = choose|i: int| 0 <= i < sub.len() && sub[i] == w;
                    assert(order[i + 1] == w);
                } else if w == v {
                    assert(order[0] == v);
                }
            }
        } else {
            lemma_discovery_reach(adj, rest, visited);
            assert(order == discovery(adj, rest, visited));
            assert forall|j: int| 0 <= j < order.len() implies reached_from(
                adj,
                stack,
                (#[trigger] order[j]) as int,
            ) by {
                assert(reached_from(adj, rest, order[j] as int));
                let i = choose|i: int|
                    0 <= i < rest.len() && reachable(
                        adj,
                        (#[trigger] rest[i]) as int,
                        order[j] as int,
                    );
                assert(stack[i] == rest[i]);
            }
        }
    }
}

/// How the components found from `start` on lie in the graph. Each begins
/// with the vertex that started it, which is the least that was not marked
/// and that no earlier component holds. Some path leads from that vertex to
/// every vertex of the component. And no edge leaves a component but to a
/// vertex that was marked or that this or an earlier component holds.
pub proof fn lemma_components_shape(adj: Seq<Seq<usize>>, start: nat, visited: Seq<bool>)
    requires
        closed(adj),
        adj.len() <= usize::MAX,
        visited.len() == adj.len(),
    ensures
        forall|k: int|
            0 <= k < components_from(adj, start, visited).len() ==> (#[trigger] components_from(
                adj,
                start,
                visited,
            )[k]).len() > 0 && start <= components_from(adj, start, visited)[k][0],
        forall|k: int, v: int|
            0 <= k < components_from(adj, start, visited).len() && start <= v < components_from(
                adj,
                start,
                visited,
            )[k][0] ==> visited[v] || #[trigger] occurs_before(
                components_from(adj, start, visited),
                v,
                k,
            ),
        forall|k: int, j: int|
            0 <= k < components_from(adj, start, visited).len() && 0 <= j < components_from(
                adj,
                start,
                visited,
            )[k].len() ==> reachable(
                adj,
                components_from(adj, start, visited)[k][0] as int,
                (#[trigger] components_from(adj, start, visited)[k][j]) as int,
            ),
        forall|k: int, j: int, e: int|
            0 <= k < components_from(adj, start, visited).len() && 0 <= j < components_from(
                adj,
                start,
                visited,
            )[k].len() && 0 <= e < adj[components_from(adj, start, visited)[k][j] as int].len()
                ==> visited[(#[trigger] adj[components_from(
                adj,
                start,
                visited,
            )[k][j] as int][e]) as int] || occurs_before(
                components_from(adj, start, visited),
                adj[components_from(adj, start, visited)[k][j] as int][e] as int,
                k + 1,
            ),
    decreases adj.len() - start,
{
    let parts = components_from(adj, start, visited);
    if start < adj.len() {
        if !visited[start as int] {
            let seed = seq![start as usize];
            let found = discovery(adj, seed, visited);
            let marked = marked_by(visited, found);
            let later = components_from(adj, start + 1, marked);
            assert(seed[0] == start);
            lemma_discovery(adj, seed, visited);
            lemma_discovery_reach(adj, seed, visited);
            lemma_components_shape(adj, start + 1, marked);
            lemma_components_from(adj, start + 1, marked);
            assert(parts =~= seq![found] + later);
            assert(seed.drop_last() =~= Seq::<usize>::empty());
            assert(found[0] == start);
            assert forall|k: int| 0 <= k < parts.len() implies (#[trigger] parts[k]).len() > 0
                && start <= parts[k][0] by {
                if k > 0 {
                    assert(parts[k] == later[k - 1]);
                }
            }
            assert forall|k: int, v: int|
                0 <= k < parts.len() && start <= v < parts[k][0] implies visited[v]
                || #[trigger] occurs_before(parts, v, k) by {
                if k > 0 {
                    assert(parts[k] == later[k - 1]);
                    if v == start {
                        assert(parts[0][0] == v);
                    } else if marked[v] {
                        if !visited[v] {
                            let j = choose|j: int| 0 <= j < found.len() && found[j] == v as usize;
                            assert(parts[0][j] == v);
                        }
                    } else {
                        assert(occurs_before(later, v, k - 1));
                        let (k2, j2) = choose|k2: int, j2: int|
                            0 <= k2 < k - 1 && k2 < later.len() && 0 <= j2 < later[k2].len()
                                && #[trigger] later[k2][j2] == v;
                        assert(parts[k2 + 1][j2] == v);
                    }
                }
            }
            assert forall|k: int, j: int|
                0 <= k < parts.len() && 0 <= j < parts[k].len() implies reachable(
                adj,
                parts[k][0] as int,
                (#[trigger] parts[k][j]) as int,
            ) by {
                if k > 0 {
                    assert(parts[k] == later[k - 1]);
                    assert(reachable(adj, later[k - 1][0] as int, later[k - 1][j] as int));
                } else {
                    assert(reached_from(adj, seed, found[j] as int));
                }
            }
            assert forall|k: int, j: int, e: int|
                0 <= k < parts.len() && 0 <= j < parts[k].len() && 0 <= e
                    < adj[parts[k][j] as int].len() implies visited[(
            #[trigger] adj[parts[k][j] as int][e]) as int] || occurs_before(
                parts,
                adj[parts[k][j] as int][e] as int,
                k + 1,
            ) by {
                let w = adj[parts[k][j] as int][e];
                if k > 0 {
                    assert(parts[k] == later[k - 1]);
                    assert(marked[(adj[later[k - 1][j] as int][e]) as int] || occurs_before(
                        later,
                        adj[later[k - 1][j] as int][e] as int,
                        k,
                    ));
                    if !marked[w as int] {
                        let (k2, j2) = choose|k2: int, j2: int|
                            0 <= k2 < k && k2 < later.len() && 0 <= j2 < later[k2].len()
                                && #[trigger] later[k2][j2] == w;
                        assert(parts[k2 + 1][j2] == w);
                    }
                } else {
                    assert(visited[(adj[found[j] as int][e]) as int] || found.contains(
                        adj[found[j] as int][e],
                    ));
                }
                assert(w < adj.len());
                if !visited[w as int] && found.contains(w) {
                    let j2 = choose|j2: int| 0 <= j2 < found.len() && found[j2] == w;
                    assert(parts[0][j2] == w);
                }
            }
        } else {
            lemma_components_shape(adj, start + 1, visited);
            assert(parts == components_from(adj, start + 1, visited));
        }
    } else {
        assert(parts.len() == 0);
    }
}

/// How the components of a graph lie in it. Each begins with the least
/// vertex that no earlier component holds; some path leads from that vertex
/// to every vertex of the component; and every edge from a vertex of a
/// component ends in that component or an earlier one.
pub proof fn lemma_components_reach(adj: Seq<Seq<usize>>)
    requires
        closed(adj),
        adj.len() <= usize::MAX,
    ensures
        forall|k: int|
            0 <= k < components_of(adj).len() ==> (#[trigger] components_of(adj)[k]).len() > 0,
        forall|k: int, v: int|
            0 <= k < components_of(adj).len() && 0 <= v < components_of(adj)[k][0]
                ==> #[trigger] occurs_before(components_of(adj), v, k),
        forall|k: int, j: int|
            0 <= k < components_of(adj).len() && 0 <= j < components_of(adj)[k].len() ==> reachable(
                adj,
                components_of(adj)[k][0] as int,
                (#[trigger] components_of(adj)[k][j]) as int,
            ),
        forall|k: int, j: int, e: int|
            0 <= k < components_of(adj).len() && 0 <= j < components_of(adj)[k].len() && 0 <= e
                < adj[components_of(adj)[k][j] as int].len() ==> occurs_before(
                components_of(adj),
                (#[trigger] adj[components_of(adj)[k][j] as int][e]) as int,
                k + 1,
            ),
{
    let clear = Seq::new(adj.len(), |v: int| false);
    let parts = components_of(adj);
    lemma_components_shape(adj, 0, clear);
    lemma_components_from(adj, 0, clear);
    assert forall|k: int, v: int|
        0 <= k < parts.len() && 0 <= v < parts[k][0] implies #[trigger] occurs_before(
        parts,
        v,
        k,
    ) by {
        assert(parts[k][0] < adj.len());
        assert(!clear[v]);
    }
    assert forall|k: int, j: int, e: int|
        0 <= k < parts.len() && 0 <= j < parts[k].len() && 0 <= e
            < adj[parts[k][j] as int].len() implies occurs_before(
        parts,
        (#[trigger] adj[parts[k][j] as int][e]) as int,
        k + 1,
    ) by {
        assert(parts[k][j] < adj.len());
        let w = adj[parts[k][j] as int][e];
        assert(w < adj.len());
        assert(!clear[w as int]);
    }
}

impl Graph {
    /// The components of the graph, each as the labels of its vertices.
    ///
    /// The vertices are tried in ascending order; one that no earlier
    /// component holds starts a new component, which takes every vertex that
    /// a traversal along outgoing edges discovers from it and that no earlier
    /// component holds, in the order of discovery.
    pub fn connected_components(&self) -> (components: Vec<Vec<String>>)
        requires
            self.well_formed(),
        ensures
            label_lists(components@) == named(components_of(self@.adj), self@.labels),
            partitions(components_of(self@.adj), self.n as nat),
    {
        let n = self.n;
        let ghost adj = self@.adj;
        let ghost labels = self@.labels;
        let mut visited: Vec<bool> = Vec::new();
        let mut v: usize = 0;
        while v < n
            invariant
                v <= n,
                visited@.len() == v,
                forall|w: int| 0 <= w < v ==> !(#[trigger] visited@[w]),
            decreases n - v,
        {
            visited.push(false);
            v += 1;
        }
        assert(visited@ =~= Seq::new(adj.len(), |v: int| false));
        let mut components: Vec<Vec<String>> = Vec::new();
        let ghost mut parts: Seq<Seq<usize>> = Seq::empty();
        let mut start: usize = 0;
        while start < n
            invariant
                start <= n,
                n == self.n,
                self.well_formed(),
                adj == self@.adj,
                labels == self@.labels,
                visited@.len() == n,
                parts + components_from(adj, start as nat, visited@) == components_of(adj),
                components@.len() == parts.len(),
                label_lists(components@) == named(parts, labels),
            decreases n - start,
        {
            if !visited[start] {
                let mut component: Vec<String> = Vec::new();
                let mut stack: Vec<usize> = Vec::new();
                stack.push(start);
                let ghost before = visited@;
                let ghost whole = discovery(adj, seq![start], before);
                let ghost mut order: Seq<usize> = Seq::empty();
                proof {
                    assert(stack@ =~= seq![start]);
                    assert(visited@ =~= marked_by(before, order));
                    assert(order + discovery(adj, stack@, visited@) =~= whole);
                }
                while stack.len() > 0
                    invariant
                        n == self.n,
                        self.well_formed(),
                        adj == self@.adj,
                        labels == self@.labels,
                        visited@.len() == n,
                        order + discovery(adj, stack@, visited@) == whole,
                        visited@ == marked_by(before, order),
                        component@.len() == order.len(),
                        label_views(component@) == Seq::new(
                            order.len(),
                            |j: int| labels[order[j] as int],
                        ),
                        forall|i: int| 0 <= i < stack@.len() ==> (#[trigger] stack@[i]) < n,
                    decreases unvisited(visited@), stack@.len(),
                {
                    let ghost pending = stack@;
                    let ghost marks = visited@;
                    let vertex = stack.pop().unwrap();
                    proof {
                        assert(pending.last() == vertex);
                        assert(pending.drop_last() =~= stack@);
                    }
                    if !visited[vertex] {
                        visited[vertex] = true;
                        let ghost named_so_far = label_views(component@);
                        component.push(self.vertex_labels[vertex].clone());
                        let row = &self.outedges[vertex];
                        let ghost rest = stack@;
                        proof {
                            lemma_mark_one(marks, vertex as int);
                            assert(row@ == adj[vertex as int]);
                            assert(rest + fresh_targets(row@.take(0), visited@) =~= rest);
                        }
                        let mut k: usize = 0;
                        while k < row.len()
                            invariant
                                k <= row.len(),
                                n == self.n,
                                self.well_formed(),
                                adj == self@.adj,
                                vertex < n,
                                row@ == adj[vertex as int],
                                visited@.len() == n,
                                stack@ == rest + fresh_targets(row@.take(k as int), visited@),
                                forall|i: int| 0 <= i < stack@.len() ==> (#[trigger] stack@[i]) < n,
                            decreases row.len() - k,
                        {
                            let neighbor = row[k];
                            proof {
                                assert(adj[vertex as int][k as int] < adj.len());
                                assert(row@.take(k + 1).drop_last() =~= row@.take(k as int));
                                assert(row@.take(k + 1).last() == neighbor);
                            }
                            if !visited[neighbor] {
                                stack.push(neighbor);
                            }
                            proof {
                                let grown = fresh_targets(row@.take(k + 1), visited@);
                                let so_far = fresh_targets(row@.take(k as int), visited@);
                                if !visited@[neighbor as int] {
                                    assert(rest + so_far.push(neighbor) =~= (rest + so_far).push(
                                        neighbor,
                                    ));
                                }
                            }
                            k += 1;
                        }
                        proof {
                            assert(row@.take(k as int) =~= row@);
                            let longer = order.push(vertex);
                            assert(visited@ =~= marked_by(before, longer)) by {
                                assert forall|w: int| 0 <= w < n implies visited@[w] == (before[w]
                                    || longer.contains(w as usize)) by {
                                    if w == vertex {
                                        assert(longer[order.len() as int] == vertex);
                                    } else if order.contains(w as usize) {
                                        let j = choose|j: int|
                                            0 <= j < order.len() && order[j] == w as usize;
                                        assert(longer[j] == w as usize);
                                    } else if longer.contains(w as usize) {
                                        let j = choose|j: int|
                                            0 <= j < longer.len() && longer[j] == w as usize;
                                        assert(order[j] == w as usize);
                                    }
                                }
                            }
                            assert(longer + discovery(adj, stack@, visited@) =~= order + (
                            seq![vertex] + discovery(adj, stack@, visited@)));
                            assert(label_views(component@) =~= Seq::new(
                                longer.len(),
                                |j: int| labels[longer[j] as int],
                            )) by {
                                assert forall|j: int| 0 <= j < longer.len() implies label_views(
                                    component@,
                                )[j] == labels[longer[j] as int] by {
                                    if j < order.len() {
                                        assert(label_views(component@)[j] == named_so_far[j]);
                                    }
                                }
                            }
                            order = longer;
                        }
                    }
                }
                proof {
                    assert(order + discovery(adj, stack@, visited@) =~= order);
                    let grown = parts.push(order);
                    assert(grown + components_from(adj, (start + 1) as nat, visited@) =~= parts + (
                    seq![order] + components_from(adj, (start + 1) as nat, visited@)));
                    parts = grown;
                }
                let ghost listed = label_lists(components@);
                components.push(component);
                proof {
                    assert(label_lists(components@) =~= named(parts, labels)) by {
                        assert forall|k: int| 0 <= k < parts.len() implies label_lists(
                            components@,
                        )[k] == named(parts, labels)[k] by {
                            if k < parts.len() - 1 {
                                assert(label_lists(components@)[k] == listed[k]);
                                assert(named(parts, labels)[k] =~= named(
                                    parts.drop_last(),
                                    labels,
                                )[k]);
                            } else {
                                assert(named(parts, labels)[k] =~= label_views(component@));
                            }
                        }
                    }
                }
            }
            start += 1;
        }
        proof {
            assert(parts + components_from(adj, start as nat, visited@) =~= parts);
            lemma_components_partition(adj);
        }
        components
    }
}

} // verus!
