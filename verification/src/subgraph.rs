//! The subgraph that a list of labels induces.

use vstd::prelude::*;
use crate::graph::Graph;
use crate::graph::GraphModel;
use crate::graph::closed;
use crate::graph::distinct;
use crate::graph::inverse_of;
use crate::graph::label_table;
use crate::graph::label_views;
use crate::graph::lemma_inverse_index_of;
use crate::paths::has_edge;

verus! {

/// Of the targets in `row`, those whose label is among `kept`, each given as
/// the place of its label in `kept`, in the order of `row`.
pub open spec fn kept_targets(row: Seq<usize>, labels: Seq<Seq<char>>, kept: Seq<Seq<char>>) -> Seq<
    usize,
>
    decreases row.len(),
{
    if row.len() == 0 {
        Seq::empty()
    } else {
        let rest = kept_targets(row.drop_last(), labels, kept);
        let name = labels[row.last() as int];
        if kept.contains(name) {
            rest.push(kept.index_of(name) as usize)
        } else {
            rest
        }
    }
}

/// Every label of `members` is a label of `labels`.
pub open spec fn all_known(members: Seq<Seq<char>>, labels: Seq<Seq<char>>) -> bool {
    forall|j: int| 0 <= j < members.len() ==> labels.contains(#[trigger] members[j])
}

/// `sub` is the graph that the labels of `sub` induce in `g`: each of its
/// vertices has the edges of the vertex of `g` with the same label, as far as
/// they end at a vertex whose label `sub` has too.
pub open spec fn induces(g: GraphModel, sub: GraphModel) -> bool {
    &&& sub.adj.len() == sub.labels.len()
    &&& forall|k: int|
        0 <= k < sub.adj.len() ==> #[trigger] sub.adj[k] == kept_targets(
            g.adj[g.labels.index_of(sub.labels[k])],
            g.labels,
            sub.labels,
        )
}

/// What `kept_targets` keeps of a row: each entry is the place in `kept` of
/// the label of some target in the row, and every target in the row whose
/// label is in `kept` has an entry.
pub proof fn lemma_kept_targets(row: Seq<usize>, labels: Seq<Seq<char>>, kept: Seq<Seq<char>>)
    requires
        kept.len() <= usize::MAX,
    ensures
        forall|i: int|
            0 <= i < kept_targets(row, labels, kept).len() ==> (#[trigger] kept_targets(
                row,
                labels,
                kept,
            )[i]) < kept.len() && exists|k: int|
                0 <= k < row.len() && labels[(#[trigger] row[k]) as int] == kept[kept_targets(
                    row,
                    labels,
                    kept,
                )[i] as int],
        forall|k: int|
            0 <= k < row.len() && kept.contains(labels[(#[trigger] row[k]) as int])
                ==> kept_targets(row, labels, kept).contains(
                kept.index_of(labels[row[k] as int]) as usize,
            ),
    decreases row.len(),
{
    if row.len() > 0 {
        let shorter = row.drop_last();
        lemma_kept_targets(shorter, labels, kept);
        let rest = kept_targets(shorter, labels, kept);
        let all = kept_targets(row, labels, kept);
        let name = labels[row.last() as int];
        assert forall|i: int| 0 <= i < all.len() implies (#[trigger] all[i]) < kept.len()
            && exists|k: int|
            0 <= k < row.len() && labels[(#[trigger] row[k]) as int] == kept[all[i] as int] by {
            if i < rest.len() {
                assert(all[i] == rest[i]);
                let k = choose|k: int|
                    0 <= k < shorter.len() && labels[(#[trigger] shorter[k]) as int]
                        == kept[rest[i] as int];
                assert(row[k] == shorter[k]);
            } else {
                assert(kept.contains(name));
                let place = kept.index_of(name);
                assert(0 <= place < kept.len() && kept[place] == name);
                assert(all[i] == place as usize);
                assert(labels[row[row.len() - 1] as int] == kept[all[i] as int]);
            }
        }
        assert forall|k: int|
            0 <= k < row.len() && kept.contains(
                labels[(#[trigger] row[k]) as int],
            ) implies all.contains(kept.index_of(labels[row[k] as int]) as usize) by {
            let place = kept.index_of(labels[row[k] as int]) as usize;
            if k < shorter.len() {
                assert(shorter[k] == row[k]);
                assert(rest.contains(place));
                let i = choose|i: int| 0 <= i < rest.len() && rest[i] == place;
                assert(all[i] == place);
            } else {
                assert(all[all.len() - 1] == place);
            }
        }
    }
}

/// An induced subgraph has exactly the edges of the graph that lead from one
/// of its vertices to another: vertex `a` of `sub` has an edge to vertex `b`
/// of `sub` if and only if, in `g`, the vertex labelled like `a` has an edge
/// to the vertex labelled like `b`.
pub proof fn lemma_induced_edges(g: GraphModel, sub: GraphModel, a: int, b: int)
    requires
        g.adj.len() == g.labels.len(),
        closed(g.adj),
        distinct(g.labels),
        distinct(sub.labels),
        all_known(sub.labels, g.labels),
        sub.labels.len() <= usize::MAX,
        induces(g, sub),
        0 <= a < sub.labels.len(),
        0 <= b < sub.labels.len(),
    ensures
        has_edge(sub.adj, a, b) <==> has_edge(
            g.adj,
            g.labels.index_of(sub.labels[a]),
            g.labels.index_of(sub.labels[b]),
        ),
{
    let from = g.labels.index_of(sub.labels[a]);
    let to = g.labels.index_of(sub.labels[b]);
    assert(g.labels.contains(sub.labels[a]));
    assert(g.labels.contains(sub.labels[b]));
    assert(g.labels[from] == sub.labels[a]);
    assert(g.labels[to] == sub.labels[b]);
    let row = g.adj[from];
    let kept = kept_targets(row, g.labels, sub.labels);
    assert(sub.adj[a] == kept);
    lemma_kept_targets(row, g.labels, sub.labels);
    if has_edge(sub.adj, a, b) {
        let i = choose|i: int| 0 <= i < sub.adj[a].len() && #[trigger] sub.adj[a][i] == b;
        assert(kept[i] == b);
        let k = choose|k: int|
            0 <= k < row.len() && g.labels[(#[trigger] row[k]) as int] == sub.labels[kept[i] as int];
        assert(g.adj[from][k] < g.adj.len());
        assert(row[k] == to);
        assert(has_edge(g.adj, from, to));
    }
    if has_edge(g.adj, from, to) {
        let k = choose|k: int| 0 <= k < g.adj[from].len() && #[trigger] g.adj[from][k] == to;
        assert(row[k] == to);
        assert(sub.labels.contains(sub.labels[b]));
        let place = sub.labels.index_of(sub.labels[b]);
        assert(sub.labels[place] == sub.labels[b]);
        assert(place == b);
        assert(kept.contains(b as usize));
        let i = choose|i: int| 0 <= i < kept.len() && kept[i] == b as usize;
        assert(sub.adj[a][i] == b);
        assert(has_edge(sub.adj, a, b));
    }
}

impl Graph {
    /// The graph induced by `component`: vertex `k` of the result carries the
    /// label `component[k]`, and its edges are those edges of the vertex with
    /// that label in `self` which end at a vertex whose label is in
    /// `component` too.
    pub fn create_subgraph(&self, component: &[String]) -> (sub: Graph)
        requires
            self.well_formed(),
            self.well_labeled(),
            distinct(label_views(component@)),
            all_known(label_views(component@), self@.labels),
        ensures
            sub.well_formed(),
            sub.well_labeled(),
            sub.n == component@.len(),
            sub@.labels == label_views(component@),
            induces(self@, sub@),
    {
        let size = component.len();
        let subgraph_indices = label_table(component);
        let ghost kept = label_views(component@);
        let ghost labels = self@.labels;
        let mut subgraph_labels: Vec<String> = Vec::new();
        let mut subgraph_outedges: Vec<Vec<usize>> = Vec::new();
        let mut k: usize = 0;
        while k < size
            invariant
                k <= size,
                size == component@.len(),
                kept == label_views(component@),
                labels == self@.labels,
                self.well_formed(),
                self.well_labeled(),
                all_known(kept, labels),
                inverse_of(subgraph_indices@, kept),
                subgraph_labels@.len() == k,
                subgraph_outedges@.len() == k,
                forall|j: int| 0 <= j < k ==> (#[trigger] subgraph_labels@[j])@ == kept[j],
                forall|j: int|
                    0 <= j < k ==> (#[trigger] subgraph_outedges@[j])@ == kept_targets(
                        self@.adj[labels.index_of(kept[j])],
                        labels,
                        kept,
                    ),
                forall|j: int, i: int|
                    0 <= j < k && 0 <= i < subgraph_outedges@[j]@.len() ==> (
                    #[trigger] subgraph_outedges@[j]@[i]) < size,
            decreases size - k,
        {
            proof {
                assert(labels.contains(kept[k as int]));
                lemma_inverse_index_of(self.vertex_indices@, labels, component@[k as int]@);
            }
            let parent_index = *self.vertex_indices.get(component[k].as_str()).unwrap();
            let row = &self.outedges[parent_index];
            let ghost targets = self@.adj[parent_index as int];
            assert(targets == row@);
            let mut edges: Vec<usize> = Vec::new();
            let mut i: usize = 0;
            while i < row.len()
                invariant
                    i <= row.len(),
                    row@ == targets,
                    targets == self@.adj[parent_index as int],
                    parent_index < self.n,
                    size == component@.len(),
                    kept == label_views(component@),
                    labels == self@.labels,
                    self.well_formed(),
                    inverse_of(subgraph_indices@, kept),
                    edges@ == kept_targets(targets.take(i as int), labels, kept),
                    forall|t: int| 0 <= t < edges@.len() ==> (#[trigger] edges@[t]) < size,
                decreases row.len() - i,
            {
                let neighbor_index = row[i];
                assert(neighbor_index < self.n) by {
                    assert(self@.adj[parent_index as int][i as int] < self@.adj.len());
                }
                let neighbor_label = &self.vertex_labels[neighbor_index];
                proof {
                    assert(neighbor_label@ == labels[neighbor_index as int]);
                    lemma_inverse_index_of(subgraph_indices@, kept, neighbor_label@);
                    assert(targets.take(i + 1).drop_last() =~= targets.take(i as int));
                    assert(targets.take(i + 1).last() == neighbor_index);
                }
                match subgraph_indices.get(neighbor_label.as_str()) {
                    Some(place) => {
                        edges.push(*place);
                    },
                    None => {},
                }
                i += 1;
            }
            proof {
                assert(targets.take(i as int) =~= targets);
            }
            subgraph_outedges.push(edges);
            subgraph_labels.push(component[k].clone());
            k += 1;
        }
        let sub = Graph {
            n: size,
            outedges: subgraph_outedges,
            vertex_labels: subgraph_labels,
            vertex_indices: subgraph_indices,
        };
        proof {
            assert(sub@.labels =~= kept);
            assert forall|j: int| 0 <= j < sub.n implies #[trigger] sub@.adj[j] == kept_targets(
                self@.adj[self@.labels.index_of(sub@.labels[j])],
                self@.labels,
                sub@.labels,
            ) by {
                assert(sub@.adj[j] == sub.outedges@[j]@);
            }
        }
        sub
    }
}

} // verus!
