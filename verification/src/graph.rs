//! The graph itself: its fields, its mathematical model and the operations
//! that build it.

use vstd::prelude::*;
use vstd::hash_map::StringHashMap;
use crate::decimal::decimal;
use crate::decimal::decimal_label;
use crate::decimal::lemma_decimal_injective;

verus! {

/// A vertex, as its number.
pub type Vertex = usize;

/// Edges, each as its source and its target.
pub type ListOfEdges = Vec<(Vertex, Vertex)>;

/// For each vertex the targets of the edges that leave it.
pub type AdjacencyLists = Vec<Vec<Vertex>>;

/// What a graph is, mathematically: the label of each vertex and, for each
/// vertex, the targets of its outgoing edges in the order they were added.
pub struct GraphModel {
    pub labels: Seq<Seq<char>>,
    pub adj: Seq<Seq<usize>>,
}

/// A directed graph over the vertices `0..n`.
pub struct Graph {
    /// Number of vertices.
    pub n: usize,
    /// `outedges[u]` lists the targets of the edges that leave `u`.
    pub outedges: AdjacencyLists,
    /// `vertex_labels[u]` is the label of vertex `u`.
    pub vertex_labels: Vec<String>,
    /// The vertex that carries a given label.
    pub vertex_indices: StringHashMap<usize>,
}

impl View for Graph {
    type V = GraphModel;

    open spec fn view(&self) -> GraphModel {
        GraphModel {
            labels: label_views(self.vertex_labels@),
            adj: Seq::new(self.outedges@.len(), |i: int| self.outedges@[i]@),
        }
    }
}

/// Every edge of `adj` ends at a vertex of `adj`.
pub open spec fn closed(adj: Seq<Seq<usize>>) -> bool {
    forall|u: int, k: int|
        0 <= u < adj.len() && 0 <= k < adj[u].len() ==> (#[trigger] adj[u][k]) < adj.len()
}

/// `index` is exactly the inverse of `labels`.
pub open spec fn inverse_of(index: Map<Seq<char>, usize>, labels: Seq<Seq<char>>) -> bool {
    &&& forall|i: int|
        0 <= i < labels.len() ==> index.contains_key(#[trigger] labels[i]) && index[labels[i]] == i
    &&& forall|key: Seq<char>| #[trigger]
        index.contains_key(key) ==> index[key] < labels.len() && labels[index[key] as int] == key
}

/// The labels of `names`, each as its sequence of characters.
pub open spec fn label_views(names: Seq<String>) -> Seq<Seq<char>> {
    Seq::new(names.len(), |i: int| names[i]@)
}

/// No label occurs twice in `labels`.
pub open spec fn distinct(labels: Seq<Seq<char>>) -> bool {
    forall|i: int, j: int|
        0 <= i < labels.len() && 0 <= j < labels.len() && #[trigger] labels[i] == #[trigger] labels[j]
            ==> i == j
}

/// The edges of `edges` with each end given as its sequence of characters.
pub open spec fn edge_names(edges: Seq<(String, String)>) -> Seq<(Seq<char>, Seq<char>)> {
    Seq::new(edges.len(), |j: int| (edges[j].0@, edges[j].1@))
}

/// Both ends of every edge of `edges` are labels of `labels`.
pub open spec fn ends_known(edges: Seq<(Seq<char>, Seq<char>)>, labels: Seq<Seq<char>>) -> bool {
    forall|j: int|
        0 <= j < edges.len() ==> labels.contains((#[trigger] edges[j]).0) && labels.contains(
            edges[j].1,
        )
}

/// The edges of `edges` with each end replaced by the place of its label in
/// `labels`.
pub open spec fn resolved(edges: Seq<(Seq<char>, Seq<char>)>, labels: Seq<Seq<char>>) -> Seq<
    (usize, usize),
> {
    Seq::new(
        edges.len(),
        |j: int| (labels.index_of(edges[j].0) as usize, labels.index_of(edges[j].1) as usize),
    )
}

/// `row` is in ascending order.
pub open spec fn ascending(row: Seq<usize>) -> bool {
    forall|i: int, j: int| 0 <= i <= j < row.len() ==> row[i] <= row[j]
}

/// The targets, in order, of those edges of `edges` that leave `u` and have
/// both ends below `n`.
pub open spec fn targets_from(edges: Seq<(usize, usize)>, u: int, n: int) -> Seq<usize>
    decreases edges.len(),
{
    if edges.len() == 0 {
        Seq::empty()
    } else {
        let rest = targets_from(edges.drop_last(), u, n);
        let e = edges.last();
        if e.0 == u && e.0 < n && e.1 < n {
            rest.push(e.1)
        } else {
            rest
        }
    }
}

/// Merges two lists in ascending order into one.
fn merge_ascending(left: &Vec<usize>, right: &Vec<usize>) -> (merged: Vec<usize>)
    requires
        ascending(left@),
        ascending(right@),
    ensures
        ascending(merged@),
        merged@.to_multiset() == left@.to_multiset().add(right@.to_multiset()),
{
    let mut merged: Vec<usize> = Vec::new();
    let mut i: usize = 0;
    let mut j: usize = 0;
    proof {
        assert(left@.take(0) =~= merged@);
        assert(right@.take(0) =~= merged@);
        vstd::seq_lib::to_multiset_len(merged@);
        assert(merged@.to_multiset() =~= vstd::multiset::Multiset::<usize>::empty()) by {
            broadcast use vstd::multiset::group_multiset_axioms;

        }
        assert(merged@.to_multiset() =~= merged@.to_multiset().add(merged@.to_multiset()));
    }
    while i < left.len() || j < right.len()
        invariant
            i <= left@.len(),
            j <= right@.len(),
            ascending(left@),
            ascending(right@),
            ascending(merged@),
            forall|m: int, k: int|
                0 <= m < merged@.len() && i <= k < left@.len() ==> #[trigger] merged@[m]
                    <= #[trigger] left@[k],
            forall|m: int, k: int|
                0 <= m < merged@.len() && j <= k < right@.len() ==> #[trigger] merged@[m]
                    <= #[trigger] right@[k],
            merged@.to_multiset() == left@.take(i as int).to_multiset().add(
                right@.take(j as int).to_multiset(),
            ),
        decreases left@.len() - i + right@.len() - j,
    {
        let ghost before = merged@;
        let from_left = if j >= right.len() {
            true
        } else if i >= left.len() {
            false
        } else {
            left[i] <= right[j]
        };
        if from_left {
            let x = left[i];
            merged.push(x);
            proof {
                before.to_multiset_ensures();
                left@.take(i as int).to_multiset_ensures();
                assert(left@.take(i + 1) =~= left@.take(i as int).push(x));
                assert(merged@.to_multiset() =~= left@.take(i + 1).to_multiset().add(
                    right@.take(j as int).to_multiset(),
                ));
            }
            i += 1;
        } else {
            let x = right[j];
            merged.push(x);
            proof {
                before.to_multiset_ensures();
                right@.take(j as int).to_multiset_ensures();
                assert(right@.take(j + 1) =~= right@.take(j as int).push(x));
                assert(merged@.to_multiset() =~= left@.take(i as int).to_multiset().add(
                    right@.take(j + 1).to_multiset(),
                ));
            }
            j += 1;
        }
    }
    proof {
        assert(left@.take(i as int) =~= left@);
        assert(right@.take(j as int) =~= right@);
    }
    merged
}

/// The entries `lo..hi` of `list` in ascending order.
fn sorted_range(list: &Vec<usize>, lo: usize, hi: usize) -> (run: Vec<usize>)
    requires
        lo <= hi <= list@.len(),
    ensures
        ascending(run@),
        run@.to_multiset() == list@.subrange(lo as int, hi as int).to_multiset(),
    decreases hi - lo,
{
    if hi - lo == 0 {
        let run: Vec<usize> = Vec::new();
        proof {
            assert(run@ =~= list@.subrange(lo as int, hi as int));
        }
        run
    } else if hi - lo == 1 {
        let mut run: Vec<usize> = Vec::new();
        run.push(list[lo]);
        proof {
            assert(run@ =~= list@.subrange(lo as int, hi as int));
        }
        run
    } else {
        let mid = lo + (hi - lo) / 2;
        let left = sorted_range(list, lo, mid);
        let right = sorted_range(list, mid, hi);
        proof {
            let front = list@.subrange(lo as int, mid as int);
            let back = list@.subrange(mid as int, hi as int);
            vstd::seq_lib::lemma_multiset_commutative(front, back);
            assert(front + back =~= list@.subrange(lo as int, hi as int));
        }
        merge_ascending(&left, &right)
    }
}

/// A list of `n` empty adjacency lists.
fn empty_lists(n: usize) -> (lists: Vec<Vec<usize>>)
    ensures
        lists@.len() == n,
        forall|u: int| 0 <= u < n ==> (#[trigger] lists@[u])@ == Seq::<usize>::empty(),
{
    let mut lists: Vec<Vec<usize>> = Vec::new();
    let mut u: usize = 0;
    while u < n
        invariant
            u <= n,
            lists@.len() == u,
            forall|w: int| 0 <= w < u ==> (#[trigger] lists@[w])@ == Seq::<usize>::empty(),
        decreases n - u,
    {
        lists.push(Vec::new());
        u += 1;
    }
    lists
}

/// In a list with an inverse table no label occurs twice.
pub proof fn lemma_inverse_distinct(index: Map<Seq<char>, usize>, labels: Seq<Seq<char>>)
    requires
        inverse_of(index, labels),
    ensures
        distinct(labels),
{
}

/// Under an inverse table, the table's entry for a label is the place of
/// that label in the list.
pub proof fn lemma_inverse_index_of(
    index: Map<Seq<char>, usize>,
    labels: Seq<Seq<char>>,
    key: Seq<char>,
)
    requires
        inverse_of(index, labels),
    ensures
        index.contains_key(key) <==> labels.contains(key),
        index.contains_key(key) ==> labels.index_of(key) == index[key],
{
    if index.contains_key(key) {
        assert(labels[index[key] as int] == key);
        let i = labels.index_of(key);
        assert(labels[i] == key);
    }
    if labels.contains(key) {
        let i = choose|i: int| 0 <= i < labels.len() && labels[i] == key;
        assert(index.contains_key(labels[i]));
    }
}

/// The lookup table of `names`: each label mapped to its place in the list.
pub(crate) fn label_table(names: &[String]) -> (table: StringHashMap<usize>)
    requires
        distinct(label_views(names@)),
    ensures
        inverse_of(table@, label_views(names@)),
{
    let n = names.len();
    let mut table: StringHashMap<usize> = StringHashMap::new();
    let ghost labels = label_views(names@);
    let mut i: usize = 0;
    while i < n
        invariant
            i <= n,
            n == names@.len(),
            labels == label_views(names@),
            distinct(labels),
            inverse_of(table@, labels.take(i as int)),
        decreases n - i,
    {
        let ghost before = table@;
        table.insert(names[i].clone(), i);
        proof {
            let grown = labels.take(i + 1);
            assert(table@ == before.insert(labels[i as int], i));
            assert forall|k: int| 0 <= k < grown.len() implies table@.contains_key(
                #[trigger] grown[k],
            ) && table@[grown[k]] == k by {
                if k < i {
                    assert(labels.take(i as int)[k] == labels[k]);
                    assert(labels[k] != labels[i as int]);
                }
            }
            assert forall|key: Seq<char>| #[trigger]
                table@.contains_key(key) implies table@[key] < grown.len() && grown[table@[key] as int]
                == key by {
                if key != labels[i as int] {
                    assert(before.contains_key(key));
                    assert(labels.take(i as int)[before[key] as int] == key);
                }
            }
        }
        i += 1;
    }
    proof {
        assert(labels.take(i as int) =~= labels);
    }
    table
}

/// Builds the graph with the given labels and lookup table whose edges are
/// `edges`, each appended to the adjacency list of its source in turn.
pub(crate) fn connect(
    vertex_labels: Vec<String>,
    vertex_indices: StringHashMap<usize>,
    edges: &Vec<(String, String)>,
) -> (g: Graph)
    requires
        inverse_of(vertex_indices@, label_views(vertex_labels@)),
        ends_known(edge_names(edges@), label_views(vertex_labels@)),
    ensures
        g.well_formed(),
        g.well_labeled(),
        g.n == vertex_labels@.len(),
        g.vertex_labels == vertex_labels,
        g.vertex_indices == vertex_indices,
        forall|u: int|
            0 <= u < g.n ==> #[trigger] g@.adj[u] == targets_from(
                resolved(edge_names(edges@), g@.labels),
                u,
                g.n as int,
            ),
{
    let n = vertex_labels.len();
    let mut outedges = empty_lists(n);
    let ghost labels = label_views(vertex_labels@);
    let ghost pairs = resolved(edge_names(edges@), labels);
    let mut j: usize = 0;
    while j < edges.len()
        invariant
            j <= edges.len(),
            n == vertex_labels@.len(),
            labels == label_views(vertex_labels@),
            pairs == resolved(edge_names(edges@), labels),
            inverse_of(vertex_indices@, labels),
            ends_known(edge_names(edges@), labels),
            outedges@.len() == n,
            forall|u: int, k: int|
                0 <= u < n && 0 <= k < outedges@[u]@.len() ==> (#[trigger] outedges@[u]@[k]) < n,
            forall|u: int|
                0 <= u < n ==> (#[trigger] outedges@[u])@ == targets_from(
                    pairs.take(j as int),
                    u,
                    n as int,
                ),
        decreases edges.len() - j,
    {
        proof {
            assert(labels.contains(edge_names(edges@)[j as int].0));
            assert(labels.contains(edge_names(edges@)[j as int].1));
            lemma_inverse_index_of(vertex_indices@, labels, edges@[j as int].0@);
            lemma_inverse_index_of(vertex_indices@, labels, edges@[j as int].1@);
        }
        let src_idx = *vertex_indices.get(edges[j].0.as_str()).unwrap();
        let tgt_idx = *vertex_indices.get(edges[j].1.as_str()).unwrap();
        let ghost before = outedges@;
        outedges[src_idx].push(tgt_idx);
        proof {
            assert(pairs.take(j + 1).drop_last() =~= pairs.take(j as int));
            assert(pairs.take(j + 1).last() == (src_idx, tgt_idx));
            assert forall|u: int| 0 <= u < n implies (#[trigger] outedges@[u])@ == targets_from(
                pairs.take(j + 1),
                u,
                n as int,
            ) by {
                if u != src_idx {
                    assert(outedges@[u] == before[u]);
                }
            }
        }
        j += 1;
    }
    proof {
        assert(pairs.take(j as int) =~= pairs);
    }
    let g = Graph { n, outedges, vertex_labels, vertex_indices };
    proof {
        assert forall|u: int| 0 <= u < g.n implies #[trigger] g@.adj[u] == targets_from(
            resolved(edge_names(edges@), g@.labels),
            u,
            g.n as int,
        ) by {
            assert(g@.adj[u] == g.outedges@[u]@);
        }
    }
    g
}

impl Graph {
    /// The structural invariant: one adjacency list and one label per
    /// vertex, and no edge that leaves the vertex range.
    pub open spec fn well_formed(&self) -> bool {
        &&& self.outedges@.len() == self.n
        &&& self.vertex_labels@.len() == self.n
        &&& closed(self@.adj)
    }

    /// The naming invariant: the lookup table is exactly the inverse of the
    /// label list, so labels are pairwise distinct.
    pub open spec fn well_labeled(&self) -> bool {
        inverse_of(self.vertex_indices@, self@.labels)
    }

    /// The number of edges that leave `v`.
    pub fn degree(&self, v: Vertex) -> (count: usize)
        requires
            self.well_formed(),
            v < self.n,
        ensures
            count == self@.adj[v as int].len(),
    {
        self.outedges[v].len()
    }

    /// The graph whose vertices carry the labels `vertices`, vertex `i` the
    /// label `vertices[i]`, and whose edges are `edges`, each appended to the
    /// adjacency list of its source in the order given.
    pub fn new(vertices: Vec<String>, edges: Vec<(String, String)>) -> (g: Graph)
        requires
            distinct(label_views(vertices@)),
            ends_known(edge_names(edges@), label_views(vertices@)),
        ensures
            g.well_formed(),
            g.well_labeled(),
            g.n == vertices@.len(),
            g@.labels == label_views(vertices@),
            forall|u: int|
                0 <= u < g.n ==> #[trigger] g@.adj[u] == targets_from(
                    resolved(edge_names(edges@), g@.labels),
                    u,
                    g.n as int,
                ),
    {
        let vertex_indices = label_table(vertices.as_slice());
        connect(vertices, vertex_indices, &edges)
    }

    /// Appends each edge with both ends in range to the adjacency list of its
    /// source, in the order given. Edges with an end out of range are skipped.
    pub fn add_directed_edges(&mut self, edges: &ListOfEdges)
        requires
            old(self).well_formed(),
        ensures
            final(self).well_formed(),
            final(self).n == old(self).n,
            final(self).vertex_labels == old(self).vertex_labels,
            final(self).vertex_indices == old(self).vertex_indices,
            forall|u: int|
                0 <= u < old(self).n ==> #[trigger] final(self)@.adj[u] == old(self)@.adj[u]
                    + targets_from(edges@, u, old(self).n as int),
    {
        let mut i: usize = 0;
        while i < edges.len()
            invariant
                0 <= i <= edges.len(),
                self.well_formed(),
                self.n == old(self).n,
                self.vertex_labels == old(self).vertex_labels,
                self.vertex_indices == old(self).vertex_indices,
                forall|u: int|
                    0 <= u < self.n ==> #[trigger] self@.adj[u] == old(self)@.adj[u] + targets_from(
                        edges@.take(i as int),
                        u,
                        self.n as int,
                    ),
            decreases edges.len() - i,
        {
            let (u, v) = edges[i];
            let ghost before = self@.adj;
            if u < self.n && v < self.n {
                self.outedges[u].push(v);
                assert(self@.adj =~= before.update(u as int, before[u as int].push(v)));
            }
            proof {
                assert(edges@.take(i + 1).drop_last() =~= edges@.take(i as int));
                assert(edges@.take(i + 1).last() == (u, v));
                assert forall|w: int| 0 <= w < self.n implies #[trigger] self@.adj[w] == old(
                    self,
                )@.adj[w] + targets_from(edges@.take(i + 1), w, self.n as int) by {
                    let grown = targets_from(edges@.take(i as int), w, self.n as int);
                    if w == u && u < self.n && v < self.n {
                        assert(old(self)@.adj[w] + grown.push(v) =~= (old(self)@.adj[w]
                            + grown).push(v));
                    }
                }
            }
            i += 1;
        }
        proof {
            assert(edges@.take(i as int) =~= edges@);
        }
    }
    /// Puts every adjacency list in ascending order, keeping what it holds.
    pub fn sort_graph_lists(&mut self)
        ensures
            final(self).n == old(self).n,
            final(self).vertex_labels == old(self).vertex_labels,
            final(self).vertex_indices == old(self).vertex_indices,
            final(self)@.adj.len() == old(self)@.adj.len(),
            forall|u: int|
                0 <= u < old(self)@.adj.len() ==> ascending(#[trigger] final(self)@.adj[u])
                    && final(self)@.adj[u].to_multiset() == old(self)@.adj[u].to_multiset(),
            old(self).well_formed() ==> final(self).well_formed(),
    {
        let rows = self.outedges.len();
        let mut u: usize = 0;
        while u < rows
            invariant
                u <= rows,
                rows == old(self).outedges@.len(),
                self.outedges@.len() == rows,
                self.n == old(self).n,
                self.vertex_labels == old(self).vertex_labels,
                self.vertex_indices == old(self).vertex_indices,
                forall|w: int|
                    0 <= w < u ==> ascending(#[trigger] self@.adj[w]) && self@.adj[w].to_multiset()
                        == old(self)@.adj[w].to_multiset(),
                forall|w: int| u <= w < rows ==> #[trigger] self@.adj[w] == old(self)@.adj[w],
            decreases rows - u,
        {
            let ghost before = self@.adj;
            let sorted = sorted_range(&self.outedges[u], 0, self.outedges[u].len());
            proof {
                assert(before[u as int].subrange(0, before[u as int].len() as int)
                    =~= before[u as int]);
            }
            self.outedges[u] = sorted;
            proof {
                assert forall|w: int| 0 <= w < rows && w != u implies #[trigger] self@.adj[w]
                    == before[w] by {}
                assert(self@.adj[u as int] == self.outedges@[u as int]@);
                assert(before[u as int] == old(self)@.adj[u as int]);
            }
            u += 1;
        }
        proof {
            if old(self).well_formed() {
                assert forall|w: int, k: int|
                    0 <= w < self@.adj.len() && 0 <= k < self@.adj[w].len() implies (
                #[trigger] self@.adj[w][k]) < self@.adj.len() by {
                    let x = self@.adj[w][k];
                    self@.adj[w].to_multiset_ensures();
                    old(self)@.adj[w].to_multiset_ensures();
                    assert(self@.adj[w].contains(x));
                    assert(self@.adj[w].to_multiset().count(x) > 0);
                    assert(old(self)@.adj[w].to_multiset().count(x) > 0);
                    assert(old(self)@.adj[w].contains(x));
                    let k0 = choose|k0: int|
                        0 <= k0 < old(self)@.adj[w].len() && old(self)@.adj[w][k0] == x;
                    assert(old(self)@.adj[w][k0] < old(self)@.adj.len());
                }
            }
        }
    }

    /// The graph on `n` vertices whose edges are those of `edges` with both
    /// ends below `n`, every adjacency list in ascending order. Each vertex
    /// is labelled with its number, written in decimal.
    pub fn create_directed(n: usize, edges: &ListOfEdges) -> (g: Graph)
        ensures
            g.well_formed(),
            g.well_labeled(),
            g.n == n,
            forall|u: int| 0 <= u < n ==> #[trigger] g@.labels[u] == decimal(u as nat),
            forall|u: int|
                0 <= u < n ==> ascending(#[trigger] g@.adj[u]) && g@.adj[u].to_multiset()
                    == targets_from(edges@, u, n as int).to_multiset(),
    {
        let mut vertex_labels: Vec<String> = Vec::new();
        let mut u: usize = 0;
        while u < n
            invariant
                u <= n,
                vertex_labels@.len() == u,
                forall|w: int| 0 <= w < u ==> (#[trigger] vertex_labels@[w])@ == decimal(w as nat),
            decreases n - u,
        {
            vertex_labels.push(decimal_label(u));
            u += 1;
        }
        proof {
            let labels = label_views(vertex_labels@);
            assert forall|i: int, j: int|
                0 <= i < labels.len() && 0 <= j < labels.len() && #[trigger] labels[i]
                    == #[trigger] labels[j] implies i == j by {
                lemma_decimal_injective(i as nat, j as nat);
            }
        }
        let vertex_indices = label_table(vertex_labels.as_slice());
        let mut g = Graph { n, outedges: empty_lists(n), vertex_labels, vertex_indices };
        let ghost blank = g@.adj;
        g.add_directed_edges(edges);
        proof {
            assert forall|w: int| 0 <= w < n implies #[trigger] g@.adj[w] == targets_from(
                edges@,
                w,
                n as int,
            ) by {
                assert(blank[w] =~= Seq::<usize>::empty());
                assert(blank[w] + targets_from(edges@, w, n as int) =~= targets_from(
                    edges@,
                    w,
                    n as int,
                ));
            }
        }
        g.sort_graph_lists();
        g
    }
}

} // verus!
