//! The random-walk ranking: a fixed number of walks from every vertex, driven
//! by one seeded generator, and the vertices ranked by how many walks end at
//! them.

use vstd::prelude::*;
use rand::rngs::StdRng;
use rand::Rng;
use rand::SeedableRng;
use crate::graph::Graph;
use crate::graph::GraphModel;
use crate::graph::Vertex;
use crate::graph::label_views;

verus! {

/// The number of walks that start at each vertex.
pub const WALKS_PER_VERTEX: usize = 100;

/// The number of steps in a walk.
pub const STEPS_PER_WALK: usize = 100;

/// A walk jumps where a draw from `1..=JUMP_ODDS` gives 1.
pub const JUMP_ODDS: i32 = 10;

/// `rand::rngs::StdRng`, the generator that drives the walks. Nothing is
/// known of a value of it but what `generator_state` names.
#[verifier::external_type_specification]
#[verifier::external_body]
pub struct ExStdRng(StdRng);

/// What a generator holds: its key, its stream and its place in the stream,
/// on which alone its later output depends.
pub uninterp spec fn generator_state(rng: StdRng) -> Seq<u8>;

/// The state of the generator that `StdRng::seed_from_u64` makes from
/// `seed`.
pub uninterp spec fn seeded_state(seed: u64) -> Seq<u8>;

/// What `Rng::gen_range` does on `low..=high` of `i32` with a generator in
/// state `state`: the number drawn, and the state the generator is left in.
pub uninterp spec fn inclusive_draw(state: Seq<u8>, low: i32, high: i32) -> (i32, Seq<u8>);

/// What `Rng::gen_range` does on `low..high` of `u64` with a generator in
/// state `state`: the number drawn, and the state the generator is left in.
pub uninterp spec fn index_draw(state: Seq<u8>, low: u64, high: u64) -> (u64, Seq<u8>);

/// `StdRng::seed_from_u64`: the generator that it returns depends on the seed
/// alone.
#[verifier::external_body]
fn seeded_generator(seed: u64) -> (rng: StdRng)
    ensures
        generator_state(rng) == seeded_state(seed),
{
    StdRng::seed_from_u64(seed)
}

/// `Rng::gen_range` on an inclusive range of `i32`, which must not be empty:
/// the number drawn lies in the range, and it and the generator's new state
/// depend on the generator's state and the range alone.
#[verifier::external_body]
fn draw_inclusive(rng: &mut StdRng, low: i32, high: i32) -> (drawn: i32)
    requires
        low <= high,
    ensures
        low <= drawn <= high,
        (drawn, generator_state(*final(rng))) == inclusive_draw(
            generator_state(*old(rng)),
            low,
            high,
        ),
{
    rng.gen_range(low..=high)
}

/// `Rng::gen_range` on a half-open range of `u64`, which must not be empty:
/// the number drawn lies in the range, and it and the generator's new state
/// depend on the generator's state and the range alone.
#[verifier::external_body]
fn draw_index(rng: &mut StdRng, low: u64, high: u64) -> (drawn: u64)
    requires
        low < high,
    ensures
        low <= drawn < high,
        (drawn, generator_state(*final(rng))) == index_draw(generator_state(*old(rng)), low, high),
{
    rng.gen_range(low..high)
}

/// A walk at a vertex of `degree` outgoing edges jumps to a vertex picked
/// from the whole graph where the draw `coin` is 1 or no edge leaves the
/// vertex; otherwise it follows an edge.
pub open spec fn jumps(coin: i32, degree: nat) -> bool {
    coin == 1 || degree == 0
}

/// The number of choices that the walk at `current` picks from after the
/// draw `coin`: all vertices where it jumps, else the edges that leave
/// `current`.
pub open spec fn pick_bound(adj: Seq<Seq<usize>>, current: int, coin: i32) -> usize {
    if jumps(coin, adj[current].len()) {
        adj.len() as usize
    } else {
        adj[current].len() as usize
    }
}

/// Where the walk at `current` goes after the draw `coin` and the pick
/// `pick`.
pub open spec fn moved(adj: Seq<Seq<usize>>, current: int, coin: i32, pick: usize) -> usize {
    if jumps(coin, adj[current].len()) {
        pick
    } else {
        adj[current][pick as int]
    }
}

/// One step of a walk that is at the vertex `at.0` with the generator in
/// state `at.1`: the vertex it moves to and the state the generator is left
/// in.
pub open spec fn stepped(adj: Seq<Seq<usize>>, at: (usize, Seq<u8>)) -> (usize, Seq<u8>) {
    let (coin, tossed) = inclusive_draw(at.1, 1, JUMP_ODDS);
    let (pick, picked) = index_draw(tossed, 0, pick_bound(adj, at.0 as int, coin) as u64);
    (moved(adj, at.0 as int, coin, pick as usize), picked)
}

/// `steps` steps of a walk from `at`.
pub open spec fn walked(adj: Seq<Seq<usize>>, at: (usize, Seq<u8>), steps: nat) -> (
    usize,
    Seq<u8>,
)
    decreases steps,
{
    if steps == 0 {
        at
    } else {
        stepped(adj, walked(adj, at, (steps - 1) as nat))
    }
}

/// The simulation after `walks` walks with a generator that began in state
/// `state`: the state of the generator, and for each vertex the number of
/// walks that ended at it. Vertex `v` has the walks number
/// `v * WALKS_PER_VERTEX` and following, and each of them starts at `v`.
pub open spec fn tallied(adj: Seq<Seq<usize>>, state: Seq<u8>, walks: nat) -> (Seq<u8>, Seq<usize>)
    decreases walks,
{
    if walks == 0 {
        (state, Seq::new(adj.len(), |v: int| 0usize))
    } else {
        let earlier = tallied(adj, state, (walks - 1) as nat);
        let from = ((walks - 1) / (WALKS_PER_VERTEX as int)) as usize;
        let end = walked(adj, (from, earlier.0), STEPS_PER_WALK as nat);
        (end.1, earlier.1.update(end.0 as int, (earlier.1[end.0 as int] + 1) as usize))
    }
}

/// For each vertex the number of walks that end at it in the whole
/// simulation with the generator made from `seed`.
pub open spec fn tally_of(adj: Seq<Seq<usize>>, seed: u64) -> Seq<usize> {
    tallied(adj, seeded_state(seed), (adj.len() * WALKS_PER_VERTEX) as nat).1
}

/// The sum of `counts`.
pub open spec fn total(counts: Seq<usize>) -> int
    decreases counts.len(),
{
    if counts.len() == 0 {
        0
    } else {
        total(counts.drop_last()) + counts.last()
    }
}

/// Vertex `a` ranks before vertex `b`: it has the greater count, or the same
/// count and the lower number.
pub open spec fn precedes(counts: Seq<usize>, a: usize, b: usize) -> bool {
    counts[a as int] > counts[b as int] || (counts[a as int] == counts[b as int] && a < b)
}

/// `order` lists every vertex once, each before all that it ranks before.
pub open spec fn ranks(order: Seq<usize>, counts: Seq<usize>) -> bool {
    &&& order.len() == counts.len()
    &&& forall|i: int| 0 <= i < order.len() ==> (#[trigger] order[i]) < counts.len()
    &&& forall|v: int| 0 <= v < counts.len() ==> #[trigger] order.contains(v as usize)
    &&& forall|i: int, j: int|
        0 <= i < j < order.len() ==> precedes(counts, #[trigger] order[i], #[trigger] order[j])
}

/// The vertices by falling count, those of equal count by rising number.
pub open spec fn ranking_order(counts: Seq<usize>) -> Seq<usize> {
    choose|order: Seq<usize>| ranks(order, counts)
}

/// The ranking: each vertex's label with its count, by falling count, those
/// of equal count in the order of their vertices.
pub open spec fn standings(labels: Seq<Seq<char>>, counts: Seq<usize>) -> Seq<(Seq<char>, usize)> {
    let order = ranking_order(counts);
    Seq::new(order.len(), |i: int| (labels[order[i] as int], counts[order[i] as int]))
}

/// The entries of a ranking, each label as its sequence of characters.
pub open spec fn entries(ranking: Seq<(String, usize)>) -> Seq<(Seq<char>, usize)> {
    Seq::new(ranking.len(), |i: int| (ranking[i].0@, ranking[i].1))
}

/// The counts of a ranking, in its order.
pub open spec fn counts_of(ranking: Seq<(Seq<char>, usize)>) -> Seq<usize> {
    Seq::new(ranking.len(), |i: int| ranking[i].1)
}

/// Two orders that rank the same counts are the same up to place `i`.
proof fn lemma_ranks_agree(first: Seq<usize>, second: Seq<usize>, counts: Seq<usize>, i: int)
    requires
        ranks(first, counts),
        ranks(second, counts),
        0 <= i < counts.len(),
    ensures
        forall|k: int| 0 <= k <= i ==> first[k] == second[k],
    decreases i,
{
    if i > 0 {
        lemma_ranks_agree(first, second, counts, i - 1);
    }
    let a = first[i];
    let b = second[i];
    if a != b {
        assert(first.contains(b as int as usize));
        assert(second.contains(a as int as usize));
        let p = choose|p: int| 0 <= p < first.len() && first[p] == b;
        let q = choose|q: int| 0 <= q < second.len() && second[q] == a;
        if p < i {
            assert(precedes(counts, second[p], second[i]));
        }
        if q < i {
            assert(precedes(counts, first[q], first[i]));
        }
        assert(precedes(counts, first[i], first[p]));
        assert(precedes(counts, second[i], second[q]));
    }
}

/// Counts have one ranking order only.
pub proof fn lemma_ranks_unique(first: Seq<usize>, second: Seq<usize>, counts: Seq<usize>)
    requires
        ranks(first, counts),
        ranks(second, counts),
    ensures
        first == second,
{
    if counts.len() > 0 {
        lemma_ranks_agree(first, second, counts, counts.len() - 1);
    }
    assert(first =~= second);
}

/// Counts have a ranking order.
pub proof fn lemma_ranking_order_exists(counts: Seq<usize>)
    requires
        counts.len() <= usize::MAX,
    ensures
        ranks(ranking_order(counts), counts),
{
    let not_after = |a: usize, b: usize| a == b || precedes(counts, a, b);
    assert(vstd::relations::total_ordering(not_after)) by {
        assert(vstd::relations::reflexive(not_after));
        assert(vstd::relations::antisymmetric(not_after));
        assert(vstd::relations::transitive(not_after));
        assert(vstd::relations::strongly_connected(not_after));
    }
    let vertices = Seq::new(counts.len(), |v: int| v as usize);
    let order = vertices.sort_by(not_after);
    vertices.lemma_sort_by_ensures(not_after);
    vertices.to_multiset_ensures();
    order.to_multiset_ensures();
    assert(vertices.no_duplicates());
    vertices.lemma_multiset_has_no_duplicates();
    order.lemma_multiset_has_no_duplicates_conv();
    assert forall|i: int| 0 <= i < order.len() implies (#[trigger] order[i]) < counts.len() by {
        assert(order.contains(order[i]));
        assert(vertices.to_multiset().count(order[i]) > 0);
        assert(vertices.contains(order[i]));
    }
    assert forall|v: int| 0 <= v < counts.len() implies #[trigger] order.contains(v as usize) by {
        assert(vertices[v] == v as usize);
        assert(vertices.contains(v as usize));
        assert(order.to_multiset().count(v as usize) > 0);
    }
    assert forall|i: int, j: int| 0 <= i < j < order.len() implies precedes(
        counts,
        #[trigger] order[i],
        #[trigger] order[j],
    ) by {
        assert(not_after(order[i], order[j]));
        assert(order[i] != order[j]);
    }
    assert(ranks(order, counts));
}

/// What a ranking is: it has one entry for each vertex, in the ranking order
/// of the counts, so that the counts never rise along it and vertices of
/// equal count keep the order of their numbers.
pub proof fn lemma_standings(labels: Seq<Seq<char>>, counts: Seq<usize>)
    requires
        labels.len() == counts.len(),
        counts.len() <= usize::MAX,
    ensures
        ranks(ranking_order(counts), counts),
        standings(labels, counts).len() == counts.len(),
        forall|i: int|
            0 <= i < counts.len() ==> (#[trigger] standings(labels, counts)[i]) == (
                labels[ranking_order(counts)[i] as int],
                counts[ranking_order(counts)[i] as int],
            ),
        forall|i: int, j: int|
            0 <= i <= j < counts.len() ==> (#[trigger] standings(labels, counts)[i]).1 >= (
            #[trigger] standings(labels, counts)[j]).1,
{
    lemma_ranking_order_exists(counts);
    let order = ranking_order(counts);
    assert forall|i: int, j: int| 0 <= i <= j < counts.len() implies (#[trigger] standings(
        labels,
        counts,
    )[i]).1 >= (#[trigger] standings(labels, counts)[j]).1 by {
        if i < j {
            assert(precedes(counts, order[i], order[j]));
        }
    }
}

/// Adding one to an entry adds one to the sum.
pub proof fn lemma_total_bump(counts: Seq<usize>, v: int)
    requires
        0 <= v < counts.len(),
        counts[v] < usize::MAX,
    ensures
        total(counts.update(v, (counts[v] + 1) as usize)) == total(counts) + 1,
    decreases counts.len(),
{
    let bumped = counts.update(v, (counts[v] + 1) as usize);
    if v == counts.len() - 1 {
        assert(bumped.drop_last() =~= counts.drop_last());
    } else {
        lemma_total_bump(counts.drop_last(), v);
        assert(bumped.drop_last() =~= counts.drop_last().update(
            v,
            (counts.drop_last()[v] + 1) as usize,
        ));
    }
}

/// A sum of counts is not negative.
pub proof fn lemma_total_not_negative(counts: Seq<usize>)
    ensures
        0 <= total(counts),
    decreases counts.len(),
{
    if counts.len() > 0 {
        lemma_total_not_negative(counts.drop_last());
    }
}

/// No entry is greater than the sum.
pub proof fn lemma_total_bounds(counts: Seq<usize>, v: int)
    requires
        0 <= v < counts.len(),
    ensures
        counts[v] <= total(counts),
    decreases counts.len(),
{
    if v < counts.len() - 1 {
        lemma_total_bounds(counts.drop_last(), v);
    } else {
        lemma_total_not_negative(counts.drop_last());
    }
}

/// Counts that are all 0 sum to 0.
pub proof fn lemma_total_zero(n: nat)
    ensures
        total(Seq::new(n, |v: int| 0usize)) == 0,
    decreases n,
{
    if n > 0 {
        lemma_total_zero((n - 1) as nat);
        assert(Seq::new(n, |v: int| 0usize).drop_last() =~= Seq::new(
            (n - 1) as nat,
            |v: int| 0usize,
        ));
    }
}

/// The ranking is determined by the labels, the edges and the seed: two
/// rankings that the simulation gives for the same graph and the same seed
/// agree entry by entry, in the labels, the counts and their order.
pub proof fn lemma_same_seed_same_ranking(
    first: Seq<(String, usize)>,
    second: Seq<(String, usize)>,
    one: GraphModel,
    other: GraphModel,
    seed: u64,
)
    requires
        one == other,
        entries(first) == standings(one.labels, tally_of(one.adj, seed)),
        entries(second) == standings(other.labels, tally_of(other.adj, seed)),
    ensures
        entries(first) == entries(second),
        first.len() == second.len(),
        forall|i: int|
            0 <= i < first.len() ==> (#[trigger] first[i]).0@ == second[i].0@ && first[i].1
                == second[i].1,
{
    assert(entries(first).len() == first.len());
    assert(entries(second).len() == second.len());
    assert forall|i: int| 0 <= i < first.len() implies (#[trigger] first[i]).0@ == second[i].0@
        && first[i].1 == second[i].1 by {
        assert(entries(first)[i] == (first[i].0@, first[i].1));
        assert(entries(second)[i] == (second[i].0@, second[i].1));
    }
}

/// `run` is in ranking order: each of its vertices ranks before all that
/// follow it.
pub open spec fn in_order(run: Seq<usize>, counts: Seq<usize>) -> bool {
    forall|i: int, j: int|
        0 <= i < j < run.len() ==> precedes(counts, #[trigger] run[i], #[trigger] run[j])
}

/// The sum of the counts of the vertices of `run`.
pub open spec fn picked(run: Seq<usize>, counts: Seq<usize>) -> int
    decreases run.len(),
{
    if run.len() == 0 {
        0
    } else {
        picked(run.drop_last(), counts) + counts[run.last() as int]
    }
}

/// The sum of two lists of counts, one after the other, is the sum of their
/// sums.
pub proof fn lemma_total_concat(front: Seq<usize>, back: Seq<usize>)
    ensures
        total(front + back) == total(front) + total(back),
    decreases back.len(),
{
    if back.len() == 0 {
        assert(front + back =~= front);
    } else {
        lemma_total_concat(front, back.drop_last());
        assert((front + back).drop_last() =~= front + back.drop_last());
    }
}

/// The counts of the vertices of a run, listed in the order of the run, sum
/// to what the run picks.
pub proof fn lemma_picked_is_total(run: Seq<usize>, counts: Seq<usize>)
    ensures
        picked(run, counts) == total(Seq::new(run.len(), |i: int| counts[run[i] as int])),
    decreases run.len(),
{
    if run.len() > 0 {
        lemma_picked_is_total(run.drop_last(), counts);
        let listed = Seq::new(run.len(), |i: int| counts[run[i] as int]);
        assert(listed.drop_last() =~= Seq::new(
            run.drop_last().len(),
            |i: int| counts[run.drop_last()[i] as int],
        ));
    }
}

/// Whether vertex `a` ranks before vertex `b`.
fn ranks_before(counts: &Vec<usize>, a: usize, b: usize) -> (first: bool)
    requires
        a < counts@.len(),
        b < counts@.len(),
    ensures
        first == precedes(counts@, a, b),
{
    counts[a] > counts[b] || (counts[a] == counts[b] && a < b)
}

/// Merges two runs in ranking order that share no vertex into one.
fn merge_runs(left: &Vec<usize>, right: &Vec<usize>, counts: &Vec<usize>) -> (merged: Vec<usize>)
    requires
        in_order(left@, counts@),
        in_order(right@, counts@),
        forall|i: int| 0 <= i < left@.len() ==> (#[trigger] left@[i]) < counts@.len(),
        forall|j: int| 0 <= j < right@.len() ==> (#[trigger] right@[j]) < counts@.len(),
        forall|i: int, j: int|
            0 <= i < left@.len() && 0 <= j < right@.len() ==> #[trigger] left@[i]
                != #[trigger] right@[j],
        left@.len() + right@.len() <= usize::MAX,
    ensures
        in_order(merged@, counts@),
        merged@.len() == left@.len() + right@.len(),
        forall|x: usize| #[trigger]
            merged@.contains(x) <==> left@.contains(x) || right@.contains(x),
        picked(merged@, counts@) == picked(left@, counts@) + picked(right@, counts@),
{
    let mut merged: Vec<usize> = Vec::new();
    let mut i: usize = 0;
    let mut j: usize = 0;
    while i < left.len() || j < right.len()
        invariant
            i <= left@.len(),
            j <= right@.len(),
            left@.len() + right@.len() <= usize::MAX,
            in_order(left@, counts@),
            in_order(right@, counts@),
            forall|k: int| 0 <= k < left@.len() ==> (#[trigger] left@[k]) < counts@.len(),
            forall|k: int| 0 <= k < right@.len() ==> (#[trigger] right@[k]) < counts@.len(),
            forall|a: int, b: int|
                0 <= a < left@.len() && 0 <= b < right@.len() ==> #[trigger] left@[a]
                    != #[trigger] right@[b],
            merged@.len() == i + j,
            in_order(merged@, counts@),
            forall|m: int, k: int|
                0 <= m < merged@.len() && i <= k < left@.len() ==> precedes(
                    counts@,
                    #[trigger] merged@[m],
                    #[trigger] left@[k],
                ),
            forall|m: int, k: int|
                0 <= m < merged@.len() && j <= k < right@.len() ==> precedes(
                    counts@,
                    #[trigger] merged@[m],
                    #[trigger] right@[k],
                ),
            forall|x: usize| #[trigger]
                merged@.contains(x) <==> left@.take(i as int).contains(x) || right@.take(
                    j as int,
                ).contains(x),
            picked(merged@, counts@) == picked(left@.take(i as int), counts@) + picked(
                right@.take(j as int),
                counts@,
            ),
        decreases left@.len() - i + right@.len() - j,
    {
        let ghost before = merged@;
        let from_left = if j >= right.len() {
            true
        } else if i >= left.len() {
            false
        } else {
            ranks_before(counts, left[i], right[j])
        };
        if from_left {
            let x = left[i];
            merged.push(x);
            proof {
                assert(left@.take(i + 1).drop_last() =~= left@.take(i as int));
                assert(left@.take(i + 1).last() == x);
                assert(merged@.drop_last() =~= before);
                assert forall|m: int, k: int|
                    0 <= m < merged@.len() && j <= k < right@.len() implies precedes(
                    counts@,
                    #[trigger] merged@[m],
                    #[trigger] right@[k],
                ) by {
                    if m == before.len() {
                        assert(precedes(counts@, left@[i as int], right@[j as int]));
                        if k > j {
                            assert(precedes(counts@, right@[j as int], right@[k]));
                        }
                    } else {
                        assert(merged@[m] == before[m]);
                    }
                }
                assert forall|m: int, k: int|
                    0 <= m < merged@.len() && i + 1 <= k < left@.len() implies precedes(
                    counts@,
                    #[trigger] merged@[m],
                    #[trigger] left@[k],
                ) by {
                    if m == before.len() {
                        assert(precedes(counts@, left@[i as int], left@[k]));
                    } else {
                        assert(merged@[m] == before[m]);
                    }
                }
                assert forall|a: int, b: int| 0 <= a < b < merged@.len() implies precedes(
                    counts@,
                    #[trigger] merged@[a],
                    #[trigger] merged@[b],
                ) by {
                    assert(merged@[a] == before[a]);
                    if b == before.len() {
                        assert(precedes(counts@, before[a], left@[i as int]));
                    } else {
                        assert(merged@[b] == before[b]);
                    }
                }
                assert forall|y: usize| #[trigger]
                    merged@.contains(y) <==> left@.take(i + 1).contains(y) || right@.take(
                        j as int,
                    ).contains(y) by {
                    lemma_contains_push(before, x, y);
                    lemma_contains_push(left@.take(i as int), x, y);
                    assert(merged@ == before.push(x));
                    assert(left@.take(i + 1) =~= left@.take(i as int).push(x));
                }
            }
            i += 1;
        } else {
            let x = right[j];
            merged.push(x);
            proof {
                assert(right@.take(j + 1).drop_last() =~= right@.take(j as int));
                assert(right@.take(j + 1).last() == x);
                assert(merged@.drop_last() =~= before);
                assert forall|m: int, k: int|
                    0 <= m < merged@.len() && i <= k < left@.len() implies precedes(
                    counts@,
                    #[trigger] merged@[m],
                    #[trigger] left@[k],
                ) by {
                    if m == before.len() {
                        assert(left@[i as int] != right@[j as int]);
                        assert(precedes(counts@, right@[j as int], left@[i as int]));
                        if k > i {
                            assert(precedes(counts@, left@[i as int], left@[k]));
                        }
                    } else {
                        assert(merged@[m] == before[m]);
                    }
                }
                assert forall|m: int, k: int|
                    0 <= m < merged@.len() && j + 1 <= k < right@.len() implies precedes(
                    counts@,
                    #[trigger] merged@[m],
                    #[trigger] right@[k],
                ) by {
                    if m == before.len() {
                        assert(precedes(counts@, right@[j as int], right@[k]));
                    } else {
                        assert(merged@[m] == before[m]);
                    }
                }
                assert forall|a: int, b: int| 0 <= a < b < merged@.len() implies precedes(
                    counts@,
                    #[trigger] merged@[a],
                    #[trigger] merged@[b],
                ) by {
                    assert(merged@[a] == before[a]);
                    if b == before.len() {
                        assert(precedes(counts@, before[a], right@[j as int]));
                    } else {
                        assert(merged@[b] == before[b]);
                    }
                }
                assert forall|y: usize| #[trigger]
                    merged@.contains(y) <==> left@.take(i as int).contains(y) || right@.take(
                        j + 1,
                    ).contains(y) by {
                    lemma_contains_push(before, x, y);
                    lemma_contains_push(right@.take(j as int), x, y);
                    assert(merged@ == before.push(x));
                    assert(right@.take(j + 1) =~= right@.take(j as int).push(x));
                }
            }
            j += 1;
        }
    }
    proof {
        assert(left@.take(i as int) =~= left@);
        assert(right@.take(j as int) =~= right@);
    }
    merged
}

/// A list with one more entry at its end holds what it held and that entry.
proof fn lemma_contains_push(list: Seq<usize>, x: usize, y: usize)
    ensures
        list.push(x).contains(y) <==> list.contains(y) || y == x,
{
    let longer = list.push(x);
    if list.contains(y) {
        let i = choose|i: int| 0 <= i < list.len() && list[i] == y;
        assert(longer[i] == y);
    }
    if y == x {
        assert(longer[list.len() as int] == y);
    }
    if longer.contains(y) {
        let i = choose|i: int| 0 <= i < longer.len() && longer[i] == y;
        if i < list.len() {
            assert(list[i] == y);
        }
    }
}

/// The vertices `lo..hi` in ranking order.
fn rank_range(counts: &Vec<usize>, lo: usize, hi: usize) -> (run: Vec<usize>)
    requires
        lo <= hi <= counts@.len(),
    ensures
        in_order(run@, counts@),
        run@.len() == hi - lo,
        forall|x: usize| #[trigger] run@.contains(x) <==> lo <= x < hi,
        picked(run@, counts@) == total(counts@.subrange(lo as int, hi as int)),
    decreases hi - lo,
{
    if hi - lo == 0 {
        let run: Vec<usize> = Vec::new();
        proof {
            assert forall|x: usize| #[trigger] run@.contains(x) <==> lo <= x < hi by {}
        }
        run
    } else if hi - lo == 1 {
        let mut run: Vec<usize> = Vec::new();
        run.push(lo);
        proof {
            assert(run@[0] == lo);
            assert(run@.drop_last() =~= Seq::<usize>::empty());
            let one = counts@.subrange(lo as int, hi as int);
            assert(one.drop_last() =~= Seq::<usize>::empty());
            assert(one.last() == counts@[lo as int]);
            assert(total(one.drop_last()) == 0);
            assert(picked(run@.drop_last(), counts@) == 0);
        }
        run
    } else {
        let mid = lo + (hi - lo) / 2;
        let left = rank_range(counts, lo, mid);
        let right = rank_range(counts, mid, hi);
        proof {
            assert forall|i: int| 0 <= i < left@.len() implies (#[trigger] left@[i])
                < counts@.len() by {
                assert(left@.contains(left@[i]));
            }
            assert forall|j: int| 0 <= j < right@.len() implies (#[trigger] right@[j])
                < counts@.len() by {
                assert(right@.contains(right@[j]));
            }
            assert forall|i: int, j: int|
                0 <= i < left@.len() && 0 <= j < right@.len() implies #[trigger] left@[i]
                != #[trigger] right@[j] by {
                assert(left@.contains(left@[i]));
                assert(right@.contains(right@[j]));
            }
            lemma_total_concat(
                counts@.subrange(lo as int, mid as int),
                counts@.subrange(mid as int, hi as int),
            );
            assert(counts@.subrange(lo as int, mid as int) + counts@.subrange(
                mid as int,
                hi as int,
            ) =~= counts@.subrange(lo as int, hi as int));
        }
        merge_runs(&left, &right, counts)
    }
}

/// The number of choices that the walk at `current` picks from after the
/// draw `coin`.
pub fn pick_range(graph: &Graph, current: Vertex, coin: i32) -> (bound: usize)
    requires
        graph.well_formed(),
        current < graph.n,
    ensures
        bound == pick_bound(graph@.adj, current as int, coin),
        bound > 0,
{
    let degree = graph.degree(current);
    if coin == 1 || degree == 0 {
        graph.n
    } else {
        degree
    }
}

/// Where the walk at `current` goes after the draw `coin` and the pick
/// `pick`.
pub fn next_vertex(graph: &Graph, current: Vertex, coin: i32, pick: usize) -> (next: Vertex)
    requires
        graph.well_formed(),
        current < graph.n,
        pick < pick_bound(graph@.adj, current as int, coin),
    ensures
        next == moved(graph@.adj, current as int, coin, pick),
        next < graph.n,
{
    let degree = graph.degree(current);
    if coin == 1 || degree == 0 {
        pick
    } else {
        assert(graph@.adj[current as int][pick as int] < graph@.adj.len());
        graph.outedges[current][pick]
    }
}

/// One step of a walk: a draw from `1..=JUMP_ODDS`, then a pick among the
/// choices that this draw leaves.
fn step(graph: &Graph, rng: &mut StdRng, current: Vertex) -> (next: Vertex)
    requires
        graph.well_formed(),
        current < graph.n,
    ensures
        next < graph.n,
        (next, generator_state(*final(rng))) == stepped(
            graph@.adj,
            (current, generator_state(*old(rng))),
        ),
{
    let coin = draw_inclusive(rng, 1, JUMP_ODDS);
    let bound = pick_range(graph, current, coin);
    let pick = draw_index(rng, 0, bound as u64);
    next_vertex(graph, current, coin, pick as usize)
}

/// Runs the whole simulation and counts, for each vertex, the walks that end
/// at it.
fn tally(graph: &Graph, rng: &mut StdRng) -> (counts: Vec<usize>)
    requires
        graph.well_formed(),
        graph.n * WALKS_PER_VERTEX <= usize::MAX,
    ensures
        counts@ == tallied(
            graph@.adj,
            generator_state(*old(rng)),
            (graph.n * WALKS_PER_VERTEX) as nat,
        ).1,
        counts@.len() == graph.n,
        total(counts@) == graph.n * WALKS_PER_VERTEX,
{
    let n = graph.n;
    let ghost adj = graph@.adj;
    let ghost state = generator_state(*rng);
    let mut counts: Vec<usize> = Vec::new();
    let mut v: usize = 0;
    while v < n
        invariant
            v <= n,
            counts@.len() == v,
            forall|w: int| 0 <= w < v ==> (#[trigger] counts@[w]) == 0,
        decreases n - v,
    {
        counts.push(0);
        v += 1;
    }
    proof {
        assert(counts@ =~= Seq::new(adj.len(), |v: int| 0usize));
        lemma_total_zero(adj.len());
    }
    let mut i: usize = 0;
    while i < n
        invariant
            i <= n,
            n == graph.n,
            graph.well_formed(),
            adj == graph@.adj,
            n * WALKS_PER_VERTEX <= usize::MAX,
            counts@.len() == n,
            total(counts@) == i * WALKS_PER_VERTEX,
            tallied(adj, state, (i * WALKS_PER_VERTEX) as nat) == (generator_state(*rng), counts@),
        decreases n - i,
    {
        let mut w: usize = 0;
        while w < WALKS_PER_VERTEX
            invariant
                w <= WALKS_PER_VERTEX,
                i < n,
                n == graph.n,
                graph.well_formed(),
                adj == graph@.adj,
                n * WALKS_PER_VERTEX <= usize::MAX,
                counts@.len() == n,
                total(counts@) == i * WALKS_PER_VERTEX + w,
                tallied(adj, state, (i * WALKS_PER_VERTEX + w) as nat) == (
                    generator_state(*rng),
                    counts@,
                ),
            decreases WALKS_PER_VERTEX - w,
        {
            let mut current: usize = i;
            let ghost from = (current, generator_state(*rng));
            let mut s: usize = 0;
            while s < STEPS_PER_WALK
                invariant
                    s <= STEPS_PER_WALK,
                    current < n,
                    n == graph.n,
                    graph.well_formed(),
                    adj == graph@.adj,
                    (current, generator_state(*rng)) == walked(adj, from, s as nat),
                decreases STEPS_PER_WALK - s,
            {
                current = step(graph, rng, current);
                s += 1;
            }
            proof {
                lemma_total_bounds(counts@, current as int);
                lemma_total_bump(counts@, current as int);
            }
            counts[current] += 1;
            w += 1;
            proof {
                let walks = (i * WALKS_PER_VERTEX + w) as nat;
                assert((walks - 1) as nat == (i * WALKS_PER_VERTEX + (w - 1)) as nat);
                assert((walks - 1) / (WALKS_PER_VERTEX as int) == i) by {
                    assert(walks - 1 == i * 100 + (w - 1));
                }
                assert(tallied(adj, state, walks) == (generator_state(*rng), counts@));
            }
        }
        i += 1;
    }
    counts
}

/// The ranking of the vertices labelled `labels` by the counts `counts`:
/// each label with its count, by falling count, those of equal count in the
/// order of their vertices.
pub fn rank_by_count(labels: &Vec<String>, counts: &Vec<usize>) -> (ranking: Vec<(String, usize)>)
    requires
        labels@.len() == counts@.len(),
    ensures
        ranking@.len() == counts@.len(),
        ranks(ranking_order(counts@), counts@),
        entries(ranking@) == standings(label_views(labels@), counts@),
        total(counts_of(entries(ranking@))) == total(counts@),
{
    let n = counts.len();
    let order = rank_range(counts, 0, n);
    proof {
        assert forall|i: int| 0 <= i < order@.len() implies (#[trigger] order@[i]) < n by {
            assert(order@.contains(order@[i]));
        }
        assert(ranks(order@, counts@));
        lemma_ranks_unique(order@, ranking_order(counts@), counts@);
    }
    let mut ranking: Vec<(String, usize)> = Vec::new();
    let mut i: usize = 0;
    while i < n
        invariant
            i <= n,
            n == counts@.len(),
            n == labels@.len(),
            order@.len() == n,
            forall|k: int| 0 <= k < n ==> (#[trigger] order@[k]) < n,
            ranking@.len() == i,
            forall|k: int|
                0 <= k < i ==> (#[trigger] ranking@[k]).0@ == labels@[order@[k] as int]@
                    && ranking@[k].1 == counts@[order@[k] as int],
        decreases n - i,
    {
        let vertex = order[i];
        ranking.push((labels[vertex].clone(), counts[vertex]));
        i += 1;
    }
    proof {
        assert(entries(ranking@) =~= standings(label_views(labels@), counts@));
        lemma_picked_is_total(order@, counts@);
        assert(counts_of(entries(ranking@)) =~= Seq::new(
            order@.len(),
            |i: int| counts@[order@[i] as int],
        ));
        assert(counts@.subrange(0, n as int) =~= counts@);
    }
    ranking
}

/// The ranking of the vertices of `graph` by the simulation that the
/// generator made from `seed` drives: from each vertex in turn
/// `WALKS_PER_VERTEX` walks, each starting at that vertex and taking
/// `STEPS_PER_WALK` steps, each walk counted for the vertex at which it ends.
pub fn page_rank(graph: &Graph, seed: u64) -> (ranking: Vec<(String, usize)>)
    requires
        graph.well_formed(),
        graph.n * WALKS_PER_VERTEX <= usize::MAX,
    ensures
        ranking@.len() == graph.n,
        tally_of(graph@.adj, seed).len() == graph.n,
        ranks(ranking_order(tally_of(graph@.adj, seed)), tally_of(graph@.adj, seed)),
        entries(ranking@) == standings(graph@.labels, tally_of(graph@.adj, seed)),
        total(counts_of(entries(ranking@))) == graph.n * WALKS_PER_VERTEX,
        forall|i: int|
            0 <= i < ranking@.len() ==> (#[trigger] ranking@[i]).1 <= graph.n * WALKS_PER_VERTEX,
        forall|i: int, j: int|
            0 <= i <= j < ranking@.len() ==> (#[trigger] ranking@[i]).1 >= (
            #[trigger] ranking@[j]).1,
{
    let mut rng = seeded_generator(seed);
    let counts = tally(graph, &mut rng);
    let ranking = rank_by_count(&graph.vertex_labels, &counts);
    proof {
        lemma_standings(graph@.labels, counts@);
        assert forall|i: int, j: int| 0 <= i <= j < ranking@.len() implies (
        #[trigger] ranking@[i]).1 >= (#[trigger] ranking@[j]).1 by {
            assert(entries(ranking@)[i].1 == ranking@[i].1);
            assert(entries(ranking@)[j].1 == ranking@[j].1);
        }
        let ranked = counts_of(entries(ranking@));
        assert forall|i: int| 0 <= i < ranking@.len() implies (#[trigger] ranking@[i]).1 <= graph.n
            * WALKS_PER_VERTEX by {
            assert(entries(ranking@).len() == ranking@.len());
            assert(ranked[i] == ranking@[i].1);
            lemma_total_bounds(ranked, i);
        }
    }
    ranking
}

} // verus!
