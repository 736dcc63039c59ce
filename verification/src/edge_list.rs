//! Graphs from edge lists in text form: one edge on each line, the labels of
//! its two ends separated by a tab.

use vstd::prelude::*;
use vstd::hash_map::StringHashMap;
use vstd::string::StrSliceExecFns;
use crate::graph::Graph;
use crate::graph::connect;
use crate::graph::edge_names;
use crate::graph::ends_known;
use crate::graph::inverse_of;
use crate::graph::label_views;
use crate::graph::lemma_inverse_index_of;
use crate::graph::resolved;
use crate::graph::targets_from;

verus! {

/// Whether `c` is white space, that is, has the Unicode property
/// White_Space: the tab, the line feed and the three controls after it, the
/// space, the next-line control, and the spaces and separators beyond ASCII.
pub open spec fn white_space(c: char) -> bool {
    let code = c as u32;
    ||| 0x09 <= code <= 0x0D
    ||| code == 0x20
    ||| code == 0x85
    ||| code == 0xA0
    ||| code == 0x1680
    ||| 0x2000 <= code <= 0x200A
    ||| code == 0x2028
    ||| code == 0x2029
    ||| code == 0x202F
    ||| code == 0x205F
    ||| code == 0x3000
}

/// Whether `c` is white space.
pub fn is_space(c: char) -> (space: bool)
    ensures
        space == white_space(c),
{
    let code = c as u32;
    (0x09 <= code && code <= 0x0D) || code == 0x20 || code == 0x85 || code == 0xA0 || code
        == 0x1680 || (0x2000 <= code && code <= 0x200A) || code == 0x2028 || code == 0x2029
        || code == 0x202F || code == 0x205F || code == 0x3000
}

/// `text[from..to]` is `text` without the white space at its start and at its
/// end.
pub open spec fn trims_to(text: Seq<char>, from: int, to: int) -> bool {
    &&& 0 <= from <= to <= text.len()
    &&& forall|j: int| 0 <= j < from ==> white_space(#[trigger] text[j])
    &&& forall|j: int| to <= j < text.len() ==> white_space(#[trigger] text[j])
    &&& from < to ==> !white_space(text[from]) && !white_space(text[to - 1])
}

/// `text` without the white space at its start and at its end.
pub open spec fn trimmed(text: Seq<char>) -> Seq<char> {
    let (from, to) = choose|from: int, to: int| trims_to(text, from, to);
    text.subrange(from, to)
}

/// The one tab of `text` is at place `k`.
pub open spec fn splits_at(text: Seq<char>, k: int) -> bool {
    &&& 0 <= k < text.len()
    &&& text[k] == '\t'
    &&& forall|j: int| 0 <= j < text.len() && j != k ==> #[trigger] text[j] != '\t'
}

/// The two labels on a line: what stands before and after the one tab of the
/// line, once the white space at its start and end is taken off. A line with
/// no tab left, or with more than one, holds no edge.
pub open spec fn parsed_line(line: Seq<char>) -> Option<(Seq<char>, Seq<char>)> {
    let text = trimmed(line);
    if exists|k: int| splits_at(text, k) {
        let k = choose|k: int| splits_at(text, k);
        Some((text.take(k), text.skip(k + 1)))
    } else {
        None
    }
}

/// Bounds that trim a text give the trimmed text.
pub proof fn lemma_trimmed(text: Seq<char>, from: int, to: int)
    requires
        trims_to(text, from, to),
    ensures
        trimmed(text) == text.subrange(from, to),
{
    let (a, b) = choose|a: int, b: int| trims_to(text, a, b);
    assert(trims_to(text, a, b));
    if from < to {
        assert(!white_space(text[from]));
        assert(!white_space(text[to - 1]));
        assert(a < b) by {
            if a == b {
                assert(white_space(text[from]));
            }
        }
        assert(a == from) by {
            if a < from {
                assert(white_space(text[a]));
            }
            if from < a {
                assert(white_space(text[from]));
            }
        }
        assert(b == to) by {
            if b < to {
                assert(white_space(text[to - 1]));
            }
            if to < b {
                assert(white_space(text[b - 1]));
            }
        }
    } else {
        assert(a == b) by {
            if a < b {
                assert(white_space(text[a]));
            }
        }
        assert(text.subrange(a, b) =~= text.subrange(from, to));
    }
}

/// The characters of `line`.
fn characters(line: &str) -> (chars: Vec<char>)
    ensures
        chars@ == line@,
{
    let mut chars: Vec<char> = Vec::new();
    for c in it: line.chars()
        invariant
            chars@ == it.seq().take(it.index() as int),
            it.seq() == line@,
    {
        chars.push(c);
    }
    chars
}

/// The two labels on `line`, or `None` where the line does not hold exactly
/// two labels separated by a tab.
pub fn split_line(line: &str) -> (ends: Option<(String, String)>)
    ensures
        match ends {
            Some(pair) => parsed_line(line@) == Some((pair.0@, pair.1@)),
            None => parsed_line(line@) is None,
        },
{
    let chars = characters(line);
    let len = chars.len();
    let mut from: usize = 0;
    while from < len && is_space(chars[from])
        invariant
            from <= len,
            len == chars@.len(),
            forall|j: int| 0 <= j < from ==> white_space(#[trigger] chars@[j]),
        decreases len - from,
    {
        from += 1;
    }
    let mut to: usize = len;
    while to > from && is_space(chars[to - 1])
        invariant
            from <= to <= len,
            len == chars@.len(),
            forall|j: int| to <= j < len ==> white_space(#[trigger] chars@[j]),
        decreases to,
    {
        to -= 1;
    }
    let ghost text = chars@.subrange(from as int, to as int);
    proof {
        lemma_trimmed(chars@, from as int, to as int);
    }
    let mut tab: Option<usize> = None;
    let mut i: usize = from;
    while i < to
        invariant
            from <= i <= to <= len,
            len == chars@.len(),
            text == chars@.subrange(from as int, to as int),
            text == trimmed(line@),
            chars@ == line@,
            match tab {
                Some(k) => from <= k < i && chars@[k as int] == '\t' && forall|j: int|
                    from <= j < i && j != k ==> #[trigger] chars@[j] != '\t',
                None => forall|j: int| from <= j < i ==> #[trigger] chars@[j] != '\t',
            },
        decreases to - i,
    {
        if chars[i] == '\t' {
            match tab {
                Some(k) => {
                    proof {
                        assert forall|at: int| !splits_at(text, at) by {
                            if splits_at(text, at) {
                                assert(text[k - from] == '\t');
                                assert(text[i - from] == '\t');
                            }
                        }
                    }
                    return None;
                },
                None => {
                    tab = Some(i);
                },
            }
        }
        i += 1;
    }
    match tab {
        Some(k) => {
            proof {
                assert(splits_at(text, k - from)) by {
                    assert forall|j: int| 0 <= j < text.len() && j != k - from implies #[trigger] text[j]
                        != '\t' by {
                        assert(text[j] == chars@[j + from]);
                    }
                }
                let at = choose|at: int| splits_at(text, at);
                assert(at == k - from) by {
                    if at != k - from {
                        assert(text[k - from] != '\t');
                    }
                }
                assert(text.take(k - from) =~= line@.subrange(from as int, k as int));
                assert(text.skip(k - from + 1) =~= line@.subrange(k + 1, to as int));
            }
            let source = line.substring_char(from, k).to_owned();
            let target = line.substring_char(k + 1, to).to_owned();
            Some((source, target))
        },
        None => {
            proof {
                assert forall|at: int| !splits_at(text, at) by {
                    if splits_at(text, at) {
                        assert(text[at] == chars@[at + from]);
                    }
                }
            }
            None
        },
    }
}

/// A line that does not hold exactly two labels separated by a tab.
#[derive(Debug, Clone, Copy)]
pub struct MalformedLine {
    /// The number of the line, the first line being line 0.
    pub line: usize,
}

/// `labels`, with `name` added at its end unless it is there already.
pub open spec fn noted(labels: Seq<Seq<char>>, name: Seq<char>) -> Seq<Seq<char>> {
    if labels.contains(name) {
        labels
    } else {
        labels.push(name)
    }
}

/// The labels that occur in `pairs`, each once, in the order in which they
/// first occur; in a pair the source comes before the target.
pub open spec fn first_seen(pairs: Seq<(Seq<char>, Seq<char>)>) -> Seq<Seq<char>>
    decreases pairs.len(),
{
    if pairs.len() == 0 {
        Seq::empty()
    } else {
        noted(noted(first_seen(pairs.drop_last()), pairs.last().0), pairs.last().1)
    }
}

/// Every line of `lines` holds an edge.
pub open spec fn all_parse(lines: Seq<String>) -> bool {
    forall|k: int| 0 <= k < lines.len() ==> parsed_line((#[trigger] lines[k])@) is Some
}

/// The edges on the lines of `lines`.
pub open spec fn line_pairs(lines: Seq<String>) -> Seq<(Seq<char>, Seq<char>)> {
    Seq::new(lines.len(), |k: int| parsed_line(lines[k]@)->0)
}

/// Every label of a pair is among the labels seen.
pub proof fn lemma_first_seen_holds_ends(pairs: Seq<(Seq<char>, Seq<char>)>)
    ensures
        ends_known(pairs, first_seen(pairs)),
    decreases pairs.len(),
{
    if pairs.len() > 0 {
        let fewer = pairs.drop_last();
        lemma_first_seen_holds_ends(fewer);
        let before = first_seen(fewer);
        let with_source = noted(before, pairs.last().0);
        let seen = first_seen(pairs);
        assert forall|name: Seq<char>| before.contains(name) implies seen.contains(name) by {
            let i = choose|i: int| 0 <= i < before.len() && before[i] == name;
            assert(with_source[i] == name);
            assert(seen[i] == name);
        }
        assert(with_source.contains(pairs.last().0)) by {
            if !before.contains(pairs.last().0) {
                assert(with_source[before.len() as int] == pairs.last().0);
            }
        }
        assert(seen.contains(pairs.last().0)) by {
            let i = choose|i: int| 0 <= i < with_source.len() && with_source[i] == pairs.last().0;
            assert(seen[i] == pairs.last().0);
        }
        assert(seen.contains(pairs.last().1)) by {
            if !with_source.contains(pairs.last().1) {
                assert(seen[with_source.len() as int] == pairs.last().1);
            }
        }
        assert forall|j: int| 0 <= j < pairs.len() implies seen.contains((#[trigger] pairs[j]).0)
            && seen.contains(pairs[j].1) by {
            if j < fewer.len() {
                assert(fewer[j] == pairs[j]);
                assert(before.contains(fewer[j].0));
                assert(before.contains(fewer[j].1));
            }
        }
    }
}

/// Gives `name` the next free place in the list and the table, unless it has
/// a place already.
fn note(labels: &mut Vec<String>, table: &mut StringHashMap<usize>, name: &String)
    requires
        inverse_of(old(table)@, label_views(old(labels)@)),
    ensures
        inverse_of(final(table)@, label_views(final(labels)@)),
        label_views(final(labels)@) == noted(label_views(old(labels)@), name@),
{
    let ghost before = label_views(labels@);
    let ghost entries = table@;
    proof {
        lemma_inverse_index_of(entries, before, name@);
    }
    if !table.contains_key(name.as_str()) {
        let place = labels.len();
        table.insert(name.clone(), place);
        labels.push(name.clone());
        proof {
            let grown = label_views(labels@);
            assert(grown =~= before.push(name@));
            assert forall|i: int| 0 <= i < grown.len() implies table@.contains_key(
                #[trigger] grown[i],
            ) && table@[grown[i]] == i by {
                if i < before.len() {
                    assert(grown[i] == before[i]);
                    assert(entries.contains_key(before[i]));
                }
            }
            assert forall|key: Seq<char>| #[trigger]
                table@.contains_key(key) implies table@[key] < grown.len() && grown[table@[key] as int]
                == key by {
                if key != name@ {
                    assert(entries.contains_key(key));
                    assert(before[entries[key] as int] == key);
                }
            }
        }
    } else {
        proof {
            assert(label_views(labels@) =~= before);
        }
    }
}

impl Graph {
    /// The graph whose edges stand on `lines`, one on each line, in the order
    /// of the lines. Its vertices are the labels that occur, numbered in the
    /// order in which they first occur. Where some line holds no edge, the
    /// first such line is reported.
    pub fn from_lines(lines: &Vec<String>) -> (loaded: Result<Graph, MalformedLine>)
        ensures
            match loaded {
                Ok(g) => {
                    &&& all_parse(lines@)
                    &&& g.well_formed()
                    &&& g.well_labeled()
                    &&& g@.labels == first_seen(line_pairs(lines@))
                    &&& forall|u: int|
                        0 <= u < g.n ==> #[trigger] g@.adj[u] == targets_from(
                            resolved(line_pairs(lines@), g@.labels),
                            u,
                            g.n as int,
                        )
                },
                Err(e) => {
                    &&& e.line < lines@.len()
                    &&& parsed_line(lines@[e.line as int]@) is None
                    &&& all_parse(lines@.take(e.line as int))
                },
            },
    {
        let mut vertex_labels: Vec<String> = Vec::new();
        let mut vertex_indices: StringHashMap<usize> = StringHashMap::new();
        let mut edges: Vec<(String, String)> = Vec::new();
        let ghost pairs = line_pairs(lines@);
        let mut k: usize = 0;
        proof {
            assert(label_views(vertex_labels@) =~= first_seen(pairs.take(0)));
            assert(edge_names(edges@) =~= pairs.take(0));
        }
        while k < lines.len()
            invariant
                k <= lines@.len(),
                pairs == line_pairs(lines@),
                all_parse(lines@.take(k as int)),
                inverse_of(vertex_indices@, label_views(vertex_labels@)),
                label_views(vertex_labels@) == first_seen(pairs.take(k as int)),
                edge_names(edges@) == pairs.take(k as int),
            decreases lines@.len() - k,
        {
            match split_line(lines[k].as_str()) {
                Some((source, target)) => {
                    note(&mut vertex_labels, &mut vertex_indices, &source);
                    note(&mut vertex_labels, &mut vertex_indices, &target);
                    let ghost named = edge_names(edges@);
                    edges.push((source, target));
                    proof {
                        assert(pairs.take(k + 1).drop_last() =~= pairs.take(k as int));
                        assert(pairs.take(k + 1).last() == (source@, target@));
                        assert(edge_names(edges@) =~= named.push((source@, target@)));
                        assert(edge_names(edges@) =~= pairs.take(k + 1));
                        assert forall|j: int| 0 <= j < k + 1 implies parsed_line(
                            (#[trigger] lines@.take(k + 1)[j])@,
                        ) is Some by {
                            if j < k {
                                assert(lines@.take(k as int)[j] == lines@[j]);
                            }
                        }
                    }
                },
                None => {
                    return Err(MalformedLine { line: k });
                },
            }
            k += 1;
        }
        proof {
            assert(lines@.take(k as int) =~= lines@);
            assert(pairs.take(k as int) =~= pairs);
            lemma_first_seen_holds_ends(pairs);
        }
        Ok(connect(vertex_labels, vertex_indices, &edges))
    }
}

} // verus!
