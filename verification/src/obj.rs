//! The records of a mesh description and what each contributes to a mesh.
//!
//! A description is a text of lines. A line that ends in a backslash
//! continues on the next. The first word of a line names its record:
//! `v x y z [w]` is a vertex, `l i j ...` a polyline and `f i j ...` or
//! `fo i j ...` a polygon through the vertices with those numbers, counted
//! from one in the order of the text. Every other line is skipped.

use vstd::prelude::*;
use vstd::relations::{sorted_by, total_ordering};
use vstd::seq_lib::lemma_sorted_unique;
use crate::number::{coordinate_value, index_value, parse_coordinate, parse_index};
use crate::text::{copy_range, find, joined, lines, rows, scan, split_words, words, Mark};
use crate::three::Point;

verus! {

/// What one line contributes.
pub enum Record {
    /// A vertex.
    Vertex(Point),
    /// A path through the vertices with the given numbers, counted from
    /// zero; a closed path returns from its last vertex to its first.
    Path { through: Seq<usize>, closed: bool },
    /// Nothing: an empty line, a comment or a record of another kind.
    Nothing,
}

/// The vertex that a word refers to, counted from zero: the word up to its
/// first slash is the number of the vertex, counted from one.
pub open spec fn reference(word: Seq<char>) -> Option<usize> {
    match index_value(word.subrange(0, scan(word, 0, Mark::Slash))) {
        Some(n) => if n >= 1 {
            Some((n - 1) as usize)
        } else {
            None
        },
        None => None,
    }
}

/// The vertices that the words refer to; nothing if one of them is no
/// reference.
pub open spec fn references(words: Seq<Seq<char>>) -> Option<Seq<usize>>
    decreases words.len(),
{
    if words.len() == 0 {
        Some(Seq::empty())
    } else {
        match (references(words.drop_last()), reference(words.last())) {
            (Some(before), Some(last)) => Some(before.push(last)),
            _ => None,
        }
    }
}

/// The vertex that the words after `v` write: three coordinates, and
/// perhaps a fourth word, which is not read.
pub open spec fn vertex(fields: Seq<Seq<char>>) -> Option<Point> {
    if fields.len() == 3 || fields.len() == 4 {
        match (
            coordinate_value(fields[0]),
            coordinate_value(fields[1]),
            coordinate_value(fields[2]),
        ) {
            (Some(x), Some(y), Some(z)) => Some(Point { x: x as i64, y: y as i64, z: z as i64 }),
            _ => None,
        }
    } else {
        None
    }
}

/// The record that a line writes; nothing if the line is malformed.
pub open spec fn record(line: Seq<char>) -> Option<Record> {
    let w = words(line);
    if w.len() == 0 {
        Some(Record::Nothing)
    } else if w[0] == seq!['v'] {
        match vertex(w.skip(1)) {
            Some(p) => Some(Record::Vertex(p)),
            None => None,
        }
    } else if w[0] == seq!['l'] {
        match references(w.skip(1)) {
            Some(through) => Some(Record::Path { through, closed: false }),
            None => None,
        }
    } else if w[0] == seq!['f'] || w[0] == seq!['f', 'o'] {
        match references(w.skip(1)) {
            Some(through) => Some(Record::Path { through, closed: true }),
            None => None,
        }
    } else {
        Some(Record::Nothing)
    }
}

/// An edge between two vertices, written with the lower number first.
pub open spec fn canonical(a: usize, b: usize) -> (usize, usize) {
    if a <= b {
        (a, b)
    } else {
        (b, a)
    }
}

/// The edges of a path: one between each vertex and the next, and for a
/// closed path one from the last back to the first. A path through fewer
/// than two vertices has none.
pub open spec fn path_edges(through: Seq<usize>, closed: bool) -> Seq<(usize, usize)> {
    if through.len() < 2 {
        Seq::empty()
    } else {
        let along = Seq::new(
            (through.len() - 1) as nat,
            |k: int| canonical(through[k], through[k + 1]),
        );
        if closed {
            along.push(canonical(through.last(), through.first()))
        } else {
            along
        }
    }
}

/// What the lines read so far have contributed.
pub struct Outline {
    /// The vertices, in the order of the text.
    pub vertices: Seq<Point>,
    /// The edges of all paths, in the order of the text.
    pub edges: Seq<(usize, usize)>,
    /// Every reference to a vertex, in the order of the text.
    pub references: Seq<usize>,
}

impl Outline {
    /// The outline with what `record` contributes.
    pub open spec fn with(self, record: Record) -> Outline {
        match record {
            Record::Vertex(p) => Outline { vertices: self.vertices.push(p), ..self },
            Record::Path { through, closed } => Outline {
                edges: self.edges + path_edges(through, closed),
                references: self.references + through,
                ..self
            },
            Record::Nothing => self,
        }
    }

    /// Every reference names a vertex that the text holds.
    pub open spec fn resolves(self) -> bool {
        forall|k: int|
            0 <= k < self.references.len() ==> (#[trigger] self.references[k]) < self.vertices.len()
    }
}

/// What the lines contribute together; nothing if one of them is
/// malformed.
pub open spec fn outline(lines: Seq<Seq<char>>) -> Option<Outline>
    decreases lines.len(),
{
    if lines.len() == 0 {
        Some(Outline { vertices: Seq::empty(), edges: Seq::empty(), references: Seq::empty() })
    } else {
        match (outline(lines.drop_last()), record(lines.last())) {
            (Some(before), Some(last)) => Some(before.with(last)),
            _ => None,
        }
    }
}

/// What a mesh description holds: the outline of its lines, once continued
/// lines are joined; nothing if a line is malformed or a reference names
/// a vertex that the text does not hold.
pub open spec fn described(code: Seq<char>) -> Option<Outline> {
    match outline(lines(joined(code))) {
        Some(o) => if o.resolves() {
            Some(o)
        } else {
            None
        },
        None => None,
    }
}

/// The order of edges: by the first vertex, and by the second where the
/// first is the same.
pub open spec fn edge_leq(a: (usize, usize), b: (usize, usize)) -> bool {
    a.0 < b.0 || (a.0 == b.0 && a.1 <= b.1)
}

/// [`edge_leq`] as a relation.
pub open spec fn edge_order() -> spec_fn((usize, usize), (usize, usize)) -> bool {
    |a: (usize, usize), b: (usize, usize)| edge_leq(a, b)
}

/// The sequence without the elements that repeat the one before them.
pub open spec fn without_repeats(s: Seq<(usize, usize)>) -> Seq<(usize, usize)>
    decreases s.len(),
{
    if s.len() == 0 {
        s
    } else {
        let before = without_repeats(s.drop_last());
        if before.len() > 0 && before.last() == s.last() {
            before
        } else {
            before.push(s.last())
        }
    }
}

/// The edges in order, each once.
pub open spec fn edge_list(edges: Seq<(usize, usize)>) -> Seq<(usize, usize)> {
    without_repeats(edges.sort_by(edge_order()))
}

/// The edges with the vertices in place of their numbers.
pub open spec fn resolved(edges: Seq<(usize, usize)>, vertices: Seq<Point>) -> Seq<(Point, Point)> {
    Seq::new(edges.len(), |i: int| (vertices[edges[i].0 as int], vertices[edges[i].1 as int]))
}

/// The order of edges is total.
pub proof fn lemma_edge_order_total()
    ensures
        total_ordering(edge_order()),
{
    let r = edge_order();
    assert(vstd::relations::reflexive(r));
    assert(vstd::relations::antisymmetric(r));
    assert(vstd::relations::transitive(r));
    assert(vstd::relations::strongly_connected(r));
}

/// Once a line is malformed, the text is.
pub proof fn lemma_outline_fails(lines: Seq<Seq<char>>, k: int)
    requires
        0 <= k <= lines.len(),
        outline(lines.take(k)) is None,
    ensures
        outline(lines) is None,
    decreases lines.len() - k,
{
    if k == lines.len() {
        assert(lines.take(k) =~= lines);
    } else {
        assert(lines.take(k + 1).drop_last() =~= lines.take(k));
        lemma_outline_fails(lines, k + 1);
    }
}

/// Once a word is no reference, the words are none.
pub proof fn lemma_references_fail(words: Seq<Seq<char>>, k: int)
    requires
        0 <= k <= words.len(),
        references(words.take(k)) is None,
    ensures
        references(words) is None,
    decreases words.len() - k,
{
    if k == words.len() {
        assert(words.take(k) =~= words);
    } else {
        assert(words.take(k + 1).drop_last() =~= words.take(k));
        lemma_references_fail(words, k + 1);
    }
}

/// Reads a reference: computes [`reference`].
pub fn parse_reference(word: &Vec<char>) -> (vertex: Option<usize>)
    ensures
        vertex == reference(word@),
{
    let end = find(word, 0, Mark::Slash);
    let head = copy_range(word, 0, end);
    match parse_index(&head) {
        Some(n) => if n >= 1 {
            Some(n - 1)
        } else {
            None
        },
        None => None,
    }
}

/// Reads the references of a path from the words after the first: computes
/// [`references`].
pub fn parse_path(words: &Vec<Vec<char>>) -> (through: Option<Vec<usize>>)
    requires
        words@.len() >= 1,
    ensures
        through is Some <==> references(rows(words@).skip(1)) is Some,
        through is Some ==> through->0@ == references(rows(words@).skip(1))->0,
{
    let ghost fields = rows(words@).skip(1);
    let mut through: Vec<usize> = Vec::new();
    let mut i: usize = 1;
    while i < words.len()
        invariant
            1 <= i <= words@.len(),
            fields == rows(words@).skip(1),
            references(fields.take(i - 1)) == Some(through@),
        decreases words@.len() - i,
    {
        let ghost longer = fields.take(i as int);
        assert(longer.drop_last() =~= fields.take(i - 1));
        assert(longer.last() == words@[i as int]@);
        match parse_reference(&words[i]) {
            Some(vertex) => {
                through.push(vertex);
            },
            None => {
                proof {
                    lemma_references_fail(fields, i as int);
                }
                return None;
            },
        }
        i += 1;
    }
    assert(fields.take(i - 1) =~= fields);
    Some(through)
}

/// Reads a vertex from the words after the first: computes [`vertex`].
pub fn parse_vertex(words: &Vec<Vec<char>>) -> (point: Option<Point>)
    requires
        words@.len() >= 1,
    ensures
        point == vertex(rows(words@).skip(1)),
{
    let ghost fields = rows(words@).skip(1);
    if words.len() != 4 && words.len() != 5 {
        return None;
    }
    assert(fields[0] == words@[1]@ && fields[1] == words@[2]@ && fields[2] == words@[3]@);
    match (parse_coordinate(&words[1]), parse_coordinate(&words[2]), parse_coordinate(&words[3])) {
        (Some(x), Some(y), Some(z)) => Some(Point::new(x, y, z)),
        _ => None,
    }
}

/// Whether a word is the single character `c`.
fn spells(word: &Vec<char>, c: char) -> (same: bool)
    ensures
        same == (word@ == seq![c]),
{
    if word.len() == 1 && word[0] == c {
        assert(word@ =~= seq![c]);
        true
    } else {
        assert(seq![c].len() == 1 && seq![c][0] == c);
        false
    }
}

/// Whether a word is the two characters `c` and `d`.
fn spells_two(word: &Vec<char>, c: char, d: char) -> (same: bool)
    ensures
        same == (word@ == seq![c, d]),
{
    if word.len() == 2 && word[0] == c && word[1] == d {
        assert(word@ =~= seq![c, d]);
        true
    } else {
        assert(seq![c, d].len() == 2 && seq![c, d][0] == c && seq![c, d][1] == d);
        false
    }
}

/// Computes [`canonical`].
fn ordered(a: usize, b: usize) -> (edge: (usize, usize))
    ensures
        edge == canonical(a, b),
{
    if a <= b {
        (a, b)
    } else {
        (b, a)
    }
}

/// Appends the edges of a path to `edges`: see [`path_edges`].
pub fn push_path_edges(edges: &mut Vec<(usize, usize)>, through: &Vec<usize>, closed: bool)
    ensures
        final(edges)@ == old(edges)@ + path_edges(through@, closed),
{
    if through.len() < 2 {
        assert(edges@ + path_edges(through@, closed) =~= edges@);
        return ;
    }
    let ghost along = Seq::new(
        (through@.len() - 1) as nat,
        |k: int| canonical(through@[k], through@[k + 1]),
    );
    let mut start: usize = 0;
    assert(old(edges)@ + along.take(0) =~= edges@);
    while start < through.len() - 1
        invariant
            through@.len() >= 2,
            start <= through@.len() - 1,
            along == Seq::new(
                (through@.len() - 1) as nat,
                |k: int| canonical(through@[k], through@[k + 1]),
            ),
            edges@ == old(edges)@ + along.take(start as int),
        decreases through@.len() - start,
    {
        let end: usize = start + 1;
        edges.push(ordered(through[start], through[end]));
        assert(edges@ =~= old(edges)@ + along.take(start + 1));
        start += 1;
    }
    assert(along.take(start as int) =~= along);
    if closed {
        edges.push(ordered(through[through.len() - 1], through[0]));
        assert(edges@ =~= old(edges)@ + along.push(
            canonical(through@.last(), through@.first()),
        ));
    }
}

/// The greatest of `highest` and the elements of `through`.
fn highest_of(through: &Vec<usize>, highest: usize) -> (top: usize)
    ensures
        top >= highest,
        forall|k: int| 0 <= k < through@.len() ==> through@[k] <= top,
        top == highest || exists|k: int| 0 <= k < through@.len() && through@[k] == top,
{
    let mut top: usize = highest;
    let mut i: usize = 0;
    while i < through.len()
        invariant
            i <= through@.len(),
            top >= highest,
            forall|k: int| 0 <= k < i ==> through@[k] <= top,
            top == highest || exists|k: int| 0 <= k < i && through@[k] == top,
        decreases through@.len() - i,
    {
        if through[i] > top {
            top = through[i];
        }
        i += 1;
    }
    top
}

/// The vertices and the edges of a mesh description, the edges as pairs of
/// vertex numbers, counted from zero.
pub struct Description {
    pub vertices: Vec<Point>,
    pub edges: Vec<(usize, usize)>,
}

/// Every end of an edge is below `n`.
pub open spec fn edges_within(edges: Seq<(usize, usize)>, n: int) -> bool {
    forall|k: int| 0 <= k < edges.len() ==> (#[trigger] edges[k]).0 < n && edges[k].1 < n
}

/// The ends of the edges of a path are vertices of the path.
proof fn lemma_path_edges_within(through: Seq<usize>, closed: bool, top: usize)
    requires
        forall|k: int| 0 <= k < through.len() ==> through[k] <= top,
    ensures
        edges_within(path_edges(through, closed), top + 1),
{
    let edges = path_edges(through, closed);
    assert forall|k: int| 0 <= k < edges.len() implies (#[trigger] edges[k]).0 < top + 1
        && edges[k].1 < top + 1 by {
        if k < through.len() - 1 {
            assert(edges[k] == canonical(through[k], through[k + 1]));
        } else {
            assert(edges[k] == canonical(through.last(), through.first()));
        }
    }
}

/// Reads the lines of a mesh description. Gives the vertices and the edges
/// of all paths in the order of the text, or nothing if a line is malformed
/// or a reference names a vertex that the text does not hold.
pub fn read_outline(lines: &Vec<Vec<char>>) -> (read: Option<Description>)
    ensures
        read is Some <==> outline(rows(lines@)) is Some && outline(rows(lines@))->0.resolves(),
        read is Some ==> read->0.vertices@ == outline(rows(lines@))->0.vertices,
        read is Some ==> read->0.edges@ == outline(rows(lines@))->0.edges,
        read is Some ==> edges_within(read->0.edges@, read->0.vertices@.len() as int),
{
    let ghost text = rows(lines@);
    let mut vertices: Vec<Point> = Vec::new();
    let mut edges: Vec<(usize, usize)> = Vec::new();
    // The greatest reference met so far, if any was met.
    let mut highest: usize = 0;
    let mut referred: bool = false;
    let ghost mut references: Seq<usize> = Seq::empty();

    let mut i: usize = 0;
    assert(text.take(0) =~= Seq::<Seq<char>>::empty());
    while i < lines.len()
        invariant
            i <= lines@.len(),
            text == rows(lines@),
            outline(text.take(i as int)) == Some(
                Outline { vertices: vertices@, edges: edges@, references },
            ),
            forall|k: int| 0 <= k < references.len() ==> references[k] <= highest,
            referred ==> exists|k: int| 0 <= k < references.len() && references[k] == highest,
            !referred ==> references.len() == 0 && edges@.len() == 0 && highest == 0,
            edges_within(edges@, highest + 1),
        decreases lines@.len() - i,
    {
        let ghost before = Outline { vertices: vertices@, edges: edges@, references };
        let ghost longer = text.take(i + 1);
        assert(longer.drop_last() =~= text.take(i as int));
        assert(longer.last() == lines@[i as int]@);
        let ghost line = lines@[i as int]@;
        let words = split_words(&lines[i]);
        let ghost contribution: Record;
        if words.len() == 0 {
            proof {
                contribution = Record::Nothing;
            }
        } else if spells(&words[0], 'v') {
            match parse_vertex(&words) {
                Some(point) => {
                    vertices.push(point);
                    proof {
                        contribution = Record::Vertex(point);
                    }
                },
                None => {
                    assert(record(line) is None);
                    proof {
                        lemma_outline_fails(text, i + 1);
                    }
                    return None;
                },
            }
        } else {
            let polyline = spells(&words[0], 'l');
            let polygon = spells(&words[0], 'f') || spells_two(&words[0], 'f', 'o');
            if polyline || polygon {
                assert(seq!['l'] != seq!['f'] && seq!['l'] != seq!['f', 'o']) by {
                    assert(seq!['l'][0] == 'l' && seq!['f'][0] == 'f' && seq!['f', 'o'][0] == 'f');
                }
                match parse_path(&words) {
                    Some(through) => {
                        let top = highest_of(&through, highest);
                        proof {
                            lemma_path_edges_within(through@, polygon, top);
                            let grown = references + through@;
                            assert forall|k: int| 0 <= k < grown.len() implies grown[k] <= top by {
                                if k >= references.len() {
                                    assert(grown[k] == through@[k - references.len()]);
                                }
                            }
                            if through@.len() > 0 {
                                if top == highest && referred {
                                    let w = choose|k: int|
                                        0 <= k < references.len() && references[k] == highest;
                                    assert(grown[w] == top);
                                } else if top == highest {
                                    assert(through@[0] <= top);
                                    assert(grown[references.len() as int] == top);
                                } else {
                                    let w = choose|k: int|
                                        0 <= k < through@.len() && through@[k] == top;
                                    assert(grown[references.len() + w] == top);
                                }
                            } else {
                                assert(grown =~= references);
                            }
                            references = grown;
                            contribution = Record::Path { through: through@, closed: polygon };
                        }
                        if through.len() > 0 {
                            highest = top;
                            referred = true;
                        }
                        push_path_edges(&mut edges, &through, polygon);
                        assert(edges_within(edges@, highest + 1)) by {
                            let added = path_edges(through@, polygon);
                            assert forall|k: int| 0 <= k < edges@.len() implies (
                            #[trigger] edges@[k]).0 < highest + 1 && edges@[k].1 < highest + 1 by {
                                if k < before.edges.len() {
                                    assert(edges@[k] == before.edges[k]);
                                } else {
                                    assert(edges@[k] == added[k - before.edges.len()]);
                                    assert(added.len() > 0);
                                }
                            }
                        }
                    },
                    None => {
                        assert(record(line) is None);
                        proof {
                            lemma_outline_fails(text, i + 1);
                        }
                        return None;
                    },
                }
            } else {
                proof {
                    contribution = Record::Nothing;
                }
            }
        }
        assert(record(line) == Some(contribution));
        assert(outline(longer) == Some(before.with(contribution)));
        i += 1;
    }
    assert(text.take(i as int) =~= text);
    if referred && highest >= vertices.len() {
        proof {
            let w = choose|k: int| 0 <= k < references.len() && references[k] == highest;
            let o = outline(text)->0;
            assert(o.references[w] >= o.vertices.len());
            assert(!o.resolves());
        }
        return None;
    }
    Some(Description { vertices, edges })
}

/// No edge of the sequence comes before an earlier one, and none repeats
/// one.
pub open spec fn strictly_increasing(s: Seq<(usize, usize)>) -> bool {
    forall|i: int, j: int|
        #![trigger s[i], s[j]]
        0 <= i < j < s.len() ==> edge_leq(s[i], s[j]) && s[i] != s[j]
}

/// Dropping the repeats from edges in order leaves the same edges, each
/// once, and leaves them in order.
pub proof fn lemma_without_repeats(s: Seq<(usize, usize)>)
    requires
        sorted_by(s, edge_order()),
    ensures
        strictly_increasing(without_repeats(s)),
        forall|e: (usize, usize)| without_repeats(s).contains(e) <==> s.contains(e),
        s.len() > 0 ==> without_repeats(s).len() > 0 && without_repeats(s).last() == s.last(),
    decreases s.len(),
{
    let r = without_repeats(s);
    if s.len() > 0 {
        let shorter = s.drop_last();
        let before = without_repeats(shorter);
        let x = s.last();
        assert(sorted_by(shorter, edge_order())) by {
            assert forall|i: int, j: int| 0 <= i < j < shorter.len() implies #[trigger] edge_order()(
                shorter[i],
                shorter[j],
            ) by {
                assert(edge_order()(s[i], s[j]));
            }
        }
        lemma_without_repeats(shorter);
        assert forall|e: (usize, usize)| r.contains(e) <==> s.contains(e) by {
            if s.contains(e) {
                let k = choose|k: int| 0 <= k < s.len() && s[k] == e;
                if k < shorter.len() {
                    assert(shorter[k] == e);
                    assert(shorter.contains(e));
                    assert(before.contains(e));
                    let m = choose|m: int| 0 <= m < before.len() && before[m] == e;
                    assert(r[m] == e);
                } else {
                    assert(r.last() == e);
                    assert(r[r.len() - 1] == e);
                }
            }
            if r.contains(e) {
                let m = choose|m: int| 0 <= m < r.len() && r[m] == e;
                if m < before.len() {
                    assert(before[m] == e);
                    assert(before.contains(e));
                    assert(shorter.contains(e));
                    let k = choose|k: int| 0 <= k < shorter.len() && shorter[k] == e;
                    assert(s[k] == e);
                } else {
                    assert(s[s.len() - 1] == e);
                }
            }
        }
        if !(before.len() > 0 && before.last() == x) {
            assert forall|i: int, j: int| 0 <= i < j < r.len() implies edge_leq(r[i], r[j]) && r[i]
                != r[j] by {
                if j == r.len() - 1 {
                    let top = before[before.len() - 1];
                    assert(r[j] == x);
                    assert(r[i] == before[i]);
                    assert(shorter.len() > 0);
                    assert(top == shorter[shorter.len() - 1]);
                    assert(edge_order()(s[shorter.len() - 1], s[s.len() - 1]));
                    assert(edge_leq(top, x));
                    assert(top != x);
                    if i < before.len() - 1 {
                        assert(edge_leq(before[i], top) && before[i] != top);
                    }
                    assert(edge_leq(before[i], x));
                    assert(before[i] != x);
                } else {
                    assert(r[i] == before[i] && r[j] == before[j]);
                }
            }
        }
    }
}

/// The edge list holds each edge of the text once, whichever way round and
/// however often the text holds it.
pub proof fn lemma_edge_list_is_a_set(edges: Seq<(usize, usize)>)
    ensures
        strictly_increasing(edge_list(edges)),
        edge_list(edges).no_duplicates(),
        forall|e: (usize, usize)| edge_list(edges).contains(e) <==> edges.contains(e),
{
    broadcast use vstd::seq_lib::group_to_multiset_ensures;

    lemma_edge_order_total();
    edges.lemma_sort_by_ensures(edge_order());
    let sorted = edges.sort_by(edge_order());
    lemma_without_repeats(sorted);
    assert forall|e: (usize, usize)| sorted.contains(e) <==> edges.contains(e) by {
        assert(sorted.to_multiset().count(e) == edges.to_multiset().count(e));
    }
    let list = edge_list(edges);
    assert forall|i: int, j: int| 0 <= i < list.len() && 0 <= j < list.len() && i != j implies list[i]
        != list[j] by {
        if i < j {
            assert(edge_leq(list[i], list[j]) && list[i] != list[j]);
        } else {
            assert(edge_leq(list[j], list[i]) && list[j] != list[i]);
        }
    }
}

/// Every edge of a path has its lower vertex first.
pub proof fn lemma_path_edges_canonical(through: Seq<usize>, closed: bool)
    ensures
        forall|k: int|
            0 <= k < path_edges(through, closed).len() ==> (#[trigger] path_edges(
                through,
                closed,
            )[k]).0 <= path_edges(through, closed)[k].1,
{
    let edges = path_edges(through, closed);
    assert forall|k: int| 0 <= k < edges.len() implies (#[trigger] edges[k]).0 <= edges[k].1 by {
        if k < through.len() - 1 {
            assert(edges[k] == canonical(through[k], through[k + 1]));
        } else {
            assert(edges[k] == canonical(through.last(), through.first()));
        }
    }
}

/// Every edge of an outline has its lower vertex first.
pub proof fn lemma_outline_edges_canonical(lines: Seq<Seq<char>>)
    requires
        outline(lines) is Some,
    ensures
        forall|k: int|
            0 <= k < outline(lines)->0.edges.len() ==> (#[trigger] outline(lines)->0.edges[k]).0
                <= outline(lines)->0.edges[k].1,
    decreases lines.len(),
{
    if lines.len() > 0 {
        lemma_outline_edges_canonical(lines.drop_last());
        let before = outline(lines.drop_last())->0;
        match record(lines.last())->0 {
            Record::Path { through, closed } => {
                lemma_path_edges_canonical(through, closed);
                let added = path_edges(through, closed);
                let edges = outline(lines)->0.edges;
                assert forall|k: int| 0 <= k < edges.len() implies (#[trigger] edges[k]).0
                    <= edges[k].1 by {
                    if k < before.edges.len() {
                        assert(edges[k] == before.edges[k]);
                    } else {
                        assert(edges[k] == added[k - before.edges.len()]);
                    }
                }
            },
            _ => {},
        }
    }
}

/// The edge list of a mesh description holds no edge twice, neither the
/// same way round nor the other.
pub proof fn lemma_no_edge_twice(code: Seq<char>)
    requires
        described(code) is Some,
    ensures
        ({
            let list = edge_list(described(code)->0.edges);
            forall|i: int, j: int|
                #![trigger list[i], list[j]]
                0 <= i < list.len() && 0 <= j < list.len() && i != j ==> list[i] != list[j]
                    && list[i] != (list[j].1, list[j].0)
        }),
{
    let edges = described(code)->0.edges;
    let list = edge_list(edges);
    lemma_outline_edges_canonical(lines(joined(code)));
    lemma_edge_list_is_a_set(edges);
    assert forall|i: int, j: int|
        #![trigger list[i], list[j]]
        0 <= i < list.len() && 0 <= j < list.len() && i != j implies list[i] != list[j] && list[i]
            != (list[j].1, list[j].0) by {
        assert(list.contains(list[i]) && list.contains(list[j]));
        assert(edges.contains(list[i]) && edges.contains(list[j]));
        let a = choose|a: int| 0 <= a < edges.len() && edges[a] == list[i];
        let b = choose|b: int| 0 <= b < edges.len() && edges[b] == list[j];
        assert(edges[a].0 <= edges[a].1 && edges[b].0 <= edges[b].1);
    }
}

/// Computes [`edge_leq`].
fn comes_before(a: (usize, usize), b: (usize, usize)) -> (before: bool)
    ensures
        before == edge_leq(a, b),
{
    a.0 < b.0 || (a.0 == b.0 && a.1 <= b.1)
}

/// An edge that joins a sequence joins the sequences it was made of.
proof fn lemma_push_to_either(
    out: Seq<(usize, usize)>,
    left: Seq<(usize, usize)>,
    right: Seq<(usize, usize)>,
    edge: (usize, usize),
)
    requires
        out.to_multiset() == left.to_multiset().add(right.to_multiset()),
    ensures
        out.push(edge).to_multiset() == left.push(edge).to_multiset().add(right.to_multiset()),
        out.push(edge).to_multiset() == left.to_multiset().add(right.push(edge).to_multiset()),
{
    broadcast use vstd::multiset::group_multiset_axioms;

    vstd::seq_lib::to_multiset_build(out, edge);
    vstd::seq_lib::to_multiset_build(left, edge);
    vstd::seq_lib::to_multiset_build(right, edge);
    assert(left.to_multiset().add(right.to_multiset()).insert(edge) =~= left.to_multiset().insert(
        edge,
    ).add(right.to_multiset()));
    assert(left.to_multiset().add(right.to_multiset()).insert(edge) =~= left.to_multiset().add(
        right.to_multiset().insert(edge),
    ));
}

/// Merges two sequences of edges, each in order, into one in order.
fn merge(left: &Vec<(usize, usize)>, right: &Vec<(usize, usize)>) -> (out: Vec<(usize, usize)>)
    requires
        sorted_by(left@, edge_order()),
        sorted_by(right@, edge_order()),
    ensures
        sorted_by(out@, edge_order()),
        out@.to_multiset() == left@.to_multiset().add(right@.to_multiset()),
{
    let mut out: Vec<(usize, usize)> = Vec::new();
    let mut i: usize = 0;
    let mut j: usize = 0;
    assert(left@.take(0) =~= Seq::empty() && right@.take(0) =~= Seq::empty());
    assert(out@.to_multiset() =~= left@.take(0).to_multiset().add(right@.take(0).to_multiset())) by {
        broadcast use vstd::multiset::group_multiset_axioms;

        let nothing = Seq::<(usize, usize)>::empty();
        vstd::seq_lib::to_multiset_len(nothing);
        vstd::multiset::lemma_multiset_empty_len(nothing.to_multiset());
        assert(out@ =~= nothing);
    }
    while i < left.len() || j < right.len()
        invariant
            i <= left@.len(),
            j <= right@.len(),
            sorted_by(left@, edge_order()),
            sorted_by(right@, edge_order()),
            sorted_by(out@, edge_order()),
            forall|k: int, m: int|
                0 <= k < out@.len() && i <= m < left@.len() ==> edge_leq(
                    #[trigger] out@[k],
                    #[trigger] left@[m],
                ),
            forall|k: int, m: int|
                0 <= k < out@.len() && j <= m < right@.len() ==> edge_leq(
                    #[trigger] out@[k],
                    #[trigger] right@[m],
                ),
            out@.to_multiset() == left@.take(i as int).to_multiset().add(
                right@.take(j as int).to_multiset(),
            ),
        decreases (left@.len() - i) + (right@.len() - j),
    {
        let ghost before = out@;
        let from_left = j >= right.len() || (i < left.len() && comes_before(left[i], right[j]));
        if from_left {
            let edge = left[i];
            proof {
                assert(left@.take(i + 1) =~= left@.take(i as int).push(edge));
                assert forall|m: int| i <= m < left@.len() implies edge_leq(
                    edge,
                    #[trigger] left@[m],
                ) by {
                    if m > i {
                        assert(edge_order()(left@[i as int], left@[m]));
                    }
                }
                assert forall|m: int| j <= m < right@.len() implies edge_leq(
                    edge,
                    #[trigger] right@[m],
                ) by {
                    assert(edge_order()(right@[j as int], right@[m]) || m == j);
                }
            }
            out.push(edge);
            proof {
                assert(out@ =~= before.push(edge));
                lemma_push_to_either(before, left@.take(i as int), right@.take(j as int), edge);
            }
            i += 1;
        } else {
            let edge = right[j];
            proof {
                assert(right@.take(j + 1) =~= right@.take(j as int).push(edge));
                assert forall|m: int| j <= m < right@.len() implies edge_leq(
                    edge,
                    #[trigger] right@[m],
                ) by {
                    if m > j {
                        assert(edge_order()(right@[j as int], right@[m]));
                    }
                }
                assert forall|m: int| i <= m < left@.len() implies edge_leq(
                    edge,
                    #[trigger] left@[m],
                ) by {
                    assert(edge_order()(left@[i as int], left@[m]) || m == i);
                }
            }
            out.push(edge);
            proof {
                assert(out@ =~= before.push(edge));
                lemma_push_to_either(before, left@.take(i as int), right@.take(j as int), edge);
            }
            j += 1;
        }
        proof {
            assert forall|a: int, b: int| 0 <= a < b < out@.len() implies #[trigger] edge_order()(
                out@[a],
                out@[b],
            ) by {
                if b < before.len() {
                    assert(edge_order()(before[a], before[b]));
                } else {
                    assert(out@[a] == before[a]);
                }
            }
        }
    }
    assert(left@.take(i as int) =~= left@ && right@.take(j as int) =~= right@);
    out
}

/// The edges of `edges` from position `from` up to `to`, in order.
fn sorted_range(edges: &Vec<(usize, usize)>, from: usize, to: usize) -> (out: Vec<(usize, usize)>)
    requires
        from <= to <= edges@.len(),
    ensures
        sorted_by(out@, edge_order()),
        out@.to_multiset() == edges@.subrange(from as int, to as int).to_multiset(),
    decreases to - from,
{
    broadcast use vstd::seq_lib::group_to_multiset_ensures;

    let ghost range = edges@.subrange(from as int, to as int);
    if to - from == 0 {
        let out: Vec<(usize, usize)> = Vec::new();
        assert(out@ =~= range);
        return out;
    }
    if to - from == 1 {
        let mut out: Vec<(usize, usize)> = Vec::new();
        out.push(edges[from]);
        assert(out@ =~= range);
        return out;
    }
    let middle: usize = from + (to - from) / 2;
    let left = sorted_range(edges, from, middle);
    let right = sorted_range(edges, middle, to);
    proof {
        let first = edges@.subrange(from as int, middle as int);
        let second = edges@.subrange(middle as int, to as int);
        assert(range =~= first + second);
        vstd::seq_lib::lemma_multiset_commutative(first, second);
    }
    merge(&left, &right)
}

/// Puts the edges in order and drops the repeats: computes [`edge_list`].
pub fn list_edges(edges: Vec<(usize, usize)>) -> (list: Vec<(usize, usize)>)
    ensures
        list@ == edge_list(edges@),
{
    let sorted = sorted_range(&edges, 0, edges.len());
    proof {
        assert(edges@.subrange(0, edges@.len() as int) =~= edges@);
        lemma_edge_order_total();
        edges@.lemma_sort_by_ensures(edge_order());
        lemma_sorted_unique(sorted@, edges@.sort_by(edge_order()), edge_order());
    }
    let mut list: Vec<(usize, usize)> = Vec::new();
    let mut i: usize = 0;
    while i < sorted.len()
        invariant
            i <= sorted@.len(),
            list@ == without_repeats(sorted@.take(i as int)),
        decreases sorted@.len() - i,
    {
        let edge = sorted[i];
        let ghost longer = sorted@.take(i + 1);
        assert(longer.drop_last() =~= sorted@.take(i as int));
        assert(longer.last() == edge);
        let repeats = list.len() > 0 && list[list.len() - 1].0 == edge.0 && list[list.len() - 1].1
            == edge.1;
        if !repeats {
            list.push(edge);
        }
        i += 1;
    }
    assert(sorted@.take(i as int) =~= sorted@);
    list
}

} // verus!
