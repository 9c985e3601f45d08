//! Reading graphs in gSpan format.
use vstd::prelude::*;

use crate::graph::{mk_edge, EdgeLabel, Graph, GraphModel, VertexId, VertexLabel};
use crate::pattern_graph::models;

verus! {

/// `c` separates fields: a Unicode white space character.
pub open spec fn is_space(c: char) -> bool {
    let n = c as u32;
    ||| 9 <= n <= 13
    ||| n == 32
    ||| n == 0x85
    ||| n == 0xA0
    ||| n == 0x1680
    ||| 0x2000 <= n <= 0x200A
    ||| n == 0x2028
    ||| n == 0x2029
    ||| n == 0x202F
    ||| n == 0x205F
    ||| n == 0x3000
}

fn space(c: char) -> (b: bool)
    ensures
        b == is_space(c),
{
    let n = c as u32;
    (9 <= n && n <= 13) || n == 32 || n == 0x85 || n == 0xA0 || n == 0x1680 || (0x2000 <= n && n
        <= 0x200A) || n == 0x2028 || n == 0x2029 || n == 0x202F || n == 0x205F || n == 0x3000
}

/// The value of a decimal digit character.
pub open spec fn digit_value(c: char) -> Option<nat> {
    let n = c as u32;
    if 48 <= n <= 57 {
        Some((n - 48) as nat)
    } else {
        None
    }
}

fn digit_of(c: char) -> (r: Option<u64>)
    ensures
        r matches Some(d) ==> digit_value(c) == Some(d as nat),
        r is None ==> digit_value(c) is None,
{
    let n = c as u32;
    if 48 <= n && n <= 57 {
        Some((n - 48) as u64)
    } else {
        None
    }
}

/// The lines of `t`: the pieces between line feeds; the last piece may be empty.
pub open spec fn lines_of(t: Seq<char>) -> Seq<Seq<char>>
    decreases t.len(),
{
    if t.len() == 0 {
        seq![Seq::empty()]
    } else {
        let r = lines_of(t.drop_last());
        if t.last() == '\n' {
            r.push(Seq::empty())
        } else {
            r.update(r.len() - 1, r.last().push(t.last()))
        }
    }
}

/// The fields of a line: its maximal runs of characters other than white space.
pub open spec fn fields_of(s: Seq<char>) -> Seq<Seq<char>>
    decreases s.len(),
{
    if s.len() == 0 {
        Seq::empty()
    } else {
        let r = fields_of(s.drop_last());
        let c = s.last();
        if is_space(c) {
            r
        } else if s.len() >= 2 && !is_space(s[s.len() - 2]) {
            r.update(r.len() - 1, r.last().push(c))
        } else {
            r.push(seq![c])
        }
    }
}

/// Every character of `d` is a decimal digit.
pub open spec fn all_digits(d: Seq<char>) -> bool {
    forall|i: int| 0 <= i < d.len() ==> #[trigger] digit_value(d[i]) is Some
}

/// The number that the decimal digits `d` write.
pub open spec fn digits_value(d: Seq<char>) -> nat
    decreases d.len(),
{
    if d.len() == 0 {
        0
    } else {
        digits_value(d.drop_last()) * 10 + digit_value(d.last())->0
    }
}

/// An unsigned integer field up to `max`: an optional `+` and at least one decimal
/// digit, leading zeros allowed.
pub open spec fn parse_unsigned(tok: Seq<char>, max: nat) -> Option<nat> {
    let d = if tok.len() > 0 && tok[0] == '+' { tok.drop_first() } else { tok };
    if d.len() > 0 && all_digits(d) && digits_value(d) <= max {
        Some(digits_value(d))
    } else {
        None
    }
}

/// Field `k` of a line read as an unsigned integer up to `max`, if it is there.
pub open spec fn field_value(f: Seq<Seq<char>>, k: int, max: nat) -> Option<nat> {
    if k < f.len() {
        parse_unsigned(f[k], max)
    } else {
        None
    }
}

/// What is wrong with a line.
#[derive(Debug, Clone, Copy, PartialEq, Eq, Structural)]
pub enum ParseErrorKind {
    /// A `v` line comes before any `t` line.
    VertexBeforeGraph,
    /// A `v` line lacks a vertex id or label, or one of them is not a number in range.
    InvalidVertex,
    /// The vertex ids of a graph do not run 0, 1, 2, ...
    VertexIdOutOfOrder,
    /// An `e` line comes before any `t` line.
    EdgeBeforeGraph,
    /// An `e` line lacks an endpoint or label, or one of them is not a number in range.
    InvalidEdge,
    /// An edge names a vertex that was not declared.
    UndeclaredVertex,
    /// An edge joins a vertex to itself.
    SelfLoop,
    /// Two edges join the same two vertices.
    ParallelEdge,
}

/// A line of the input that cannot be read, numbered from 1.
#[derive(Debug, Clone, Copy, PartialEq, Eq, Structural)]
pub struct ParseError {
    pub line_number: usize,
    pub kind: ParseErrorKind,
}

/// A graph with no vertex.
pub open spec fn empty_model() -> GraphModel {
    GraphModel { labels: Seq::empty(), edges: Seq::empty() }
}

/// The effect of one line with fields `f` on the graphs read so far: `t` starts a
/// graph, `v <id> <label>` adds the next vertex to the last graph, `e <from> <to>
/// <label>` adds an edge to it; other lines are ignored.
pub open spec fn line_step(gs: Seq<GraphModel>, f: Seq<Seq<char>>) -> Result<Seq<GraphModel>, ParseErrorKind> {
    if f.len() == 0 {
        Ok(gs)
    } else if f[0] == seq!['t'] {
        Ok(gs.push(empty_model()))
    } else if f[0] == seq!['v'] {
        if gs.len() == 0 {
            Err(ParseErrorKind::VertexBeforeGraph)
        } else {
            let g = gs.last();
            match (field_value(f, 1, usize::MAX as nat), field_value(f, 2, u32::MAX as nat)) {
                (Some(id), Some(label)) => if id != g.nv() {
                    Err(ParseErrorKind::VertexIdOutOfOrder)
                } else {
                    Ok(gs.update(gs.len() - 1, GraphModel { labels: g.labels.push(VertexLabel(label as u32)), edges: g.edges }))
                },
                _ => Err(ParseErrorKind::InvalidVertex),
            }
        }
    } else if f[0] == seq!['e'] {
        if gs.len() == 0 {
            Err(ParseErrorKind::EdgeBeforeGraph)
        } else {
            let g = gs.last();
            match (field_value(f, 1, usize::MAX as nat), field_value(f, 2, usize::MAX as nat), field_value(f, 3, u32::MAX as nat)) {
                (Some(a), Some(b), Some(l)) => if a >= g.nv() || b >= g.nv() {
                    Err(ParseErrorKind::UndeclaredVertex)
                } else if a == b {
                    Err(ParseErrorKind::SelfLoop)
                } else if g.adjacent(a as int, b as int) {
                    Err(ParseErrorKind::ParallelEdge)
                } else {
                    Ok(gs.update(gs.len() - 1, GraphModel {
                        labels: g.labels,
                        edges: g.edges.push(mk_edge(VertexId(a as usize), VertexId(b as usize), EdgeLabel(l as u32))),
                    }))
                },
                _ => Err(ParseErrorKind::InvalidEdge),
            }
        }
    } else {
        Ok(gs)
    }
}

/// The graphs that the lines describe, or the first line that cannot be read.
pub open spec fn parse_lines(lines: Seq<Seq<char>>) -> Result<Seq<GraphModel>, ParseError>
    decreases lines.len(),
{
    if lines.len() == 0 {
        Ok(Seq::empty())
    } else {
        match parse_lines(lines.drop_last()) {
            Err(e) => Err(e),
            Ok(gs) => match line_step(gs, fields_of(lines.last())) {
                Ok(next) => Ok(next),
                Err(kind) => Err(ParseError { line_number: lines.len() as usize, kind }),
            },
        }
    }
}

/// There is always at least one line.
pub(crate) proof fn lemma_lines_len(t: Seq<char>)
    ensures
        lines_of(t).len() >= 1,
    decreases t.len(),
{
    if t.len() > 0 {
        lemma_lines_len(t.drop_last());
    }
}

/// The finished lines of `t` come first among the lines of any extension of `t`.
proof fn lemma_lines_prefix(t: Seq<char>, u: Seq<char>)
    ensures
        lines_of(t + u).len() >= lines_of(t).len(),
        lines_of(t + u).take(lines_of(t).len() - 1) == lines_of(t).drop_last(),
    decreases u.len(),
{
    lemma_lines_len(t);
    if u.len() == 0 {
        assert(t + u =~= t);
    } else {
        let v = u.drop_last();
        lemma_lines_prefix(t, v);
        lemma_lines_len(t + v);
        assert((t + u).drop_last() =~= t + v);
        let k = lines_of(t).len() - 1;
        let r = lines_of(t + v);
        assert(lines_of(t + u).take(k) =~= r.take(k));
    }
}

/// A failing line decides the result, whatever lines follow it.
proof fn lemma_parse_error_stays(lines: Seq<Seq<char>>, k: int)
    requires
        0 <= k <= lines.len(),
        parse_lines(lines.take(k)) is Err,
    ensures
        parse_lines(lines) == parse_lines(lines.take(k)),
    decreases lines.len() - k,
{
    if k < lines.len() {
        assert(lines.drop_last().take(k) =~= lines.take(k));
        lemma_parse_error_stays(lines.drop_last(), k);
    } else {
        assert(lines.take(k) =~= lines);
    }
}

/// A line that ends inside a field has a field.
pub(crate) proof fn lemma_fields_nonempty(s: Seq<char>)
    requires
        s.len() >= 1,
        !is_space(s.last()),
    ensures
        fields_of(s).len() >= 1,
    decreases s.len(),
{
    if s.len() >= 2 && !is_space(s[s.len() - 2]) {
        assert(s.drop_last().last() == s[s.len() - 2]);
        lemma_fields_nonempty(s.drop_last());
    }
}

/// The views of the fields.
pub open spec fn field_views(f: Seq<Vec<char>>) -> Seq<Seq<char>> {
    f.map_values(|v: Vec<char>| v@)
}

/// The fields of `text[start..end]`.
fn split_fields(text: &[char], start: usize, end: usize) -> (f: Vec<Vec<char>>)
    requires
        start <= end <= text@.len(),
    ensures
        field_views(f@) == fields_of(text@.subrange(start as int, end as int)),
{
    let mut f: Vec<Vec<char>> = Vec::new();
    let mut i: usize = start;
    while i < end
        invariant
            start <= i <= end <= text@.len(),
            field_views(f@) == fields_of(text@.subrange(start as int, i as int)),
        decreases end - i,
    {
        let c = text[i];
        let ghost s = text@.subrange(start as int, i + 1);
        assert(s.drop_last() =~= text@.subrange(start as int, i as int));
        assert(s.last() == c);
        if space(c) {
        } else if i > start && !space(text[i - 1]) {
            assert(s[s.len() - 2] == text@[i - 1]);
            proof {
                let p = text@.subrange(start as int, i as int);
                assert(p.last() == text@[i - 1]);
                lemma_fields_nonempty(p);
            }
            let mut token = f.pop().unwrap();
            token.push(c);
            f.push(token);
            assert(field_views(f@) =~= fields_of(s));
        } else {
            let mut token: Vec<char> = Vec::new();
            token.push(c);
            f.push(token);
            assert(field_views(f@) =~= fields_of(s));
        }
        i += 1;
    }
    f
}

/// A prefix of a run of digits writes no larger a number.
proof fn lemma_digits_prefix(d: Seq<char>, j: int)
    requires
        all_digits(d),
        0 <= j <= d.len(),
    ensures
        digits_value(d.take(j)) <= digits_value(d),
    decreases d.len() - j,
{
    if j == d.len() {
        assert(d.take(j) =~= d);
    } else {
        lemma_digits_prefix(d, j + 1);
        let t = d.take(j + 1);
        assert(t.drop_last() =~= d.take(j));
        assert(digit_value(d[j]) is Some);
        assert(t.last() == d[j]);
    }
}

/// Field `k` read as an unsigned integer up to `max`, if it is there and valid.
fn parse_field(f: &Vec<Vec<char>>, k: usize, max: u64) -> (r: Option<u64>)
    requires
        max >= 9,
    ensures
        r matches Some(v) ==> field_value(field_views(f@), k as int, max as nat) == Some(v as nat),
        r is None ==> field_value(field_views(f@), k as int, max as nat) is None,
{
    if k >= f.len() {
        return None;
    }
    let tok = &f[k];
    assert(tok@ == field_views(f@)[k as int]);
    let start: usize = if tok.len() > 0 && tok[0] == '+' { 1 } else { 0 };
    let ghost d = if tok@.len() > 0 && tok@[0] == '+' { tok@.drop_first() } else { tok@ };
    assert(d =~= tok@.subrange(start as int, tok@.len() as int));
    assert(field_value(field_views(f@), k as int, max as nat) == parse_unsigned(tok@, max as nat));
    if start == tok.len() {
        return None;
    }
    let mut value: u64 = 0;
    let mut i: usize = start;
    while i < tok.len()
        invariant
            start <= i <= tok@.len(),
            d == tok@.subrange(start as int, tok@.len() as int),
            d == (if tok@.len() > 0 && tok@[0] == '+' { tok@.drop_first() } else { tok@ }),
            d.len() > 0,
            field_value(field_views(f@), k as int, max as nat) == parse_unsigned(tok@, max as nat),
            value == digits_value(d.take(i - start)),
            all_digits(d.take(i - start)),
            value <= max,
            max >= 9,
        decreases tok@.len() - i,
    {
        let c = tok[i];
        assert(d[i - start] == c);
        let dv = match digit_of(c) {
            Some(x) => x,
            None => {
                proof {
                    assert(!all_digits(d)) by {
                        assert(digit_value(d[i - start]) is None);
                    }
                }
                return None;
            },
        };
        let ghost t = d.take(i - start + 1);
        proof {
            assert(t.drop_last() =~= d.take(i - start));
            assert(t.last() == c);
            assert forall|j: int| 0 <= j < t.len() implies #[trigger] digit_value(t[j]) is Some by {
                if j < t.len() - 1 {
                    assert(t[j] == d.take(i - start)[j]);
                }
            }
            assert(digits_value(t) == value * 10 + dv);
        }
        if value > (max - dv) / 10 {
            proof {
                assert(value * 10 + dv > max) by (nonlinear_arith)
                    requires
                        value > (max - dv) / 10,
                        dv <= 9,
                        max >= 9,
                ;
                if all_digits(d) {
                    assert(d.take(i - start + 1) == t);
                    lemma_digits_prefix(d, i - start + 1);
                }
            }
            return None;
        }
        proof {
            assert(value * 10 + dv <= max) by (nonlinear_arith)
                requires
                    value <= (max - dv) / 10,
                    dv <= 9,
                    max >= 9,
            ;
        }
        value = value * 10 + dv;
        i += 1;
    }
    assert(d.take(i - start) =~= d);
    Some(value)
}

/// Whether the field is the single character `c`.
fn is_word(tok: &Vec<char>, c: char) -> (b: bool)
    ensures
        b == (tok@ == seq![c]),
{
    if tok.len() == 1 && tok[0] == c {
        assert(tok@ =~= seq![c]);
        true
    } else {
        false
    }
}

/// Reads one line with fields `f` into the graphs read so far.
fn apply_line(graphs: &mut Vec<Graph>, f: &Vec<Vec<char>>) -> (r: Result<(), ParseErrorKind>)
    requires
        forall|i: int| 0 <= i < old(graphs)@.len() ==> (#[trigger] old(graphs)@[i]).wf(),
    ensures
        forall|i: int| 0 <= i < final(graphs)@.len() ==> (#[trigger] final(graphs)@[i]).wf(),
        line_step(models(old(graphs)@), field_views(f@)) matches Ok(gs) ==> r is Ok && models(final(graphs)@) == gs,
        line_step(models(old(graphs)@), field_views(f@)) matches Err(kind) ==> r == Err::<(), ParseErrorKind>(kind),
{
    let ghost fv = field_views(f@);
    let ghost gs = models(graphs@);
    if f.len() == 0 {
        return Ok(());
    }
    assert(f@[0]@ == fv[0]);
    if is_word(&f[0], 't') {
        graphs.push(Graph::new());
        assert(models(graphs@) =~= gs.push(empty_model()));
        return Ok(());
    }
    if is_word(&f[0], 'v') {
        if graphs.len() == 0 {
            return Err(ParseErrorKind::VertexBeforeGraph);
        }
        let id = parse_field(f, 1, usize::MAX as u64);
        let label = parse_field(f, 2, u32::MAX as u64);
        match (id, label) {
            (Some(id), Some(label)) => {
                let last = graphs.len() - 1;
                assert(gs.last() == graphs@[last as int]@);
                if id != graphs[last].vertex_count() as u64 {
                    return Err(ParseErrorKind::VertexIdOutOfOrder);
                }
                let mut g = graphs.pop().unwrap();
                g.add_vertex(VertexLabel(label as u32));
                graphs.push(g);
                assert(models(graphs@) =~= gs.update(last as int, GraphModel {
                    labels: gs.last().labels.push(VertexLabel(label as u32)),
                    edges: gs.last().edges,
                }));
                return Ok(());
            },
            _ => {
                return Err(ParseErrorKind::InvalidVertex);
            },
        }
    }
    if is_word(&f[0], 'e') {
        if graphs.len() == 0 {
            return Err(ParseErrorKind::EdgeBeforeGraph);
        }
        let from = parse_field(f, 1, usize::MAX as u64);
        let to = parse_field(f, 2, usize::MAX as u64);
        let label = parse_field(f, 3, u32::MAX as u64);
        match (from, to, label) {
            (Some(from), Some(to), Some(label)) => {
                let last = graphs.len() - 1;
                assert(gs.last() == graphs@[last as int]@);
                let n = graphs[last].vertex_count() as u64;
                if from >= n || to >= n {
                    return Err(ParseErrorKind::UndeclaredVertex);
                }
                let (a, b) = (VertexId(from as usize), VertexId(to as usize));
                if a == b {
                    return Err(ParseErrorKind::SelfLoop);
                }
                if graphs[last].has_edge(a, b) {
                    return Err(ParseErrorKind::ParallelEdge);
                }
                let mut g = graphs.pop().unwrap();
                g.add_edge(a, b, EdgeLabel(label as u32));
                graphs.push(g);
                assert(models(graphs@) =~= gs.update(last as int, GraphModel {
                    labels: gs.last().labels,
                    edges: gs.last().edges.push(mk_edge(VertexId(from as usize), VertexId(to as usize), EdgeLabel(label as u32))),
                }));
                return Ok(());
            },
            _ => {
                return Err(ParseErrorKind::InvalidEdge);
            },
        }
    }
    Ok(())
}

/// Reads graphs in gSpan format: `t ...` starts a graph, `v <id> <label>` declares
/// its next vertex (ids 0, 1, 2, ...), `e <from> <to> <label>` an edge between
/// declared vertices; other lines are ignored. Self loops and parallel edges are
/// refused. The error names the first line that cannot be read.
pub fn parse_gspan_graphs(text: &[char]) -> (r: Result<Vec<Graph>, ParseError>)
    requires
        text@.len() < usize::MAX,
    ensures
        r is Ok <==> parse_lines(lines_of(text@)) is Ok,
        r matches Ok(graphs) ==> parse_lines(lines_of(text@)) == Ok::<Seq<GraphModel>, ParseError>(models(graphs@))
            && forall|i: int| 0 <= i < graphs@.len() ==> (#[trigger] graphs@[i]).wf(),
        r matches Err(e) ==> parse_lines(lines_of(text@)) == Err::<Seq<GraphModel>, ParseError>(e),
{
    let mut graphs: Vec<Graph> = Vec::new();
    let mut line_start: usize = 0;
    let mut line_number: usize = 1;
    let mut pos: usize = 0;
    proof {
        assert(text@.take(0) =~= Seq::<char>::empty());
        assert(lines_of(text@.take(0)).drop_last() =~= Seq::<Seq<char>>::empty());
        assert(models(graphs@) =~= Seq::<GraphModel>::empty());
    }
    while pos < text.len()
        invariant
            0 <= line_start <= pos <= text@.len(),
            text@.len() < usize::MAX,
            1 <= line_number <= pos + 1,
            lines_of(text@.take(pos as int)).len() == line_number,
            lines_of(text@.take(pos as int)).last() == text@.subrange(line_start as int, pos as int),
            parse_lines(lines_of(text@.take(pos as int)).drop_last()) == Ok::<Seq<GraphModel>, ParseError>(models(graphs@)),
            forall|i: int| 0 <= i < graphs@.len() ==> (#[trigger] graphs@[i]).wf(),
        decreases text@.len() - pos,
    {
        let ghost t = text@.take(pos as int);
        let ghost t1 = text@.take(pos + 1);
        proof {
            assert(t1.drop_last() =~= t);
            assert(t1.last() == text@[pos as int]);
            lemma_lines_len(t);
        }
        if text[pos] == '\n' {
            let fields = split_fields(text, line_start, pos);
            let ghost before = models(graphs@);
            let ghost lines = lines_of(t);
            proof {
                assert(lines.drop_last().push(lines.last()) =~= lines);
                assert(lines.drop_last() =~= lines.drop_last());
            }
            match apply_line(&mut graphs, &fields) {
                Ok(()) => {},
                Err(kind) => {
                    proof {
                        assert(parse_lines(lines) == Err::<Seq<GraphModel>, ParseError>(ParseError { line_number, kind }));
                        lemma_lines_prefix(t1, text@.subrange(pos + 1, text@.len() as int));
                        assert(t1 + text@.subrange(pos + 1, text@.len() as int) =~= text@);
                        assert(lines_of(t1).drop_last() =~= lines);
                        lemma_parse_error_stays(lines_of(text@), lines.len() as int);
                    }
                    return Err(ParseError { line_number, kind });
                },
            }
            proof {
                assert(lines_of(t1) == lines.push(Seq::<char>::empty()));
                assert(lines_of(t1).drop_last() =~= lines);
                assert(text@.subrange(pos + 1, pos + 1) =~= Seq::<char>::empty());
            }
            line_start = pos + 1;
            line_number += 1;
        } else {
            proof {
                let lines = lines_of(t);
                assert(lines_of(t1).drop_last() =~= lines.drop_last());
                assert(text@.subrange(line_start as int, pos + 1) =~= text@.subrange(line_start as int, pos as int).push(text@[pos as int]));
            }
        }
        pos += 1;
    }
    let fields = split_fields(text, line_start, pos);
    proof {
        assert(text@.take(pos as int) =~= text@);
        let lines = lines_of(text@);
        lemma_lines_len(text@);
        assert(lines.drop_last().push(lines.last()) =~= lines);
    }
    match apply_line(&mut graphs, &fields) {
        Ok(()) => Ok(graphs),
        Err(kind) => Err(ParseError { line_number, kind }),
    }
}

} // verus!
