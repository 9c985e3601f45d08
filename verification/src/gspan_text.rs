//! The gSpan text format: graphs, DFS codes and mined patterns written as
//! characters, and graphs read back from characters.
use vstd::prelude::*;

use crate::gengraph::{FeatureGraph, GeneratedDataset, Transaction};
use crate::graph::{Edge, Graph, GraphModel, VertexLabel};
use crate::graph_to_mindfs::{Dfs5Tuple, DfsCode};
use crate::subgraph_mining::FrequentPattern;

verus! {

/// The decimal digit of `d`, for `d < 10`.
pub open spec fn digit_char(d: nat) -> char {
    if d == 0 {
        '0'
    } else if d == 1 {
        '1'
    } else if d == 2 {
        '2'
    } else if d == 3 {
        '3'
    } else if d == 4 {
        '4'
    } else if d == 5 {
        '5'
    } else if d == 6 {
        '6'
    } else if d == 7 {
        '7'
    } else if d == 8 {
        '8'
    } else {
        '9'
    }
}

/// `n` written in decimal, without leading zeros.
pub open spec fn decimal(n: nat) -> Seq<char>
    decreases n,
{
    if n < 10 {
        seq![digit_char(n)]
    } else {
        decimal(n / 10).push(digit_char(n % 10))
    }
}

/// `i` written in decimal, with a minus sign when negative.
pub open spec fn signed_decimal(i: int) -> Seq<char> {
    if i < 0 {
        seq!['-'] + decimal((-i) as nat)
    } else {
        decimal(i as nat)
    }
}

fn digit(d: u64) -> (c: char)
    requires
        d < 10,
    ensures
        c == digit_char(d as nat),
{
    match d {
        0 => '0',
        1 => '1',
        2 => '2',
        3 => '3',
        4 => '4',
        5 => '5',
        6 => '6',
        7 => '7',
        8 => '8',
        _ => '9',
    }
}

/// Appends `n` in decimal.
pub fn push_decimal(out: &mut Vec<char>, n: u64)
    ensures
        final(out)@ == old(out)@ + decimal(n as nat),
    decreases n,
{
    if n >= 10 {
        push_decimal(out, n / 10);
    }
    out.push(digit(n % 10));
}

/// Appends `i` in decimal, with a minus sign when negative.
pub fn push_signed_decimal(out: &mut Vec<char>, i: i64)
    ensures
        final(out)@ == old(out)@ + signed_decimal(i as int),
{
    if i < 0 {
        out.push('-');
        let magnitude: u64 = if i == i64::MIN { 9223372036854775808u64 } else { (-i) as u64 };
        push_decimal(out, magnitude);
    } else {
        push_decimal(out, i as u64);
    }
}

/// Appends the characters of `s`.
pub fn push_chars(out: &mut Vec<char>, s: &[char])
    ensures
        final(out)@ == old(out)@ + s@,
{
    let ghost start = out@;
    let mut i: usize = 0;
    while i < s.len()
        invariant
            0 <= i <= s@.len(),
            out@ == start + s@.take(i as int),
        decreases s@.len() - i,
    {
        out.push(s[i]);
        assert(s@.take(i + 1) =~= s@.take(i as int).push(s@[i as int]));
        i += 1;
    }
    assert(s@.take(i as int) =~= s@);
}

/// Appends the characters of `s`.
pub fn push_str(out: &mut Vec<char>, s: &str)
    ensures
        final(out)@ == old(out)@ + s@,
{
    broadcast use vstd::string::group_string_axioms;
    let ghost start = out@;
    for c in it: s.chars()
        invariant
            it.seq() == s@,
            out@ == start + s@.take(it.index() as int),
    {
        out.push(c);
        proof {
            assert(s@.take(it.index() + 1) =~= s@.take(it.index() as int).push(c));
        }
    }
    assert(out@ =~= start + s@);
}

/// A vertex line: `v <id> <label>`.
pub open spec fn vertex_line(id: nat, label: VertexLabel) -> Seq<char> {
    seq!['v', ' '] + decimal(id) + seq![' '] + decimal(label.0 as nat) + seq!['\n']
}

/// The vertex lines of a graph with these labels.
pub open spec fn vertex_lines(labels: Seq<VertexLabel>) -> Seq<char>
    decreases labels.len(),
{
    if labels.len() == 0 {
        Seq::empty()
    } else {
        vertex_lines(labels.drop_last()) + vertex_line((labels.len() - 1) as nat, labels.last())
    }
}

/// An edge line: `e <from> <to> <label>`.
pub open spec fn edge_line(e: Edge) -> Seq<char> {
    seq!['e', ' '] + decimal(e.endpoints[0].0 as nat) + seq![' '] + decimal(e.endpoints[1].0 as nat)
        + seq![' '] + decimal(e.label.0 as nat) + seq!['\n']
}

/// The edge lines of these edges.
pub open spec fn edge_lines(edges: Seq<Edge>) -> Seq<char>
    decreases edges.len(),
{
    if edges.len() == 0 {
        Seq::empty()
    } else {
        edge_lines(edges.drop_last()) + edge_line(edges.last())
    }
}

/// A graph in gSpan format: the line `t # 0 <class> <name>`, its vertex lines, its
/// edge lines and an empty line.
pub open spec fn graph_text(g: GraphModel, class_label: i8, name: Seq<char>) -> Seq<char> {
    seq!['t', ' ', '#', ' ', '0', ' '] + signed_decimal(class_label as int) + seq![' '] + name + seq!['\n']
        + vertex_lines(g.labels) + edge_lines(g.edges) + seq!['\n']
}

/// Appends the vertex and edge lines of `graph`.
fn push_graph_body(out: &mut Vec<char>, graph: &Graph)
    ensures
        final(out)@ == old(out)@ + vertex_lines(graph@.labels) + edge_lines(graph@.edges),
{
    let labels = graph.vertex_labels();
    let ghost start = out@;
    let mut i: usize = 0;
    while i < labels.len()
        invariant
            labels@ == graph@.labels,
            0 <= i <= labels@.len(),
            out@ == start + vertex_lines(labels@.take(i as int)),
        decreases labels@.len() - i,
    {
        let ghost before = out@;
        out.push('v');
        out.push(' ');
        push_decimal(out, i as u64);
        out.push(' ');
        push_decimal(out, labels[i].0 as u64);
        out.push('\n');
        proof {
            let t = labels@.take(i + 1);
            assert(t.drop_last() =~= labels@.take(i as int));
            assert(t.last() == labels@[i as int]);
            assert(out@ =~= before + vertex_line(i as nat, labels@[i as int]));
        }
        i += 1;
    }
    assert(labels@.take(i as int) =~= labels@);
    let edges = graph.edges();
    let ghost mid = out@;
    let mut j: usize = 0;
    while j < edges.len()
        invariant
            edges@ == graph@.edges,
            0 <= j <= edges@.len(),
            out@ == mid + edge_lines(edges@.take(j as int)),
        decreases edges@.len() - j,
    {
        let ghost before = out@;
        let e = edges[j];
        out.push('e');
        out.push(' ');
        push_decimal(out, e.endpoints[0].0 as u64);
        out.push(' ');
        push_decimal(out, e.endpoints[1].0 as u64);
        out.push(' ');
        push_decimal(out, e.label.0 as u64);
        out.push('\n');
        proof {
            let t = edges@.take(j + 1);
            assert(t.drop_last() =~= edges@.take(j as int));
            assert(t.last() == e);
            assert(out@ =~= before + edge_line(e));
        }
        j += 1;
    }
    assert(edges@.take(j as int) =~= edges@);
    assert(out@ =~= start + vertex_lines(graph@.labels) + edge_lines(graph@.edges));
}

/// Writes a transaction in gSpan format.
pub fn write_gspan_graph(transaction: &Transaction, writer: &mut Vec<char>)
    ensures
        final(writer)@ == old(writer)@ + graph_text(transaction.graph@, transaction.class_label, transaction.name@),
{
    let ghost start = writer@;
    push_chars(writer, &['t', ' ', '#', ' ', '0', ' ']);
    push_signed_decimal(writer, transaction.class_label as i64);
    writer.push(' ');
    push_str(writer, transaction.name.as_str());
    writer.push('\n');
    push_graph_body(writer, &transaction.graph);
    writer.push('\n');
    assert(writer@ =~= start + graph_text(transaction.graph@, transaction.class_label, transaction.name@));
}

/// The transactions one after the other in gSpan format.
pub open spec fn transactions_text(ts: Seq<Transaction>) -> Seq<char>
    decreases ts.len(),
{
    if ts.len() == 0 {
        Seq::empty()
    } else {
        transactions_text(ts.drop_last()) + graph_text(ts.last().graph@, ts.last().class_label, ts.last().name@)
    }
}

/// Appends the transactions in gSpan format.
fn push_transactions(out: &mut Vec<char>, ts: &Vec<Transaction>)
    ensures
        final(out)@ == old(out)@ + transactions_text(ts@),
{
    let ghost start = out@;
    let mut i: usize = 0;
    while i < ts.len()
        invariant
            0 <= i <= ts@.len(),
            out@ == start + transactions_text(ts@.take(i as int)),
        decreases ts@.len() - i,
    {
        write_gspan_graph(&ts[i], out);
        proof {
            let t = ts@.take(i + 1);
            assert(t.drop_last() =~= ts@.take(i as int));
            assert(t.last() == ts@[i as int]);
        }
        i += 1;
    }
    assert(ts@.take(i as int) =~= ts@);
}

/// Writes the positive and then the negative transactions in gSpan format.
pub fn write_transactions(dataset: &GeneratedDataset, writer: &mut Vec<char>)
    ensures
        final(writer)@ == old(writer)@ + transactions_text(dataset.positive_transactions@ + dataset.negative_transactions@),
{
    let ghost start = writer@;
    push_transactions(writer, &dataset.positive_transactions);
    push_transactions(writer, &dataset.negative_transactions);
    proof {
        lemma_transactions_text_concat(dataset.positive_transactions@, dataset.negative_transactions@);
    }
}

/// The text of two runs of transactions is the text of the first and then of the second.
proof fn lemma_transactions_text_concat(a: Seq<Transaction>, b: Seq<Transaction>)
    ensures
        transactions_text(a + b) == transactions_text(a) + transactions_text(b),
    decreases b.len(),
{
    if b.len() == 0 {
        assert(a + b =~= a);
        assert(transactions_text(a) + transactions_text(b) =~= transactions_text(a));
    } else {
        assert((a + b).drop_last() =~= a + b.drop_last());
        assert((a + b).last() == b.last());
        lemma_transactions_text_concat(a, b.drop_last());
        assert(transactions_text(a + b) =~= transactions_text(a) + transactions_text(b));
    }
}

/// A DFS edge written `(from,to,from_label,edge_label,to_label)`.
pub open spec fn tuple_text(t: Dfs5Tuple) -> Seq<char> {
    seq!['('] + decimal(t.from.0 as nat) + seq![','] + decimal(t.to.0 as nat) + seq![','] + decimal(t.from_label.0 as nat)
        + seq![','] + decimal(t.edge_label.0 as nat) + seq![','] + decimal(t.to_label.0 as nat) + seq![')']
}

/// A DFS code written as its edges separated by spaces.
pub open spec fn code_text(s: Seq<Dfs5Tuple>) -> Seq<char>
    decreases s.len(),
{
    if s.len() == 0 {
        Seq::empty()
    } else if s.len() == 1 {
        tuple_text(s[0])
    } else {
        code_text(s.drop_last()) + seq![' '] + tuple_text(s.last())
    }
}

/// Appends one DFS edge as `(from,to,from_label,edge_label,to_label)`.
fn push_tuple(out: &mut Vec<char>, t: Dfs5Tuple)
    ensures
        final(out)@ == old(out)@ + tuple_text(t),
{
    let ghost start = out@;
    out.push('(');
    push_decimal(out, t.from.0 as u64);
    out.push(',');
    push_decimal(out, t.to.0 as u64);
    out.push(',');
    push_decimal(out, t.from_label.0 as u64);
    out.push(',');
    push_decimal(out, t.edge_label.0 as u64);
    out.push(',');
    push_decimal(out, t.to_label.0 as u64);
    out.push(')');
    assert(out@ =~= start + tuple_text(t));
}

/// Writes a DFS code as its edges `(from,to,from_label,edge_label,to_label)`
/// separated by spaces.
pub fn write_code(code: &DfsCode, writer: &mut Vec<char>)
    ensures
        final(writer)@ == old(writer)@ + code_text(code@),
        crate::text_reading::read_code(final(writer)@.subrange(old(writer)@.len() as int, final(writer)@.len() as int))
            == Some(code@),
{
    let edges = code.edges();
    let ghost start = writer@;
    let mut i: usize = 0;
    while i < edges.len()
        invariant
            edges@ == code@,
            0 <= i <= edges@.len(),
            writer@ == start + code_text(edges@.take(i as int)),
        decreases edges@.len() - i,
    {
        let ghost before = writer@;
        if i > 0 {
            writer.push(' ');
        }
        push_tuple(writer, edges[i]);
        proof {
            let t = edges@.take(i + 1);
            assert(t.drop_last() =~= edges@.take(i as int));
            assert(t.last() == edges@[i as int]);
            if i == 0 {
                assert(t[0] == edges@[0]);
                assert(code_text(edges@.take(0)) =~= Seq::<char>::empty());
                assert(writer@ =~= start + code_text(t));
            } else {
                assert(writer@ =~= before + seq![' '] + tuple_text(edges@[i as int]));
            }
        }
        i += 1;
    }
    assert(edges@.take(i as int) =~= edges@);
    proof {
        assert(writer@.subrange(start.len() as int, writer@.len() as int) =~= code_text(code@));
        crate::text_reading::lemma_read_written_code(code@);
    }
}

/// The codes of the features, one per line.
pub open spec fn feature_codes_text(fs: Seq<FeatureGraph>) -> Seq<char>
    decreases fs.len(),
{
    if fs.len() == 0 {
        Seq::empty()
    } else {
        feature_codes_text(fs.drop_last()) + code_text(fs.last().minimum_dfs_code@) + seq!['\n']
    }
}

/// Appends the codes of the features, one per line.
fn push_feature_codes(out: &mut Vec<char>, fs: &Vec<FeatureGraph>)
    ensures
        final(out)@ == old(out)@ + feature_codes_text(fs@),
{
    let ghost start = out@;
    let mut i: usize = 0;
    while i < fs.len()
        invariant
            0 <= i <= fs@.len(),
            out@ == start + feature_codes_text(fs@.take(i as int)),
        decreases fs@.len() - i,
    {
        write_code(&fs[i].minimum_dfs_code, out);
        out.push('\n');
        proof {
            let t = fs@.take(i + 1);
            assert(t.drop_last() =~= fs@.take(i as int));
            assert(t.last() == fs@[i as int]);
            assert(out@ =~= start + feature_codes_text(t));
        }
        i += 1;
    }
    assert(fs@.take(i as int) =~= fs@);
}

/// The feature text of two runs of features is that of the first and then of the second.
proof fn lemma_feature_codes_text_concat(a: Seq<FeatureGraph>, b: Seq<FeatureGraph>)
    ensures
        feature_codes_text(a + b) == feature_codes_text(a) + feature_codes_text(b),
    decreases b.len(),
{
    if b.len() == 0 {
        assert(a + b =~= a);
        assert(feature_codes_text(a) + feature_codes_text(b) =~= feature_codes_text(a));
    } else {
        assert((a + b).drop_last() =~= a + b.drop_last());
        assert((a + b).last() == b.last());
        lemma_feature_codes_text_concat(a, b.drop_last());
        assert(feature_codes_text(a + b) =~= feature_codes_text(a) + feature_codes_text(b));
    }
}

/// Writes the minimum DFS codes of the positive and then the negative features, one
/// per line.
pub fn write_feature_codes(dataset: &GeneratedDataset, writer: &mut Vec<char>)
    ensures
        final(writer)@ == old(writer)@ + feature_codes_text(dataset.positive_features@ + dataset.negative_features@),
{
    push_feature_codes(writer, &dataset.positive_features);
    push_feature_codes(writer, &dataset.negative_features);
    proof {
        lemma_feature_codes_text_concat(dataset.positive_features@, dataset.negative_features@);
    }
}

/// One more edge of a code in pattern style: ` <edge_label> (<from>f<to_label>)`
/// for a forward edge, ` <edge_label> (b<to>)` for a backward one.
pub open spec fn pattern_edge_text(t: Dfs5Tuple) -> Seq<char> {
    if t.forward() {
        seq![' '] + decimal(t.edge_label.0 as nat) + seq![' ', '('] + decimal(t.from.0 as nat) + seq!['f']
            + decimal(t.to_label.0 as nat) + seq![')']
    } else {
        seq![' '] + decimal(t.edge_label.0 as nat) + seq![' ', '(', 'b'] + decimal(t.to.0 as nat) + seq![')']
    }
}

/// A code in pattern style: `(<label>) <edge_label> (<from>f<to_label>)` for
/// the first edge, then each further edge.
pub open spec fn pattern_code_text(s: Seq<Dfs5Tuple>) -> Seq<char>
    decreases s.len(),
{
    if s.len() == 0 {
        Seq::empty()
    } else if s.len() == 1 {
        seq!['('] + decimal(s[0].from_label.0 as nat) + seq![')', ' '] + decimal(s[0].edge_label.0 as nat)
            + seq![' ', '('] + decimal(s[0].from.0 as nat) + seq!['f'] + decimal(s[0].to_label.0 as nat) + seq![')']
    } else {
        pattern_code_text(s.drop_last()) + pattern_edge_text(s.last())
    }
}

/// A mined pattern's line: its support, a space and its code in pattern style.
pub open spec fn pattern_line(p: FrequentPattern) -> Seq<char> {
    decimal(p.support as nat) + seq![' '] + pattern_code_text(p.code@) + seq!['\n']
}

/// The lines of the patterns.
pub open spec fn patterns_text(ps: Seq<FrequentPattern>) -> Seq<char>
    decreases ps.len(),
{
    if ps.len() == 0 {
        Seq::empty()
    } else {
        patterns_text(ps.drop_last()) + pattern_line(ps.last())
    }
}

/// Appends a code in pattern style.
fn push_pattern_code(out: &mut Vec<char>, code: &DfsCode)
    ensures
        final(out)@ == old(out)@ + pattern_code_text(code@),
{
    let edges = code.edges();
    let ghost start = out@;
    let mut i: usize = 0;
    while i < edges.len()
        invariant
            edges@ == code@,
            0 <= i <= edges@.len(),
            out@ == start + pattern_code_text(edges@.take(i as int)),
        decreases edges@.len() - i,
    {
        let ghost before = out@;
        let t = edges[i];
        if i == 0 {
            out.push('(');
            push_decimal(out, t.from_label.0 as u64);
            out.push(')');
            out.push(' ');
            push_decimal(out, t.edge_label.0 as u64);
            out.push(' ');
            out.push('(');
            push_decimal(out, t.from.0 as u64);
            out.push('f');
            push_decimal(out, t.to_label.0 as u64);
            out.push(')');
        } else if t.is_forward() {
            out.push(' ');
            push_decimal(out, t.edge_label.0 as u64);
            out.push(' ');
            out.push('(');
            push_decimal(out, t.from.0 as u64);
            out.push('f');
            push_decimal(out, t.to_label.0 as u64);
            out.push(')');
        } else {
            out.push(' ');
            push_decimal(out, t.edge_label.0 as u64);
            out.push(' ');
            out.push('(');
            out.push('b');
            push_decimal(out, t.to.0 as u64);
            out.push(')');
        }
        proof {
            let s = edges@.take(i + 1);
            assert(s.drop_last() =~= edges@.take(i as int));
            assert(s.last() == t);
            if i == 0 {
                assert(s[0] == t);
                assert(pattern_code_text(edges@.take(0)) =~= Seq::<char>::empty());
                assert(out@ =~= start + pattern_code_text(s));
            } else {
                assert(out@ =~= before + pattern_edge_text(t));
            }
        }
        i += 1;
    }
    assert(edges@.take(i as int) =~= edges@);
}

/// Writes the mined patterns one per line: the support, a space and the code in
/// pattern style.
pub fn write_patterns(patterns: &[FrequentPattern], writer: &mut Vec<char>)
    ensures
        final(writer)@ == old(writer)@ + patterns_text(patterns@),
{
    let ghost start = writer@;
    let mut i: usize = 0;
    while i < patterns.len()
        invariant
            0 <= i <= patterns@.len(),
            writer@ == start + patterns_text(patterns@.take(i as int)),
        decreases patterns@.len() - i,
    {
        let ghost before = writer@;
        push_decimal(writer, patterns[i].support as u64);
        writer.push(' ');
        push_pattern_code(writer, &patterns[i].code);
        writer.push('\n');
        proof {
            let s = patterns@.take(i + 1);
            assert(s.drop_last() =~= patterns@.take(i as int));
            assert(s.last() == patterns@[i as int]);
            assert(writer@ =~= before + pattern_line(patterns@[i as int]));
        }
        i += 1;
    }
    assert(patterns@.take(i as int) =~= patterns@);
}

} // verus!
