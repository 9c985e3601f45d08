//! What the gSpan writer writes, the gSpan reader reads back.
use vstd::prelude::*;

use crate::gengraph::Transaction;
use crate::graph::{
    dst_of, edge_in_range, joins, mk_edge, src_of, Edge, EdgeLabel, GraphModel, VertexId, VertexLabel,
};
use crate::gspan_parse::{
    all_digits, digit_value, digits_value, empty_model, field_value, fields_of, is_space, lines_of,
    parse_lines, parse_unsigned, ParseError,
};
use crate::gspan_text::{
    decimal, digit_char, edge_line, edge_lines, graph_text, signed_decimal, transactions_text, vertex_line,
    vertex_lines,
};

verus! {

/// A line with no line feed is one line.
proof fn lemma_one_line(x: Seq<char>)
    requires
        forall|i: int| 0 <= i < x.len() ==> x[i] != '\n',
    ensures
        lines_of(x) == seq![x],
    decreases x.len(),
{
    if x.len() > 0 {
        lemma_one_line(x.drop_last());
        assert(x.drop_last().push(x.last()) =~= x);
        assert(seq![x.drop_last()].update(0, x.drop_last().push(x.last())) =~= seq![x]);
    } else {
        assert(x =~= Seq::<char>::empty());
    }
}

/// Text that ends a line, followed by more text: the finished lines come first.
proof fn lemma_lines_concat(a: Seq<char>, b: Seq<char>)
    requires
        a.len() == 0 || a.last() == '\n',
    ensures
        lines_of(a + b) == lines_of(a).drop_last() + lines_of(b),
    decreases b.len(),
{
    if b.len() == 0 {
        assert(a + b =~= a);
        if a.len() == 0 {
            assert(lines_of(a).drop_last() + lines_of(b) =~= lines_of(b));
        } else {
            assert(lines_of(a) == lines_of(a.drop_last()).push(Seq::<char>::empty()));
            assert(lines_of(a).drop_last() + lines_of(b) =~= lines_of(a));
        }
    } else {
        let b1 = b.drop_last();
        lemma_lines_concat(a, b1);
        assert((a + b).drop_last() =~= a + b1);
        assert((a + b).last() == b.last());
        crate::gspan_parse::lemma_lines_len(b1);
        let x = lines_of(a).drop_last();
        let r = lines_of(b1);
        if b.last() == '\n' {
            assert((x + r).push(Seq::<char>::empty()) =~= x + r.push(Seq::<char>::empty()));
        } else {
            assert((x + r).update((x + r).len() - 1, (x + r).last().push(b.last())) =~= x + r.update(r.len() - 1, r.last().push(b.last())));
        }
    }
}

/// A field with no white space is one field.
pub(crate) proof fn lemma_one_field(x: Seq<char>)
    requires
        x.len() > 0,
        forall|i: int| 0 <= i < x.len() ==> !is_space(#[trigger] x[i]),
    ensures
        fields_of(x) == seq![x],
    decreases x.len(),
{
    assert(!is_space(x[x.len() - 1]));
    if x.len() == 1 {
        assert(x.drop_last() =~= Seq::<char>::empty());
        assert(fields_of(x.drop_last()) =~= Seq::<Seq<char>>::empty());
        assert(seq![x.last()] =~= x);
    } else {
        assert(!is_space(x[x.len() - 2]));
        assert forall|i: int| 0 <= i < x.drop_last().len() implies !is_space(#[trigger] x.drop_last()[i]) by {
            assert(x.drop_last()[i] == x[i]);
        }
        lemma_one_field(x.drop_last());
        assert(x[x.len() - 2] == x.drop_last()[x.len() - 2]);
        assert(x.drop_last().push(x.last()) =~= x);
        assert(seq![x.drop_last()].update(0, x.drop_last().push(x.last())) =~= seq![x]);
    }
}

/// Fields separated by a space are the fields of each side.
pub(crate) proof fn lemma_fields_split(x: Seq<char>, y: Seq<char>)
    ensures
        fields_of(x + seq![' '] + y) == fields_of(x) + fields_of(y),
    decreases y.len(),
{
    let xs = x + seq![' '];
    assert(xs.drop_last() =~= x);
    assert(is_space(' '));
    if y.len() == 0 {
        assert(xs + y =~= xs);
        assert(fields_of(x) + fields_of(y) =~= fields_of(x));
    } else {
        let y1 = y.drop_last();
        lemma_fields_split(x, y1);
        let s = xs + y;
        assert(s.drop_last() =~= xs + y1);
        assert(s.last() == y.last());
        let fx = fields_of(x);
        let fy = fields_of(y1);
        if is_space(y.last()) {
        } else if y.len() >= 2 && !is_space(y[y.len() - 2]) {
            assert(s[s.len() - 2] == y[y.len() - 2]);
            assert(y1.last() == y[y.len() - 2]);
            crate::gspan_parse::lemma_fields_nonempty(y1);
            assert((fx + fy).update((fx + fy).len() - 1, (fx + fy).last().push(y.last())) =~= fx + fy.update(fy.len() - 1, fy.last().push(y.last())));
        } else {
            if y.len() >= 2 {
                assert(s[s.len() - 2] == y[y.len() - 2]);
            } else {
                assert(s[s.len() - 2] == ' ');
                assert(y1 =~= Seq::<char>::empty());
            }
            assert((fx + fy).push(seq![y.last()]) =~= fx + fy.push(seq![y.last()]));
        }
    }
}

/// Decimal digits: at least one, each a digit, and they read back as the number.
pub(crate) proof fn lemma_decimal(n: nat)
    ensures
        decimal(n).len() >= 1,
        all_digits(decimal(n)),
        digits_value(decimal(n)) == n,
        forall|i: int| 0 <= i < decimal(n).len() ==> !is_space(#[trigger] decimal(n)[i]) && decimal(n)[i] != '\n',
        decimal(n)[0] != '+',
    decreases n,
{
    let d = decimal(n);
    if n >= 10 {
        lemma_decimal(n / 10);
        let r = decimal(n / 10);
        assert(d == r.push(digit_char(n % 10)));
        assert(d.drop_last() =~= r);
        assert(digit_value(digit_char(n % 10)) == Some((n % 10) as nat));
        assert forall|i: int| 0 <= i < d.len() implies #[trigger] digit_value(d[i]) is Some by {
            if i < r.len() {
                assert(d[i] == r[i]);
            }
        }
        assert forall|i: int| 0 <= i < d.len() implies !is_space(#[trigger] d[i]) && d[i] != '\n' by {
            if i < r.len() {
                assert(d[i] == r[i]);
            }
        }
        assert(d[0] == r[0]);
        assert(d.last() == digit_char(n % 10));
        assert(digits_value(d) == digits_value(r) * 10 + (n % 10) as nat);
        assert((n / 10) * 10 + n % 10 == n);
    } else {
        assert(d == seq![digit_char(n)]);
        assert(d.drop_last() =~= Seq::<char>::empty());
        assert(digits_value(d.drop_last()) == 0);
        assert(digit_value(digit_char(n)) == Some(n));
        assert(d.last() == digit_char(n));
    }
}

/// A number written in decimal reads back as itself, up to any bound it meets.
proof fn lemma_parse_decimal(n: nat, max: nat)
    requires
        n <= max,
    ensures
        parse_unsigned(decimal(n), max) == Some(n),
{
    lemma_decimal(n);
}

/// A vertex line without its line feed.
spec fn vertex_content(id: nat, label: VertexLabel) -> Seq<char> {
    seq!['v', ' '] + decimal(id) + seq![' '] + decimal(label.0 as nat)
}

/// The vertex lines without their line feeds.
spec fn vertex_contents(labels: Seq<VertexLabel>) -> Seq<Seq<char>>
    decreases labels.len(),
{
    if labels.len() == 0 {
        Seq::empty()
    } else {
        vertex_contents(labels.drop_last()).push(vertex_content((labels.len() - 1) as nat, labels.last()))
    }
}

/// An edge line without its line feed.
spec fn edge_content(e: Edge) -> Seq<char> {
    seq!['e', ' '] + decimal(e.endpoints[0].0 as nat) + seq![' '] + decimal(e.endpoints[1].0 as nat) + seq![' ']
        + decimal(e.label.0 as nat)
}

/// The edge lines without their line feeds.
spec fn edge_contents(edges: Seq<Edge>) -> Seq<Seq<char>>
    decreases edges.len(),
{
    if edges.len() == 0 {
        Seq::empty()
    } else {
        edge_contents(edges.drop_last()).push(edge_content(edges.last()))
    }
}

/// The first line of a graph, without its line feed.
spec fn header_content(class_label: i8, name: Seq<char>) -> Seq<char> {
    seq!['t', ' ', '#', ' ', '0', ' '] + signed_decimal(class_label as int) + seq![' '] + name
}

/// No character of `x` is a line feed.
spec fn no_newline(x: Seq<char>) -> bool {
    forall|i: int| 0 <= i < x.len() ==> #[trigger] x[i] != '\n'
}

/// A line written with its line feed, then more text: the line comes first.
proof fn lemma_line_then(content: Seq<char>, rest: Seq<char>)
    requires
        no_newline(content),
    ensures
        lines_of(content.push('\n') + rest) == seq![content] + lines_of(rest),
{
    let a = content.push('\n');
    lemma_lines_concat(a, rest);
    lemma_one_line(content);
    assert(a.drop_last() =~= content);
    assert(lines_of(a).drop_last() =~= seq![content]);
}

/// The digits of a number hold no line feed, and neither does a signed number.
proof fn lemma_signed_no_newline(i: int)
    ensures
        no_newline(signed_decimal(i)),
{
    if i < 0 {
        lemma_decimal((-i) as nat);
        let d = decimal((-i) as nat);
        assert forall|k: int| 0 <= k < signed_decimal(i).len() implies #[trigger] signed_decimal(i)[k] != '\n' by {
            if k > 0 {
                assert(signed_decimal(i)[k] == d[k - 1]);
            }
        }
    } else {
        lemma_decimal(i as nat);
    }
}

/// Concatenations of line-feed-free pieces are line-feed free.
proof fn lemma_no_newline_concat(x: Seq<char>, y: Seq<char>)
    requires
        no_newline(x),
        no_newline(y),
    ensures
        no_newline(x + y),
{
    assert forall|i: int| 0 <= i < (x + y).len() implies #[trigger] (x + y)[i] != '\n' by {
        if i < x.len() {
            assert((x + y)[i] == x[i]);
        } else {
            assert((x + y)[i] == y[i - x.len()]);
        }
    }
}

/// The vertex lines, then more text.
proof fn lemma_vertex_lines(labels: Seq<VertexLabel>, rest: Seq<char>)
    ensures
        lines_of(vertex_lines(labels) + rest) == vertex_contents(labels) + lines_of(rest),
    decreases labels.len(),
{
    if labels.len() == 0 {
        assert(vertex_lines(labels) + rest =~= rest);
        assert(vertex_contents(labels) + lines_of(rest) =~= lines_of(rest));
    } else {
        let l1 = labels.drop_last();
        let k = (labels.len() - 1) as nat;
        let c = vertex_content(k, labels.last());
        lemma_decimal(k);
        lemma_decimal(labels.last().0 as nat);
        assert(no_newline(c)) by {
            assert(no_newline(seq!['v', ' ']));
            assert(no_newline(seq![' ']));
            lemma_no_newline_concat(seq!['v', ' '], decimal(k));
            lemma_no_newline_concat(seq!['v', ' '] + decimal(k), seq![' ']);
            lemma_no_newline_concat(seq!['v', ' '] + decimal(k) + seq![' '], decimal(labels.last().0 as nat));
        }
        assert(vertex_line(k, labels.last()) =~= c.push('\n'));
        assert(vertex_lines(labels) + rest =~= vertex_lines(l1) + (c.push('\n') + rest));
        lemma_vertex_lines(l1, c.push('\n') + rest);
        lemma_line_then(c, rest);
        assert(vertex_contents(labels) + lines_of(rest) =~= vertex_contents(l1) + (seq![c] + lines_of(rest)));
    }
}

/// The edge lines, then more text.
proof fn lemma_edge_lines(edges: Seq<Edge>, rest: Seq<char>)
    ensures
        lines_of(edge_lines(edges) + rest) == edge_contents(edges) + lines_of(rest),
    decreases edges.len(),
{
    if edges.len() == 0 {
        assert(edge_lines(edges) + rest =~= rest);
        assert(edge_contents(edges) + lines_of(rest) =~= lines_of(rest));
    } else {
        let e1 = edges.drop_last();
        let e = edges.last();
        let c = edge_content(e);
        lemma_decimal(e.endpoints[0].0 as nat);
        lemma_decimal(e.endpoints[1].0 as nat);
        lemma_decimal(e.label.0 as nat);
        assert(no_newline(c)) by {
            assert(no_newline(seq!['e', ' ']));
            assert(no_newline(seq![' ']));
            let p1 = seq!['e', ' '] + decimal(e.endpoints[0].0 as nat);
            lemma_no_newline_concat(seq!['e', ' '], decimal(e.endpoints[0].0 as nat));
            lemma_no_newline_concat(p1, seq![' ']);
            lemma_no_newline_concat(p1 + seq![' '], decimal(e.endpoints[1].0 as nat));
            lemma_no_newline_concat(p1 + seq![' '] + decimal(e.endpoints[1].0 as nat), seq![' ']);
            lemma_no_newline_concat(p1 + seq![' '] + decimal(e.endpoints[1].0 as nat) + seq![' '], decimal(e.label.0 as nat));
        }
        assert(edge_line(e) =~= c.push('\n'));
        assert(edge_lines(edges) + rest =~= edge_lines(e1) + (c.push('\n') + rest));
        lemma_edge_lines(e1, c.push('\n') + rest);
        lemma_line_then(c, rest);
        assert(edge_contents(edges) + lines_of(rest) =~= edge_contents(e1) + (seq![c] + lines_of(rest)));
    }
}

/// The lines of a graph's text, then more text.
proof fn lemma_graph_lines(g: GraphModel, class_label: i8, name: Seq<char>, rest: Seq<char>)
    requires
        no_newline(name),
    ensures
        lines_of(graph_text(g, class_label, name) + rest)
            == seq![header_content(class_label, name)] + vertex_contents(g.labels) + edge_contents(g.edges)
                + seq![Seq::<char>::empty()] + lines_of(rest),
{
    let h = header_content(class_label, name);
    assert(no_newline(h)) by {
        lemma_signed_no_newline(class_label as int);
        let p0 = seq!['t', ' ', '#', ' ', '0', ' '];
        assert(no_newline(p0));
        assert(no_newline(seq![' ']));
        lemma_no_newline_concat(p0, signed_decimal(class_label as int));
        lemma_no_newline_concat(p0 + signed_decimal(class_label as int), seq![' ']);
        lemma_no_newline_concat(p0 + signed_decimal(class_label as int) + seq![' '], name);
    }
    let tail = seq!['\n'] + rest;
    assert(graph_text(g, class_label, name) + rest =~= h.push('\n') + (vertex_lines(g.labels) + (edge_lines(g.edges) + tail)));
    lemma_line_then(h, vertex_lines(g.labels) + (edge_lines(g.edges) + tail));
    lemma_vertex_lines(g.labels, edge_lines(g.edges) + tail);
    lemma_edge_lines(g.edges, tail);
    assert(no_newline(Seq::<char>::empty()));
    assert(Seq::<char>::empty().push('\n') + rest =~= tail);
    lemma_line_then(Seq::<char>::empty(), rest);
    assert(seq![h] + (vertex_contents(g.labels) + (edge_contents(g.edges) + (seq![Seq::<char>::empty()] + lines_of(rest))))
        =~= seq![h] + vertex_contents(g.labels) + edge_contents(g.edges) + seq![Seq::<char>::empty()] + lines_of(rest));
}

/// The fields of a vertex line.
proof fn lemma_vertex_fields(id: nat, label: VertexLabel)
    ensures
        fields_of(vertex_content(id, label)) == seq![seq!['v'], decimal(id), decimal(label.0 as nat)],
{
    let a = decimal(id);
    let b = decimal(label.0 as nat);
    lemma_decimal(id);
    lemma_decimal(label.0 as nat);
    assert(vertex_content(id, label) =~= seq!['v'] + seq![' '] + (a + seq![' '] + b));
    lemma_fields_split(seq!['v'], a + seq![' '] + b);
    lemma_fields_split(a, b);
    lemma_one_field(seq!['v']);
    lemma_one_field(a);
    lemma_one_field(b);
    assert(seq![seq!['v']] + (seq![a] + seq![b]) =~= seq![seq!['v'], a, b]);
}

/// The fields of an edge line.
proof fn lemma_edge_fields(e: Edge)
    ensures
        fields_of(edge_content(e)) == seq![seq!['e'], decimal(e.endpoints[0].0 as nat), decimal(e.endpoints[1].0 as nat), decimal(e.label.0 as nat)],
{
    let a = decimal(e.endpoints[0].0 as nat);
    let b = decimal(e.endpoints[1].0 as nat);
    let l = decimal(e.label.0 as nat);
    lemma_decimal(e.endpoints[0].0 as nat);
    lemma_decimal(e.endpoints[1].0 as nat);
    lemma_decimal(e.label.0 as nat);
    assert(edge_content(e) =~= seq!['e'] + seq![' '] + (a + seq![' '] + (b + seq![' '] + l)));
    lemma_fields_split(seq!['e'], a + seq![' '] + (b + seq![' '] + l));
    lemma_fields_split(a, b + seq![' '] + l);
    lemma_fields_split(b, l);
    lemma_one_field(seq!['e']);
    lemma_one_field(a);
    lemma_one_field(b);
    lemma_one_field(l);
    assert(seq![seq!['e']] + (seq![a] + (seq![b] + seq![l])) =~= seq![seq!['e'], a, b, l]);
}

/// The first field of a graph's first line is `t`.
proof fn lemma_header_fields(class_label: i8, name: Seq<char>)
    ensures
        fields_of(header_content(class_label, name)).len() >= 1,
        fields_of(header_content(class_label, name))[0] == seq!['t'],
{
    let y = seq!['#', ' ', '0', ' '] + signed_decimal(class_label as int) + seq![' '] + name;
    assert(header_content(class_label, name) =~= seq!['t'] + seq![' '] + y);
    lemma_fields_split(seq!['t'], y);
    lemma_one_field(seq!['t']);
}

/// Reading the vertex lines of a graph declares its vertices in the graph just started.
proof fn lemma_read_vertices(p: Seq<Seq<char>>, gs: Seq<GraphModel>, labels: Seq<VertexLabel>)
    requires
        parse_lines(p) == Ok::<Seq<GraphModel>, ParseError>(gs.push(GraphModel { labels: Seq::empty(), edges: Seq::empty() })),
        labels.len() <= usize::MAX,
    ensures
        parse_lines(p + vertex_contents(labels)) == Ok::<Seq<GraphModel>, ParseError>(gs.push(GraphModel { labels, edges: Seq::empty() })),
    decreases labels.len(),
{
    if labels.len() == 0 {
        assert(p + vertex_contents(labels) =~= p);
        assert(labels =~= Seq::<VertexLabel>::empty());
    } else {
        let l1 = labels.drop_last();
        let k = (labels.len() - 1) as nat;
        let label = labels.last();
        lemma_read_vertices(p, gs, l1);
        let q = p + vertex_contents(l1);
        let line = vertex_content(k, label);
        assert(p + vertex_contents(labels) =~= q.push(line));
        assert(q.push(line).drop_last() =~= q);
        lemma_vertex_fields(k, label);
        lemma_parse_decimal(k, usize::MAX as nat);
        lemma_parse_decimal(label.0 as nat, u32::MAX as nat);
        let f = fields_of(line);
        assert(f[0] == seq!['v']);
        assert(f[0] != seq!['t']) by {
            assert(f[0][0] != seq!['t'][0]);
        }
        assert(field_value(f, 1, usize::MAX as nat) == Some(k));
        assert(field_value(f, 2, u32::MAX as nat) == Some(label.0 as nat));
        let before = gs.push(GraphModel { labels: l1, edges: Seq::empty() });
        assert(before.last().nv() == k);
        assert(VertexLabel((label.0 as nat) as u32) == label);
        assert(l1.push(label) =~= labels);
        assert(before.update(before.len() - 1, GraphModel { labels: l1.push(label), edges: Seq::empty() })
            =~= gs.push(GraphModel { labels, edges: Seq::empty() }));
    }
}

/// Reading the edge lines of a simple graph adds its edges to the graph being read.
proof fn lemma_read_edges(p: Seq<Seq<char>>, gs: Seq<GraphModel>, labels: Seq<VertexLabel>, edges: Seq<Edge>)
    requires
        parse_lines(p) == Ok::<Seq<GraphModel>, ParseError>(gs.push(GraphModel { labels, edges: Seq::empty() })),
        (GraphModel { labels, edges }).simple(),
    ensures
        parse_lines(p + edge_contents(edges)) == Ok::<Seq<GraphModel>, ParseError>(gs.push(GraphModel { labels, edges })),
    decreases edges.len(),
{
    let g = GraphModel { labels, edges };
    if edges.len() == 0 {
        assert(p + edge_contents(edges) =~= p);
        assert(edges =~= Seq::<Edge>::empty());
    } else {
        let e1 = edges.drop_last();
        let e = edges.last();
        let j = edges.len() - 1;
        let g1 = GraphModel { labels, edges: e1 };
        assert(g1.simple()) by {
            assert forall|i: int| 0 <= i < g1.ne() implies #[trigger] edge_in_range(g1.edge_at(i), g1.nv()) by {
                assert(g1.edge_at(i) == g.edge_at(i));
            }
            assert forall|i: int, i2: int| 0 <= i < i2 < g1.ne() implies !joins(
                #[trigger] g1.edge_at(i2),
                src_of(#[trigger] g1.edge_at(i)),
                dst_of(g1.edge_at(i)),
            ) by {
                assert(g1.edge_at(i) == g.edge_at(i));
                assert(g1.edge_at(i2) == g.edge_at(i2));
            }
        }
        lemma_read_edges(p, gs, labels, e1);
        let q = p + edge_contents(e1);
        let line = edge_content(e);
        assert(p + edge_contents(edges) =~= q.push(line));
        assert(q.push(line).drop_last() =~= q);
        lemma_edge_fields(e);
        assert(edge_in_range(g.edge_at(j), g.nv()));
        let a = e.endpoints[0].0 as nat;
        let b = e.endpoints[1].0 as nat;
        lemma_parse_decimal(a, usize::MAX as nat);
        lemma_parse_decimal(b, usize::MAX as nat);
        lemma_parse_decimal(e.label.0 as nat, u32::MAX as nat);
        let f = fields_of(line);
        assert(f[0] == seq!['e']);
        assert(f[0] != seq!['t']) by {
            assert(f[0][0] != seq!['t'][0]);
        }
        assert(f[0] != seq!['v']) by {
            assert(f[0][0] != seq!['v'][0]);
        }
        assert(field_value(f, 1, usize::MAX as nat) == Some(a));
        assert(field_value(f, 2, usize::MAX as nat) == Some(b));
        assert(field_value(f, 3, u32::MAX as nat) == Some(e.label.0 as nat));
        let before = gs.push(g1);
        assert(before.last() == g1);
        assert(!g1.adjacent(a as int, b as int)) by {
            if g1.adjacent(a as int, b as int) {
                let i = choose|i: int| 0 <= i < g1.ne() && #[trigger] joins(g1.edge_at(i), a as int, b as int);
                assert(g1.edge_at(i) == g.edge_at(i));
                assert(!joins(g.edge_at(j), src_of(g.edge_at(i)), dst_of(g.edge_at(i))));
            }
        }
        let made = mk_edge(VertexId(a as usize), VertexId(b as usize), EdgeLabel((e.label.0 as nat) as u32));
        assert(made.endpoints =~= e.endpoints);
        assert(made == e);
        assert(e1.push(e) =~= edges);
        assert(before.update(before.len() - 1, GraphModel { labels, edges: e1.push(made) }) =~= gs.push(g));
    }
}

/// Reading the lines of one written graph, up to its closing empty line, adds that graph.
proof fn lemma_read_graph(p: Seq<Seq<char>>, gs: Seq<GraphModel>, g: GraphModel, class_label: i8, name: Seq<char>)
    requires
        parse_lines(p) == Ok::<Seq<GraphModel>, ParseError>(gs),
        g.simple(),
    ensures
        parse_lines(p + seq![header_content(class_label, name)] + vertex_contents(g.labels) + edge_contents(g.edges)
            + seq![Seq::<char>::empty()]) == Ok::<Seq<GraphModel>, ParseError>(gs.push(g)),
{
    let h = header_content(class_label, name);
    let p1 = p.push(h);
    assert(p1.drop_last() =~= p);
    lemma_header_fields(class_label, name);
    assert(gs.push(empty_model()) == gs.push(GraphModel { labels: Seq::empty(), edges: Seq::empty() }));
    lemma_read_vertices(p1, gs, g.labels);
    let p2 = p1 + vertex_contents(g.labels);
    lemma_read_edges(p2, gs, g.labels, g.edges);
    let p3 = p2 + edge_contents(g.edges);
    assert(GraphModel { labels: g.labels, edges: g.edges } == g);
    let p4 = p3.push(Seq::<char>::empty());
    assert(p4.drop_last() =~= p3);
    assert(fields_of(Seq::<char>::empty()) =~= Seq::<Seq<char>>::empty());
    assert(p + seq![h] + vertex_contents(g.labels) + edge_contents(g.edges) + seq![Seq::<char>::empty()] =~= p4);
}

/// The graphs of the transactions, in order.
pub open spec fn transaction_graphs(ts: Seq<Transaction>) -> Seq<GraphModel> {
    ts.map_values(|t: Transaction| t.graph@)
}

/// The text of the transactions reads back as their graphs; its last line is empty.
proof fn lemma_read_transactions_lines(ts: Seq<Transaction>)
    requires
        forall|i: int| 0 <= i < ts.len() ==> (#[trigger] ts[i]).graph.wf() && no_newline(ts[i].name@),
    ensures
        lines_of(transactions_text(ts)).len() >= 1,
        lines_of(transactions_text(ts)).last() == Seq::<char>::empty(),
        parse_lines(lines_of(transactions_text(ts)).drop_last()) == Ok::<Seq<GraphModel>, ParseError>(transaction_graphs(ts)),
    decreases ts.len(),
{
    let text = transactions_text(ts);
    if ts.len() == 0 {
        assert(text =~= Seq::<char>::empty());
        assert(lines_of(text).drop_last() =~= Seq::<Seq<char>>::empty());
        assert(transaction_graphs(ts) =~= Seq::<GraphModel>::empty());
    } else {
        let t1 = ts.drop_last();
        let t = ts.last();
        assert forall|i: int| 0 <= i < t1.len() implies (#[trigger] t1[i]).graph.wf() && no_newline(t1[i].name@) by {
            assert(t1[i] == ts[i]);
        }
        lemma_read_transactions_lines(t1);
        let a = transactions_text(t1);
        assert(a.len() == 0 || a.last() == '\n') by {
            if a.len() > 0 && a.last() != '\n' {
                crate::gspan_parse::lemma_lines_len(a.drop_last());
                assert(lines_of(a).last() == lines_of(a.drop_last()).last().push(a.last()));
            }
        }
        assert(ts[ts.len() - 1] == t);
        let gt = graph_text(t.graph@, t.class_label, t.name@);
        assert(text == a + gt);
        lemma_lines_concat(a, gt);
        assert(gt + Seq::<char>::empty() =~= gt);
        lemma_graph_lines(t.graph@, t.class_label, t.name@, Seq::<char>::empty());
        let d = lines_of(a).drop_last();
        let h = header_content(t.class_label, t.name@);
        let body = seq![h] + vertex_contents(t.graph@.labels) + edge_contents(t.graph@.edges) + seq![Seq::<char>::empty()];
        assert(lines_of(Seq::<char>::empty()) == seq![Seq::<char>::empty()]);
        assert(lines_of(text) =~= (d + body).push(Seq::<char>::empty()));
        assert(lines_of(text).drop_last() =~= d + body);
        lemma_read_graph(d, transaction_graphs(t1), t.graph@, t.class_label, t.name@);
        assert(d + seq![h] + vertex_contents(t.graph@.labels) + edge_contents(t.graph@.edges) + seq![Seq::<char>::empty()] =~= d + body);
        assert(transaction_graphs(t1).push(t.graph@) =~= transaction_graphs(ts));
    }
}

/// Reading what `write_transactions` writes gives back the graphs of the
/// transactions, in order, when no transaction name holds a line feed.
pub proof fn lemma_read_written_transactions(ts: Seq<Transaction>)
    requires
        forall|i: int| 0 <= i < ts.len() ==> (#[trigger] ts[i]).graph.wf(),
        forall|i: int, k: int| 0 <= i < ts.len() && 0 <= k < ts[i].name@.len() ==> #[trigger] ts[i].name@[k] != '\n',
    ensures
        parse_lines(lines_of(transactions_text(ts))) == Ok::<Seq<GraphModel>, ParseError>(transaction_graphs(ts)),
{
    assert forall|i: int| 0 <= i < ts.len() implies (#[trigger] ts[i]).graph.wf() && no_newline(ts[i].name@) by {
        assert forall|k: int| 0 <= k < ts[i].name@.len() implies #[trigger] ts[i].name@[k] != '\n' by {}
    }
    lemma_read_transactions_lines(ts);
    let lines = lines_of(transactions_text(ts));
    assert(lines.drop_last().push(lines.last()) =~= lines);
    assert(fields_of(Seq::<char>::empty()) =~= Seq::<Seq<char>>::empty());
}

} // verus!
