//! Reading back what the writers write: a DFS code written as tuples, and a mined
//! pattern written in pattern style, read back as the same DFS code.
use vstd::prelude::*;

use crate::code_spec::rm_path;
use crate::embed_spec::{
    backward_via, embeds, forward_via, greedy_prefix, gv, is_min_candidate, lemma_rm_path, path_index,
};
use crate::graph::{opposite, EdgeLabel, GraphModel, VertexId, VertexLabel};
use crate::graph_to_mindfs::{vcount, Dfs5Tuple, DfsVertexId};
use crate::gspan_parse::{all_digits, digit_value, digits_value, fields_of, is_space};
use crate::gspan_text::{code_text, decimal, pattern_code_text, pattern_edge_text, tuple_text};
use crate::pattern_graph::{code_graph, first_label, lemma_embeds_consistent};
use crate::subgraph_mining::frequent_pattern;
use crate::round_trip::{lemma_decimal, lemma_fields_split, lemma_one_field};

verus! {

/// The pieces of `s` between the separators `sep`, empty pieces included.
pub open spec fn split_on(s: Seq<char>, sep: char) -> Seq<Seq<char>>
    decreases s.len(),
{
    if s.len() == 0 {
        seq![Seq::empty()]
    } else {
        let r = split_on(s.drop_last(), sep);
        if s.last() == sep {
            r.push(Seq::empty())
        } else {
            r.update(r.len() - 1, r.last().push(s.last()))
        }
    }
}

/// The number that the nonempty run of decimal digits `d` writes.
pub open spec fn read_number(d: Seq<char>) -> Option<nat> {
    if d.len() > 0 && all_digits(d) {
        Some(digits_value(d))
    } else {
        None
    }
}

/// What stands between the brackets of a token `(...)`.
pub open spec fn bracketed(tok: Seq<char>) -> Option<Seq<char>> {
    if tok.len() >= 2 && tok[0] == '(' && tok.last() == ')' {
        Some(tok.subrange(1, tok.len() - 1))
    } else {
        None
    }
}

/// A DFS vertex id read from text, if it fits.
pub open spec fn read_id(d: Seq<char>) -> Option<DfsVertexId> {
    match read_number(d) {
        Some(n) => if n <= usize::MAX { Some(DfsVertexId(n as usize)) } else { None },
        None => None,
    }
}

/// A label value read from text, if it fits.
pub open spec fn read_label(d: Seq<char>) -> Option<u32> {
    match read_number(d) {
        Some(n) => if n <= u32::MAX { Some(n as u32) } else { None },
        None => None,
    }
}

/// A DFS edge read from a token `(from,to,from_label,edge_label,to_label)`.
pub open spec fn read_tuple(tok: Seq<char>) -> Option<Dfs5Tuple> {
    match bracketed(tok) {
        None => None,
        Some(body) => {
            let p = split_on(body, ',');
            if p.len() == 5 && read_id(p[0]) is Some && read_id(p[1]) is Some && read_label(p[2]) is Some
                && read_label(p[3]) is Some && read_label(p[4]) is Some {
                Some(Dfs5Tuple {
                    from: read_id(p[0])->0,
                    to: read_id(p[1])->0,
                    from_label: VertexLabel(read_label(p[2])->0),
                    edge_label: EdgeLabel(read_label(p[3])->0),
                    to_label: VertexLabel(read_label(p[4])->0),
                })
            } else {
                None
            }
        },
    }
}

/// A DFS code read from its edges written as tuples separated by white space.
pub open spec fn read_code(text: Seq<char>) -> Option<Seq<Dfs5Tuple>> {
    let toks = fields_of(text);
    if forall|i: int| 0 <= i < toks.len() ==> #[trigger] read_tuple(toks[i]) is Some {
        Some(toks.map_values(|tok: Seq<char>| read_tuple(tok)->0))
    } else {
        None
    }
}

/// Text without the separator is one piece.
proof fn lemma_split_single(x: Seq<char>, sep: char)
    requires
        forall|i: int| 0 <= i < x.len() ==> x[i] != sep,
    ensures
        split_on(x, sep) == seq![x],
    decreases x.len(),
{
    if x.len() > 0 {
        lemma_split_single(x.drop_last(), sep);
        assert(x.drop_last().push(x.last()) =~= x);
        assert(seq![x.drop_last()].update(0, x.drop_last().push(x.last())) =~= seq![x]);
    } else {
        assert(x =~= Seq::<char>::empty());
    }
}

/// Text that ends in the separator, then more text: the pieces of both sides.
proof fn lemma_split_after(a: Seq<char>, b: Seq<char>, sep: char)
    requires
        a.len() > 0,
        a.last() == sep,
    ensures
        split_on(a + b, sep) == split_on(a, sep).drop_last() + split_on(b, sep),
    decreases b.len(),
{
    if b.len() == 0 {
        assert(a + b =~= a);
        assert(split_on(a, sep) == split_on(a.drop_last(), sep).push(Seq::<char>::empty()));
        assert(split_on(a, sep).drop_last() + split_on(b, sep) =~= split_on(a, sep));
    } else {
        let b1 = b.drop_last();
        lemma_split_after(a, b1, sep);
        assert((a + b).drop_last() =~= a + b1);
        assert((a + b).last() == b.last());
        lemma_split_len(b1, sep);
        let x = split_on(a, sep).drop_last();
        let r = split_on(b1, sep);
        if b.last() == sep {
            assert((x + r).push(Seq::<char>::empty()) =~= x + r.push(Seq::<char>::empty()));
        } else {
            assert((x + r).update((x + r).len() - 1, (x + r).last().push(b.last())) =~= x + r.update(r.len() - 1, r.last().push(b.last())));
        }
    }
}

/// There is always at least one piece.
proof fn lemma_split_len(s: Seq<char>, sep: char)
    ensures
        split_on(s, sep).len() >= 1,
    decreases s.len(),
{
    if s.len() > 0 {
        lemma_split_len(s.drop_last(), sep);
    }
}

/// Pieces joined by the separator split back into the pieces.
proof fn lemma_split_join(x: Seq<char>, y: Seq<char>, sep: char)
    ensures
        split_on(x + seq![sep] + y, sep) == split_on(x, sep) + split_on(y, sep),
{
    let a = x + seq![sep];
    assert(a.drop_last() =~= x);
    lemma_split_after(a, y, sep);
    assert(split_on(a, sep) == split_on(x, sep).push(Seq::<char>::empty()));
    assert(split_on(a, sep).drop_last() =~= split_on(x, sep));
}

/// A number written in decimal reads back, and its digits are none of the marks
/// used around numbers.
proof fn lemma_number(n: nat)
    ensures
        read_number(decimal(n)) == Some(n),
        forall|i: int| 0 <= i < decimal(n).len() ==> {
            &&& !is_space(#[trigger] decimal(n)[i])
            &&& decimal(n)[i] != ','
            &&& decimal(n)[i] != 'f'
            &&& decimal(n)[i] != 'b'
            &&& decimal(n)[i] != '('
            &&& decimal(n)[i] != ')'
        },
{
    lemma_decimal(n);
    assert forall|i: int| 0 <= i < decimal(n).len() implies {
        &&& !is_space(#[trigger] decimal(n)[i])
        &&& decimal(n)[i] != ','
        &&& decimal(n)[i] != 'f'
        &&& decimal(n)[i] != 'b'
        &&& decimal(n)[i] != '('
        &&& decimal(n)[i] != ')'
    } by {
        assert(digit_value(decimal(n)[i]) is Some);
        assert(digit_value(',') is None);
        assert(digit_value('f') is None);
        assert(digit_value('b') is None);
        assert(digit_value('(') is None);
        assert(digit_value(')') is None);
    }
}

/// No character of `s` is white space.
spec fn no_space(s: Seq<char>) -> bool {
    forall|i: int| 0 <= i < s.len() ==> !is_space(#[trigger] s[i])
}

proof fn lemma_no_space_concat(a: Seq<char>, b: Seq<char>)
    requires
        no_space(a),
        no_space(b),
    ensures
        no_space(a + b),
{
    assert forall|i: int| 0 <= i < (a + b).len() implies !is_space(#[trigger] (a + b)[i]) by {
        if i < a.len() {
            assert((a + b)[i] == a[i]);
        } else {
            assert((a + b)[i] == b[i - a.len()]);
        }
    }
}

/// No separator `sep` occurs in `s`.
spec fn free_of(s: Seq<char>, sep: char) -> bool {
    forall|i: int| 0 <= i < s.len() ==> #[trigger] s[i] != sep
}

/// Five pieces joined by commas split back into the five pieces.
proof fn lemma_split_five(d0: Seq<char>, d1: Seq<char>, d2: Seq<char>, d3: Seq<char>, d4: Seq<char>)
    requires
        free_of(d0, ','),
        free_of(d1, ','),
        free_of(d2, ','),
        free_of(d3, ','),
        free_of(d4, ','),
    ensures
        split_on(d0 + seq![','] + d1 + seq![','] + d2 + seq![','] + d3 + seq![','] + d4, ',') == seq![d0, d1, d2, d3, d4],
{
    lemma_split_single(d4, ',');
    lemma_split_single(d3, ',');
    lemma_split_single(d2, ',');
    lemma_split_single(d1, ',');
    lemma_split_single(d0, ',');
    let e3 = d3 + seq![','] + d4;
    let e2 = d2 + seq![','] + e3;
    let e1 = d1 + seq![','] + e2;
    lemma_split_join(d3, d4, ',');
    lemma_split_join(d2, e3, ',');
    lemma_split_join(d1, e2, ',');
    lemma_split_join(d0, e1, ',');
    assert(d0 + seq![','] + d1 + seq![','] + d2 + seq![','] + d3 + seq![','] + d4 =~= d0 + seq![','] + e1);
    assert(split_on(d0 + seq![','] + e1, ',') =~= seq![d0, d1, d2, d3, d4]);
}

/// A number written in decimal: it reads back, holds no space and no comma.
proof fn lemma_decimal_piece(n: nat)
    ensures
        read_number(decimal(n)) == Some(n),
        no_space(decimal(n)),
        free_of(decimal(n), ','),
        free_of(decimal(n), 'f'),
        decimal(n).len() > 0,
        decimal(n)[0] != 'b',
{
    lemma_number(n);
}

/// A DFS edge written as a tuple reads back as itself, and its text holds no space.
proof fn lemma_read_tuple(t: Dfs5Tuple)
    ensures
        read_tuple(tuple_text(t)) == Some(t),
        tuple_text(t).len() > 0,
        forall|i: int| 0 <= i < tuple_text(t).len() ==> !is_space(#[trigger] tuple_text(t)[i]),
{
    let d0 = decimal(t.from.0 as nat);
    let d1 = decimal(t.to.0 as nat);
    let d2 = decimal(t.from_label.0 as nat);
    let d3 = decimal(t.edge_label.0 as nat);
    let d4 = decimal(t.to_label.0 as nat);
    lemma_decimal_piece(t.from.0 as nat);
    lemma_decimal_piece(t.to.0 as nat);
    lemma_decimal_piece(t.from_label.0 as nat);
    lemma_decimal_piece(t.edge_label.0 as nat);
    lemma_decimal_piece(t.to_label.0 as nat);
    let body = d0 + seq![','] + d1 + seq![','] + d2 + seq![','] + d3 + seq![','] + d4;
    let text = tuple_text(t);
    assert(text =~= seq!['('] + body + seq![')']);
    assert(bracketed(text) == Some(body)) by {
        assert(text.subrange(1, text.len() - 1) =~= body);
    }
    lemma_split_five(d0, d1, d2, d3, d4);
    assert(no_space(seq!['('])) by {
        assert(!is_space('('));
    }
    assert(no_space(seq![','])) by {
        assert(!is_space(','));
    }
    assert(no_space(seq![')'])) by {
        assert(!is_space(')'));
    }
    lemma_no_space_concat(seq!['('], d0);
    lemma_no_space_concat(seq!['('] + d0, seq![',']);
    lemma_no_space_concat(seq!['('] + d0 + seq![','], d1);
    lemma_no_space_concat(seq!['('] + d0 + seq![','] + d1, seq![',']);
    lemma_no_space_concat(seq!['('] + d0 + seq![','] + d1 + seq![','], d2);
    lemma_no_space_concat(seq!['('] + d0 + seq![','] + d1 + seq![','] + d2, seq![',']);
    lemma_no_space_concat(seq!['('] + d0 + seq![','] + d1 + seq![','] + d2 + seq![','], d3);
    lemma_no_space_concat(seq!['('] + d0 + seq![','] + d1 + seq![','] + d2 + seq![','] + d3, seq![',']);
    lemma_no_space_concat(seq!['('] + d0 + seq![','] + d1 + seq![','] + d2 + seq![','] + d3 + seq![','], d4);
    lemma_no_space_concat(seq!['('] + d0 + seq![','] + d1 + seq![','] + d2 + seq![','] + d3 + seq![','] + d4, seq![')']);
}

/// The tokens of a written code are the texts of its edges.
proof fn lemma_code_fields(s: Seq<Dfs5Tuple>)
    ensures
        fields_of(code_text(s)) == s.map_values(|t: Dfs5Tuple| tuple_text(t)),
    decreases s.len(),
{
    if s.len() == 0 {
        assert(fields_of(Seq::<char>::empty()) =~= Seq::<Seq<char>>::empty());
        assert(s.map_values(|t: Dfs5Tuple| tuple_text(t)) =~= Seq::<Seq<char>>::empty());
    } else if s.len() == 1 {
        lemma_read_tuple(s[0]);
        lemma_one_field(tuple_text(s[0]));
        assert(s.map_values(|t: Dfs5Tuple| tuple_text(t)) =~= seq![tuple_text(s[0])]);
    } else {
        lemma_code_fields(s.drop_last());
        lemma_read_tuple(s.last());
        lemma_one_field(tuple_text(s.last()));
        lemma_fields_split(code_text(s.drop_last()), tuple_text(s.last()));
        assert(s.map_values(|t: Dfs5Tuple| tuple_text(t))
            =~= s.drop_last().map_values(|t: Dfs5Tuple| tuple_text(t)) + seq![tuple_text(s.last())]);
    }
}

/// A DFS code written as tuples reads back as the same code: every field of every
/// edge, `from` and `to` ids included, is written where the reader finds it.
pub proof fn lemma_read_written_code(s: Seq<Dfs5Tuple>)
    ensures
        read_code(code_text(s)) == Some(s),
{
    lemma_code_fields(s);
    let toks = fields_of(code_text(s));
    assert forall|i: int| 0 <= i < toks.len() implies #[trigger] read_tuple(toks[i]) == Some(s[i]) by {
        lemma_read_tuple(s[i]);
    }
    assert(toks.map_values(|tok: Seq<char>| read_tuple(tok)->0) =~= s);
}

/// A pattern-style code is in the shape the text can hold: it starts with the edge
/// `0 -> 1`; each later forward edge discovers the next vertex from a known one, and
/// each later backward edge leaves the most recently discovered vertex; every label
/// of a known vertex is the one it was discovered with.
pub open spec fn pattern_shaped(s: Seq<Dfs5Tuple>) -> bool {
    &&& s.len() >= 1
    &&& s[0].from.0 == 0
    &&& s[0].to.0 == 1
    &&& forall|k: int| 1 <= k < s.len() ==> #[trigger] step_shaped(s.take(k), s[k])
}

/// The edge `t` may follow `p` in a pattern-style code.
pub open spec fn step_shaped(p: Seq<Dfs5Tuple>, t: Dfs5Tuple) -> bool {
    let n = vcount(p);
    if t.forward() {
        &&& t.to.0 == n
        &&& t.from.0 < n
        &&& t.from_label == first_label(p, t.from.0 as int)
    } else {
        &&& n >= 1
        &&& t.from.0 == n - 1
        &&& t.from_label == first_label(p, n - 1)
        &&& t.to_label == first_label(p, t.to.0 as int)
    }
}

/// A later edge read from its edge-label token and its bracketed token, after the
/// edges `prev`: `(<from>f<to_label>)` discovers the next vertex from `from`, and
/// `(b<to>)` returns from the most recent vertex to `to`.
pub open spec fn read_pattern_edge(prev: Seq<Dfs5Tuple>, label_tok: Seq<char>, tok: Seq<char>) -> Option<Dfs5Tuple> {
    let n = vcount(prev);
    match (read_label(label_tok), bracketed(tok)) {
        (Some(el), Some(body)) => {
            if body.len() >= 1 && body[0] == 'b' {
                match read_id(body.drop_first()) {
                    Some(to) => if n >= 1 {
                        Some(Dfs5Tuple {
                            from: DfsVertexId((n - 1) as usize),
                            to,
                            from_label: first_label(prev, n - 1),
                            edge_label: EdgeLabel(el),
                            to_label: first_label(prev, to.0 as int),
                        })
                    } else {
                        None
                    },
                    None => None,
                }
            } else {
                let p = split_on(body, 'f');
                if p.len() == 2 && read_id(p[0]) is Some && read_label(p[1]) is Some && n <= usize::MAX {
                    let from = read_id(p[0])->0;
                    Some(Dfs5Tuple {
                        from,
                        to: DfsVertexId(n as usize),
                        from_label: first_label(prev, from.0 as int),
                        edge_label: EdgeLabel(el),
                        to_label: VertexLabel(read_label(p[1])->0),
                    })
                } else {
                    None
                }
            }
        },
        _ => None,
    }
}

/// The first edge read from `(<label>)`, its edge-label token and `(0f<to_label>)`.
pub open spec fn read_first_edge(root_tok: Seq<char>, label_tok: Seq<char>, tok: Seq<char>) -> Option<Dfs5Tuple> {
    match (bracketed(root_tok), read_label(label_tok), bracketed(tok)) {
        (Some(root), Some(el), Some(body)) => {
            let p = split_on(body, 'f');
            if read_label(root) is Some && p.len() == 2 && read_id(p[0]) == Some(DfsVertexId(0)) && read_label(p[1]) is Some {
                Some(Dfs5Tuple {
                    from: DfsVertexId(0),
                    to: DfsVertexId(1),
                    from_label: VertexLabel(read_label(root)->0),
                    edge_label: EdgeLabel(el),
                    to_label: VertexLabel(read_label(p[1])->0),
                })
            } else {
                None
            }
        },
        _ => None,
    }
}

/// A code read from the tokens of a pattern: the root label, then an edge label and
/// a bracketed token per edge.
pub open spec fn read_pattern_tokens(toks: Seq<Seq<char>>) -> Option<Seq<Dfs5Tuple>>
    decreases toks.len(),
{
    if toks.len() == 3 {
        match read_first_edge(toks[0], toks[1], toks[2]) {
            Some(t) => Some(seq![t]),
            None => None,
        }
    } else if toks.len() > 3 {
        match read_pattern_tokens(toks.take(toks.len() - 2)) {
            Some(prev) => match read_pattern_edge(prev, toks[toks.len() - 2], toks[toks.len() - 1]) {
                Some(t) => Some(prev.push(t)),
                None => None,
            },
            None => None,
        }
    } else {
        None
    }
}

/// A code read from its pattern-style text.
pub open spec fn read_pattern_code(text: Seq<char>) -> Option<Seq<Dfs5Tuple>> {
    read_pattern_tokens(fields_of(text))
}

/// The bracketed token of a later edge in pattern style.
spec fn edge_token(t: Dfs5Tuple) -> Seq<char> {
    if t.forward() {
        seq!['('] + decimal(t.from.0 as nat) + seq!['f'] + decimal(t.to_label.0 as nat) + seq![')']
    } else {
        seq!['(', 'b'] + decimal(t.to.0 as nat) + seq![')']
    }
}

/// A bracketed edge token holds no space.
proof fn lemma_edge_token_no_space(t: Dfs5Tuple)
    ensures
        no_space(edge_token(t)),
        edge_token(t).len() > 0,
{
    assert(!is_space('(') && !is_space(')') && !is_space('f') && !is_space('b'));
    if t.forward() {
        let d0 = decimal(t.from.0 as nat);
        let d1 = decimal(t.to_label.0 as nat);
        lemma_decimal_piece(t.from.0 as nat);
        lemma_decimal_piece(t.to_label.0 as nat);
        lemma_no_space_concat(seq!['('], d0);
        lemma_no_space_concat(seq!['('] + d0, seq!['f']);
        lemma_no_space_concat(seq!['('] + d0 + seq!['f'], d1);
        lemma_no_space_concat(seq!['('] + d0 + seq!['f'] + d1, seq![')']);
    } else {
        let d = decimal(t.to.0 as nat);
        lemma_decimal_piece(t.to.0 as nat);
        lemma_no_space_concat(seq!['(', 'b'], d);
        lemma_no_space_concat(seq!['(', 'b'] + d, seq![')']);
    }
}

/// The text of a later edge is its edge label and its bracketed token, each after a
/// space; neither holds a space.
proof fn lemma_edge_token(t: Dfs5Tuple)
    ensures
        pattern_edge_text(t) == seq![' '] + decimal(t.edge_label.0 as nat) + seq![' '] + edge_token(t),
        no_space(edge_token(t)),
        edge_token(t).len() > 0,
        no_space(decimal(t.edge_label.0 as nat)),
        decimal(t.edge_label.0 as nat).len() > 0,
{
    lemma_decimal_piece(t.edge_label.0 as nat);
    lemma_edge_token_no_space(t);
    assert(pattern_edge_text(t) =~= seq![' '] + decimal(t.edge_label.0 as nat) + seq![' '] + edge_token(t));
}

/// The tokens of a pattern-style code: the root label, then each edge's label and
/// bracketed token.
spec fn pattern_tokens(s: Seq<Dfs5Tuple>) -> Seq<Seq<char>>
    decreases s.len(),
{
    if s.len() <= 1 {
        seq![
            seq!['('] + decimal(s[0].from_label.0 as nat) + seq![')'],
            decimal(s[0].edge_label.0 as nat),
            seq!['('] + decimal(s[0].from.0 as nat) + seq!['f'] + decimal(s[0].to_label.0 as nat) + seq![')'],
        ]
    } else {
        pattern_tokens(s.drop_last()) + seq![decimal(s.last().edge_label.0 as nat), edge_token(s.last())]
    }
}

/// The fields of a written one-edge code are its three tokens.
proof fn lemma_pattern_fields_first(s: Seq<Dfs5Tuple>)
    requires
        s.len() == 1,
    ensures
        fields_of(pattern_code_text(s)) == pattern_tokens(s),
        pattern_tokens(s).len() == 3,
{
    let t = s[0];
    let r = seq!['('] + decimal(t.from_label.0 as nat) + seq![')'];
    let el = decimal(t.edge_label.0 as nat);
    let f = seq!['('] + decimal(t.from.0 as nat) + seq!['f'] + decimal(t.to_label.0 as nat) + seq![')'];
    lemma_decimal_piece(t.from_label.0 as nat);
    lemma_decimal_piece(t.edge_label.0 as nat);
    lemma_decimal_piece(t.from.0 as nat);
    lemma_decimal_piece(t.to_label.0 as nat);
    assert(!is_space('(') && !is_space(')') && !is_space('f'));
    lemma_no_space_concat(seq!['('], decimal(t.from_label.0 as nat));
    lemma_no_space_concat(seq!['('] + decimal(t.from_label.0 as nat), seq![')']);
    lemma_no_space_concat(seq!['('], decimal(t.from.0 as nat));
    lemma_no_space_concat(seq!['('] + decimal(t.from.0 as nat), seq!['f']);
    lemma_no_space_concat(seq!['('] + decimal(t.from.0 as nat) + seq!['f'], decimal(t.to_label.0 as nat));
    lemma_no_space_concat(seq!['('] + decimal(t.from.0 as nat) + seq!['f'] + decimal(t.to_label.0 as nat), seq![')']);
    lemma_one_field(r);
    lemma_one_field(el);
    lemma_one_field(f);
    assert(pattern_code_text(s) =~= r + seq![' '] + (el + seq![' '] + f));
    lemma_fields_split(r, el + seq![' '] + f);
    lemma_fields_split(el, f);
    assert(pattern_tokens(s) =~= seq![r, el, f]);
}

/// The fields of a written pattern-style code are its tokens.
proof fn lemma_pattern_fields(s: Seq<Dfs5Tuple>)
    requires
        s.len() >= 1,
    ensures
        fields_of(pattern_code_text(s)) == pattern_tokens(s),
        pattern_tokens(s).len() == 2 * s.len() + 1,
    decreases s.len(),
{
    if s.len() == 1 {
        lemma_pattern_fields_first(s);
    } else {
        let t = s.last();
        lemma_pattern_fields(s.drop_last());
        lemma_edge_token(t);
        let el = decimal(t.edge_label.0 as nat);
        let tok = edge_token(t);
        lemma_one_field(el);
        lemma_one_field(tok);
        assert(pattern_code_text(s) =~= pattern_code_text(s.drop_last()) + seq![' '] + (el + seq![' '] + tok));
        lemma_fields_split(pattern_code_text(s.drop_last()), el + seq![' '] + tok);
        lemma_fields_split(el, tok);
    }
}

/// A later edge of a pattern-style code reads back from its two tokens.
proof fn lemma_read_pattern_edge(p: Seq<Dfs5Tuple>, t: Dfs5Tuple)
    requires
        step_shaped(p, t),
    ensures
        read_pattern_edge(p, decimal(t.edge_label.0 as nat), edge_token(t)) == Some(t),
{
    lemma_decimal_piece(t.edge_label.0 as nat);
    lemma_decimal_piece(t.from.0 as nat);
    lemma_decimal_piece(t.to.0 as nat);
    lemma_decimal_piece(t.to_label.0 as nat);
    let tok = edge_token(t);
    if t.forward() {
        let body = decimal(t.from.0 as nat) + seq!['f'] + decimal(t.to_label.0 as nat);
        assert(tok =~= seq!['('] + body + seq![')']);
        assert(tok.subrange(1, tok.len() - 1) =~= body);
        assert(body[0] != 'b');
        lemma_split_single(decimal(t.from.0 as nat), 'f');
        lemma_split_single(decimal(t.to_label.0 as nat), 'f');
        lemma_split_join(decimal(t.from.0 as nat), decimal(t.to_label.0 as nat), 'f');
        assert(split_on(body, 'f') =~= seq![decimal(t.from.0 as nat), decimal(t.to_label.0 as nat)]);
    } else {
        let body = seq!['b'] + decimal(t.to.0 as nat);
        assert(tok =~= seq!['('] + body + seq![')']);
        assert(tok.subrange(1, tok.len() - 1) =~= body);
        assert(body.drop_first() =~= decimal(t.to.0 as nat));
    }
}

/// The first edge of a pattern-style code reads back from its three tokens.
proof fn lemma_read_first_edge(t: Dfs5Tuple)
    requires
        t.from.0 == 0,
        t.to.0 == 1,
    ensures
        read_first_edge(
            seq!['('] + decimal(t.from_label.0 as nat) + seq![')'],
            decimal(t.edge_label.0 as nat),
            seq!['('] + decimal(t.from.0 as nat) + seq!['f'] + decimal(t.to_label.0 as nat) + seq![')'],
        ) == Some(t),
{
    lemma_decimal_piece(t.from_label.0 as nat);
    lemma_decimal_piece(t.edge_label.0 as nat);
    lemma_decimal_piece(t.from.0 as nat);
    lemma_decimal_piece(t.to_label.0 as nat);
    let r = seq!['('] + decimal(t.from_label.0 as nat) + seq![')'];
    assert(r.subrange(1, r.len() - 1) =~= decimal(t.from_label.0 as nat));
    let body = decimal(t.from.0 as nat) + seq!['f'] + decimal(t.to_label.0 as nat);
    let f = seq!['('] + body + seq![')'];
    assert(seq!['('] + decimal(t.from.0 as nat) + seq!['f'] + decimal(t.to_label.0 as nat) + seq![')'] =~= f);
    assert(f.subrange(1, f.len() - 1) =~= body);
    lemma_split_single(decimal(t.from.0 as nat), 'f');
    lemma_split_single(decimal(t.to_label.0 as nat), 'f');
    lemma_split_join(decimal(t.from.0 as nat), decimal(t.to_label.0 as nat), 'f');
}

/// A mined pattern written in pattern style reads back as the same DFS code: the
/// root label, every edge label, the start and new label of each forward edge and
/// the DFS id that each backward edge returns to are all in the text.
pub proof fn lemma_read_written_pattern(s: Seq<Dfs5Tuple>)
    requires
        pattern_shaped(s),
    ensures
        read_pattern_code(pattern_code_text(s)) == Some(s),
    decreases s.len(),
{
    lemma_pattern_fields(s);
    if s.len() == 1 {
        lemma_read_first_edge(s[0]);
        assert(seq![s[0]] =~= s);
    } else {
        let d = s.drop_last();
        assert(pattern_shaped(d)) by {
            assert forall|k: int| 1 <= k < d.len() implies #[trigger] step_shaped(d.take(k), d[k]) by {
                assert(d.take(k) =~= s.take(k));
                assert(step_shaped(s.take(k), s[k]));
            }
        }
        lemma_read_written_pattern(d);
        lemma_pattern_fields(d);
        let toks = pattern_tokens(s);
        assert(toks.take(toks.len() - 2) =~= pattern_tokens(d));
        assert(s.take(s.len() - 1) =~= d);
        assert(step_shaped(s.take(s.len() - 1), s[s.len() - 1]));
        lemma_read_pattern_edge(d, s.last());
        assert(d.push(s.last()) =~= s);
    }
}

/// Every greedy prefix of a graph's minimum code has the shape the pattern text can
/// hold: backward edges leave the most recent vertex, forward edges discover the
/// next one, and labels are those of the graph's vertices.
pub proof fn lemma_greedy_prefix_shaped(g: GraphModel, x: Seq<Dfs5Tuple>)
    requires
        g.simple(),
        greedy_prefix(g, x),
        x.len() >= 1,
    ensures
        pattern_shaped(x),
{
    assert(x.take(0) =~= Seq::<Dfs5Tuple>::empty());
    assert(is_min_candidate(g, x.take(0), x[0]));
    assert forall|k: int| 1 <= k < x.len() implies #[trigger] step_shaped(x.take(k), x[k]) by {
        let p = x.take(k);
        assert(is_min_candidate(g, p, x[k]));
        if exists|m: Seq<VertexId>, e: int| embeds(g, p, m) && #[trigger] backward_via(g, p, m, e) == Some(x[k]) {
            let (m, e) = choose|m: Seq<VertexId>, e: int| embeds(g, p, m) && #[trigger] backward_via(g, p, m, e) == Some(x[k]);
            crate::coverage::lemma_embedding_len_le(g, p, m);
            lemma_rm_path(g, p, m);
            lemma_embeds_consistent(g, p, m);
            let q = rm_path(p);
            let b = opposite(g.edge_at(e), gv(m, q.last()));
            let j = path_index(q, m, b);
            assert(0 <= j < q.len() && gv(m, q[j]) == b) by {
                assert(exists|y: int| 0 <= y < q.len() && #[trigger] gv(m, q[y]) == b);
            }
            assert(x[k].from == q.last() && x[k].to == q[j]);
            if j < q.len() - 1 {
                assert(q[j].0 < q[q.len() - 1].0);
            }
            assert(DfsVertexId(x[k].from.0 as int as usize) == x[k].from);
            assert(DfsVertexId(x[k].to.0 as int as usize) == x[k].to);
        } else {
            let (m, idx, e) = choose|m: Seq<VertexId>, idx: int, e: int| embeds(g, p, m)
                && (#[trigger] forward_via(g, p, m, idx, e) matches Some(y) && y.0 == x[k]);
            crate::coverage::lemma_embedding_len_le(g, p, m);
            lemma_rm_path(g, p, m);
            lemma_embeds_consistent(g, p, m);
            let q = rm_path(p);
            assert(q[idx].0 < vcount(p));
            assert(DfsVertexId(x[k].from.0 as int as usize) == x[k].from);
        }
    }
}

/// Every pattern that the search reports reads back from its pattern-style text as
/// the same DFS code.
pub proof fn lemma_reported_pattern_reads_back(gs: Seq<GraphModel>, min_support: nat, x: Seq<Dfs5Tuple>)
    requires
        forall|i: int| 0 <= i < gs.len() ==> (#[trigger] gs[i]).simple(),
        frequent_pattern(gs, min_support, x),
    ensures
        read_pattern_code(pattern_code_text(x)) == Some(x),
{
    crate::frequent_subgraphs::lemma_reported_pattern_is_frequent_subgraph(gs, min_support, x);
    lemma_greedy_prefix_shaped(code_graph(x), x);
    lemma_read_written_pattern(x);
}

} // verus!
