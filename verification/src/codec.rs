use vstd::prelude::*;
use vstd::string::StringExecFns;
use vstd::string::StrSliceExecFns;

use crate::graph::{edges_valid, has_id, ids_distinct, nodes_valid, Graph, GraphError};
use crate::node::{AsText, Node};
use crate::numtext::{
    int_text, is_ws_char, lemma_int_text, parse_i32_range, parse_i32_spec, push_int_text,
};

verus! {

/// The serialized text of an edge list: each target's decimal text,
/// each followed by one space.
pub open spec fn edges_text(edges: Seq<i32>) -> Seq<char>
    decreases edges.len(),
{
    if edges.len() == 0 {
        Seq::<char>::empty()
    } else {
        int_text(edges[0] as int) + seq![' '] + edges_text(edges.drop_first())
    }
}

/// The serialized line of one node, newline excluded: identifier, space,
/// payload text, space, then the edge targets, each followed by a space.
pub open spec fn line_text<T: AsText>(node: Node<T>) -> Seq<char> {
    int_text(node.id as int) + seq![' '] + node.data.text_spec() + seq![' '] + edges_text(
        node.edges@,
    )
}

/// The serialized text of a whole graph: one line per node, in node
/// order, each terminated by a single newline.
pub open spec fn graph_text<T: AsText>(nodes: Seq<Node<T>>) -> Seq<char>
    decreases nodes.len(),
{
    if nodes.len() == 0 {
        Seq::<char>::empty()
    } else {
        line_text(nodes[0]) + seq!['\n'] + graph_text(nodes.drop_first())
    }
}

impl<T: AsText> Graph<T> {
    /// Writes the graph in its line-oriented text format: per node one
    /// line `<id> <data-as-text> <edge-id> ... ` with single spaces, a
    /// trailing space before the newline on every line, and no blank
    /// line after the last node.
    #[verifier::loop_isolation(false)]
    pub fn serialization(&self) -> (r: String)
        ensures
            r@ == graph_text(self.nodes@),
    {
        proof {
            reveal_strlit(" ");
            reveal_strlit("\n");
            assert(" "@ =~= seq![' ']);
            assert("\n"@ =~= seq!['\n']);
        }
        let ghost ns = self.nodes@;
        let mut out = String::new();
        let n = self.nodes.len();
        let mut i: usize = 0;
        proof {
            assert(ns.subrange(0, n as int) =~= ns);
            assert(out@ + graph_text(ns) =~= graph_text(ns));
        }
        while i < n
            invariant
                i <= n,
                out@ + graph_text(ns.subrange(i as int, n as int)) == graph_text(ns),
            decreases n - i,
        {
            let ghost line_start = out@;
            proof {
                assert(ns.subrange(i as int, n as int)[0] == ns[i as int]);
                assert(ns.subrange(i as int, n as int).drop_first() =~= ns.subrange(
                    (i + 1) as int,
                    n as int,
                ));
            }
            push_int_text(&mut out, self.nodes[i].id);
            out.append(" ");
            let data_text = self.nodes[i].data.to_text();
            out.append(data_text.as_str());
            out.append(" ");
            let ghost edges_start = out@;
            let ghost es = ns[i as int].edges@;
            let m = self.nodes[i].edges.len();
            let mut k: usize = 0;
            proof {
                assert(es.subrange(0, m as int) =~= es);
            }
            while k < m
                invariant
                    k <= m,
                    out@ + edges_text(es.subrange(k as int, m as int)) == edges_start + edges_text(
                        es,
                    ),
                decreases m - k,
            {
                proof {
                    assert(es.subrange(k as int, m as int)[0] == es[k as int]);
                    assert(es.subrange(k as int, m as int).drop_first() =~= es.subrange(
                        (k + 1) as int,
                        m as int,
                    ));
                }
                push_int_text(&mut out, self.nodes[i].edges[k]);
                out.append(" ");
                proof {
                    assert(out@ + edges_text(es.subrange((k + 1) as int, m as int)) =~= edges_start
                        + edges_text(es));
                }
                k += 1;
            }
            proof {
                assert(es.subrange(m as int, m as int) =~= Seq::<i32>::empty());
                assert(edges_text(Seq::<i32>::empty()) == Seq::<char>::empty());
                assert(out@ =~= edges_start + edges_text(es));
                assert(out@ =~= line_start + line_text(ns[i as int]));
            }
            out.append("\n");
            proof {
                assert(out@ + graph_text(ns.subrange((i + 1) as int, n as int)) =~= line_start
                    + graph_text(ns.subrange(i as int, n as int)));
            }
            i += 1;
        }
        proof {
            assert(ns.subrange(n as int, n as int) =~= Seq::<Node<T>>::empty());
            assert(graph_text(Seq::<Node<T>>::empty()) == Seq::<char>::empty());
            assert(out@ =~= graph_text(ns));
        }
        out
    }
}

/// Splits text into lines at `'\n'`, accumulating the current line in
/// `cur`; a trailing newline adds no empty final line.
pub open spec fn split_lines_from(s: Seq<char>, cur: Seq<char>) -> Seq<Seq<char>>
    decreases s.len(),
{
    if s.len() == 0 {
        if cur.len() == 0 {
            Seq::<Seq<char>>::empty()
        } else {
            seq![cur]
        }
    } else if s[0] == '\n' {
        seq![cur] + split_lines_from(s.drop_first(), Seq::<char>::empty())
    } else {
        split_lines_from(s.drop_first(), cur.push(s[0]))
    }
}

/// The lines of a text, split at `'\n'`.
pub open spec fn split_lines(s: Seq<char>) -> Seq<Seq<char>> {
    split_lines_from(s, Seq::<char>::empty())
}

/// Splits text into tokens at runs of whitespace, accumulating the
/// current token in `cur`; no empty tokens result.
pub open spec fn split_ws_from(s: Seq<char>, cur: Seq<char>) -> Seq<Seq<char>>
    decreases s.len(),
{
    if s.len() == 0 {
        if cur.len() == 0 {
            Seq::<Seq<char>>::empty()
        } else {
            seq![cur]
        }
    } else if is_ws_char(s[0]) {
        (if cur.len() == 0 {
            Seq::<Seq<char>>::empty()
        } else {
            seq![cur]
        }) + split_ws_from(s.drop_first(), Seq::<char>::empty())
    } else {
        split_ws_from(s.drop_first(), cur.push(s[0]))
    }
}

/// The whitespace-separated tokens of a line.
pub open spec fn tokens_of(s: Seq<char>) -> Seq<Seq<char>> {
    split_ws_from(s, Seq::<char>::empty())
}

/// What one parsed node contributes: its identifier, its payload text,
/// and its edge targets in order.
pub open spec fn parse_edge_tokens(toks: Seq<Seq<char>>) -> Option<Seq<i32>>
    decreases toks.len(),
{
    if toks.len() == 0 {
        Some(Seq::<i32>::empty())
    } else {
        match parse_i32_spec(toks[0]) {
            Some(v) => match parse_edge_tokens(toks.drop_first()) {
                Some(rest) => Some(seq![v] + rest),
                None => None,
            },
            None => None,
        }
    }
}

/// The nodes a sequence of lines denotes: per line with tokens, the
/// first token is the identifier, the second the payload text, the rest
/// the edge targets; a line of only whitespace is skipped; a line with
/// one token, or with a token that is no integer, denotes nothing.
pub open spec fn parse_lines(lines: Seq<Seq<char>>) -> Option<Seq<(i32, Seq<char>, Seq<i32>)>>
    decreases lines.len(),
{
    if lines.len() == 0 {
        Some(Seq::<(i32, Seq<char>, Seq<i32>)>::empty())
    } else {
        let toks = tokens_of(lines[0]);
        let rest = parse_lines(lines.drop_first());
        if toks.len() == 0 {
            rest
        } else if toks.len() == 1 {
            None
        } else {
            match parse_i32_spec(toks[0]) {
                Some(id) => match parse_edge_tokens(toks.subrange(2, toks.len() as int)) {
                    Some(edges) => match rest {
                        Some(r) => Some(seq![(id, toks[1], edges)] + r),
                        None => None,
                    },
                    None => None,
                },
                None => None,
            }
        }
    }
}

/// The nodes a serialized text denotes, before validation.
pub open spec fn parse_graph_text(s: Seq<char>) -> Option<Seq<(i32, Seq<char>, Seq<i32>)>> {
    parse_lines(split_lines(s))
}

/// Some parsed node carries the identifier `id`.
pub open spec fn parsed_has_id(p: Seq<(i32, Seq<char>, Seq<i32>)>, id: i32) -> bool {
    exists|i: int| 0 <= i < p.len() && p[i].0 == id
}

/// All parsed identifiers are pairwise distinct.
pub open spec fn parsed_ids_distinct(p: Seq<(i32, Seq<char>, Seq<i32>)>) -> bool {
    forall|i: int, j: int| 0 <= i < j < p.len() ==> (#[trigger] p[i]).0 != (#[trigger] p[j]).0
}

/// Every parsed edge target equals some parsed identifier.
pub open spec fn parsed_edges_valid(p: Seq<(i32, Seq<char>, Seq<i32>)>) -> bool {
    forall|i: int, k: int|
        0 <= i < p.len() && 0 <= k < p[i].2.len() ==> parsed_has_id(p, #[trigger] p[i].2[k])
}

/// The built nodes carry exactly the parsed identifiers, payload texts
/// and edge lists, in order.
pub open spec fn nodes_match_parsed(
    nodes: Seq<Node<String>>,
    p: Seq<(i32, Seq<char>, Seq<i32>)>,
) -> bool {
    nodes.len() == p.len() && forall|i: int|
        0 <= i < p.len() ==> (#[trigger] nodes[i]).id == p[i].0 && nodes[i].data@ == p[i].1
            && nodes[i].edges@ == p[i].2
}

/// Matching node and parsed sequences agree on both structural invariants.
pub proof fn lemma_validity_transfer(nodes: Seq<Node<String>>, p: Seq<(i32, Seq<char>, Seq<i32>)>)
    requires
        nodes_match_parsed(nodes, p),
    ensures
        edges_valid(nodes) <==> parsed_edges_valid(p),
        ids_distinct(nodes) <==> parsed_ids_distinct(p),
{
    assert forall|id: i32| has_id(nodes, id) <==> parsed_has_id(p, id) by {
        if has_id(nodes, id) {
            let i = choose|i: int| 0 <= i < nodes.len() && nodes[i].id == id;
            assert(p[i].0 == id);
        }
        if parsed_has_id(p, id) {
            let i = choose|i: int| 0 <= i < p.len() && p[i].0 == id;
            assert(nodes[i].id == id);
        }
    }
    if edges_valid(nodes) {
        assert forall|i: int, k: int|
            0 <= i < p.len() && 0 <= k < p[i].2.len() implies parsed_has_id(
            p,
            #[trigger] p[i].2[k],
        ) by {
            assert(nodes[i].edges@[k] == p[i].2[k]);
            assert(has_id(nodes, nodes[i].edges@[k]));
        }
    }
    if parsed_edges_valid(p) {
        assert forall|i: int, k: int|
            0 <= i < nodes.len() && 0 <= k < nodes[i].edges@.len() implies has_id(
            nodes,
            #[trigger] nodes[i].edges@[k],
        ) by {
            assert(p[i].2[k] == nodes[i].edges@[k]);
            assert(parsed_has_id(p, p[i].2[k]));
        }
    }
    if ids_distinct(nodes) {
        assert forall|i: int, j: int| 0 <= i < j < p.len() implies (#[trigger] p[i]).0
            != (#[trigger] p[j]).0 by {
            assert(nodes[i].id != nodes[j].id);
        }
    }
    if parsed_ids_distinct(p) {
        assert forall|i: int, j: int| 0 <= i < j < nodes.len() implies (#[trigger] nodes[i]).id
            != (#[trigger] nodes[j]).id by {
            assert(p[i].0 != p[j].0);
        }
    }
}

/// Taking one whitespace-free token off the front of a split.
proof fn lemma_split_ws_take(t: Seq<char>, cur: Seq<char>, rest: Seq<char>)
    requires
        cur.len() + t.len() > 0,
        forall|i: int| 0 <= i < t.len() ==> !is_ws_char(#[trigger] t[i]),
        rest.len() == 0 || is_ws_char(rest[0]),
    ensures
        split_ws_from(t + rest, cur) == seq![cur + t] + split_ws_from(rest, Seq::<char>::empty()),
    decreases t.len(),
{
    if t.len() == 0 {
        assert(t + rest =~= rest);
        assert(cur + t =~= cur);
        if rest.len() == 0 {
            assert(split_ws_from(rest, cur) == seq![cur]);
            assert(seq![cur + t] + split_ws_from(rest, Seq::<char>::empty()) =~= seq![cur]);
        } else {
            assert(split_ws_from(rest, cur) == seq![cur] + split_ws_from(
                rest.drop_first(),
                Seq::<char>::empty(),
            ));
            assert(split_ws_from(rest, Seq::<char>::empty()) == Seq::<Seq<char>>::empty()
                + split_ws_from(rest.drop_first(), Seq::<char>::empty()));
            assert(Seq::<Seq<char>>::empty() + split_ws_from(rest.drop_first(), Seq::<char>::empty())
                =~= split_ws_from(rest.drop_first(), Seq::<char>::empty()));
            assert(seq![cur + t] + split_ws_from(rest, Seq::<char>::empty()) =~= seq![cur]
                + split_ws_from(rest.drop_first(), Seq::<char>::empty()));
        }
    } else {
        let s = t + rest;
        assert(s[0] == t[0]);
        assert(!is_ws_char(s[0]));
        assert(s.drop_first() =~= t.drop_first() + rest);
        lemma_split_ws_take(t.drop_first(), cur.push(t[0]), rest);
        assert(cur.push(t[0]) + t.drop_first() =~= cur + t);
    }
}

/// Taking one newline-free line off the front of a split.
proof fn lemma_split_lines_take(t: Seq<char>, cur: Seq<char>, rest: Seq<char>)
    requires
        forall|i: int| 0 <= i < t.len() ==> #[trigger] t[i] != '\n',
    ensures
        split_lines_from(t + seq!['\n'] + rest, cur) == seq![cur + t] + split_lines_from(
            rest,
            Seq::<char>::empty(),
        ),
    decreases t.len(),
{
    if t.len() == 0 {
        assert(t + seq!['\n'] + rest =~= seq!['\n'] + rest);
        assert((seq!['\n'] + rest)[0] == '\n');
        assert((seq!['\n'] + rest).drop_first() =~= rest);
        assert(cur + t =~= cur);
    } else {
        let s = t + seq!['\n'] + rest;
        assert(s[0] == t[0]);
        assert(s[0] != '\n');
        assert(s.drop_first() =~= t.drop_first() + seq!['\n'] + rest);
        lemma_split_lines_take(t.drop_first(), cur.push(t[0]), rest);
        assert(cur.push(t[0]) + t.drop_first() =~= cur + t);
    }
}

/// A newline-free text is a single line, or none when empty.
proof fn lemma_split_lines_last(t: Seq<char>, cur: Seq<char>)
    requires
        forall|i: int| 0 <= i < t.len() ==> #[trigger] t[i] != '\n',
    ensures
        split_lines_from(t, cur) == if cur.len() + t.len() == 0 {
            Seq::<Seq<char>>::empty()
        } else {
            seq![cur + t]
        },
    decreases t.len(),
{
    if t.len() == 0 {
        assert(cur + t =~= cur);
    } else {
        lemma_split_lines_last(t.drop_first(), cur.push(t[0]));
        assert(cur.push(t[0]) + t.drop_first() =~= cur + t);
    }
}

/// Whether the format treats `c` as whitespace.
fn is_ws(c: char) -> (r: bool)
    ensures
        r == is_ws_char(c),
{
    c == ' ' || c == '\t' || c == '\r' || c == '\n'
}

/// The bounds of the first whitespace-separated token in `s[from..to]`,
/// or nothing when only whitespace remains.
#[verifier::loop_isolation(false)]
fn next_token(s: &str, from: usize, to: usize) -> (r: Option<(usize, usize)>)
    requires
        from <= to <= s@.len(),
    ensures
        match r {
            Some(ab) => from <= ab.0 < ab.1 <= to && split_ws_from(
                s@.subrange(from as int, to as int),
                Seq::<char>::empty(),
            ) == seq![s@.subrange(ab.0 as int, ab.1 as int)] + split_ws_from(
                s@.subrange(ab.1 as int, to as int),
                Seq::<char>::empty(),
            ),
            None => split_ws_from(s@.subrange(from as int, to as int), Seq::<char>::empty())
                == Seq::<Seq<char>>::empty(),
        },
{
    let mut a = from;
    while a < to && is_ws(s.get_char(a))
        invariant
            from <= a <= to,
            split_ws_from(s@.subrange(from as int, to as int), Seq::<char>::empty())
                == split_ws_from(s@.subrange(a as int, to as int), Seq::<char>::empty()),
        decreases to - a,
    {
        proof {
            let rem = s@.subrange(a as int, to as int);
            assert(rem[0] == s@[a as int]);
            assert(rem.drop_first() =~= s@.subrange((a + 1) as int, to as int));
            assert(Seq::<Seq<char>>::empty() + split_ws_from(rem.drop_first(), Seq::<char>::empty())
                =~= split_ws_from(rem.drop_first(), Seq::<char>::empty()));
        }
        a += 1;
    }
    if a == to {
        proof {
            assert(s@.subrange(a as int, to as int) =~= Seq::<char>::empty());
        }
        return None;
    }
    let mut b = a;
    while b < to && !is_ws(s.get_char(b))
        invariant
            a <= b <= to,
            forall|i: int| a <= i < b ==> !is_ws_char(#[trigger] s@[i]),
        decreases to - b,
    {
        b += 1;
    }
    proof {
        let t = s@.subrange(a as int, b as int);
        let rest = s@.subrange(b as int, to as int);
        assert(!is_ws_char(s@[a as int]));
        assert(t.len() > 0);
        assert(forall|i: int| 0 <= i < t.len() ==> !is_ws_char(#[trigger] t[i]));
        if b < to {
            assert(rest[0] == s@[b as int]);
            assert(is_ws_char(rest[0]));
        }
        lemma_split_ws_take(t, Seq::<char>::empty(), rest);
        assert(t + rest =~= s@.subrange(a as int, to as int));
        assert(Seq::<char>::empty() + t =~= t);
    }
    Some((a, b))
}

/// Parses every remaining token in `s[from..to]` as an edge target.
#[verifier::loop_isolation(false)]
fn parse_edges_range(s: &str, from: usize, to: usize) -> (r: Result<Vec<i32>, GraphError>)
    requires
        from <= to <= s@.len(),
    ensures
        match r {
            Ok(v) => parse_edge_tokens(
                split_ws_from(s@.subrange(from as int, to as int), Seq::<char>::empty()),
            ) == Some(v@),
            Err(e) => e == GraphError::MalformedLine && parse_edge_tokens(
                split_ws_from(s@.subrange(from as int, to as int), Seq::<char>::empty()),
            ) is None,
        },
    decreases to - from,
{
    let ghost toks = split_ws_from(s@.subrange(from as int, to as int), Seq::<char>::empty());
    match next_token(s, from, to) {
        None => {
            let v: Vec<i32> = Vec::new();
            assert(v@ =~= Seq::<i32>::empty());
            Ok(v)
        },
        Some((a, b)) => {
            proof {
                assert(toks[0] == s@.subrange(a as int, b as int));
                assert(toks.drop_first() =~= split_ws_from(
                    s@.subrange(b as int, to as int),
                    Seq::<char>::empty(),
                ));
            }
            match parse_i32_range(s, a, b) {
                None => Err(GraphError::MalformedLine),
                Some(v) => match parse_edges_range(s, b, to) {
                    Err(e) => Err(e),
                    Ok(mut rest) => {
                        rest.insert(0, v);
                        proof {
                            assert(rest@ =~= seq![v] + rest@.subrange(1, rest@.len() as int));
                        }
                        Ok(rest)
                    },
                },
            }
        },
    }
}

impl Graph<String> {
    /// Reads a graph back from its text form: one node per line with
    /// tokens split on runs of whitespace, lines of only whitespace
    /// skipped, then one validating batch append of all nodes. A line
    /// with a missing identifier or payload token, or a token that is
    /// no integer, is refused before validation.
    #[verifier::loop_isolation(false)]
    pub fn deserialization(serialized: &str) -> (r: Result<Graph<String>, GraphError>)
        ensures
            match r {
                Ok(g) => {
                    &&& parse_graph_text(serialized@) matches Some(p)
                    &&& nodes_match_parsed(g.nodes@, p)
                    &&& nodes_valid(g.nodes@)
                },
                Err(GraphError::MalformedLine) => parse_graph_text(serialized@) is None,
                Err(GraphError::DanglingEdge) => parse_graph_text(serialized@) matches Some(p)
                    && !parsed_edges_valid(p),
                Err(GraphError::DuplicateId) => parse_graph_text(serialized@) matches Some(p)
                    && parsed_edges_valid(p) && !parsed_ids_distinct(p),
            },
    {
        let ghost text = serialized@;
        let n = serialized.unicode_len();
        let mut nodes: Vec<Node<String>> = Vec::new();
        let ghost mut done: Seq<(i32, Seq<char>, Seq<i32>)> = Seq::empty();
        let mut pos: usize = 0;
        proof {
            assert(text.subrange(0, n as int) =~= text);
        }
        while pos < n
            invariant
                pos <= n,
                nodes_match_parsed(nodes@, done),
                match parse_lines(
                    split_lines_from(text.subrange(pos as int, n as int), Seq::<char>::empty()),
                ) {
                    Some(p) => parse_graph_text(text) == Some(done + p),
                    None => parse_graph_text(text) is None,
                },
            decreases n - pos,
        {
            let mut e = pos;
            while e < n && s_char_ne_nl(serialized, e)
                invariant
                    pos <= e <= n,
                    forall|i: int| pos <= i < e ==> #[trigger] text[i] != '\n',
                decreases n - e,
            {
                e += 1;
            }
            let ghost line = text.subrange(pos as int, e as int);
            let ghost rem_lines = split_lines_from(
                text.subrange(pos as int, n as int),
                Seq::<char>::empty(),
            );
            let ghost next_rem = if e < n {
                split_lines_from(text.subrange((e + 1) as int, n as int), Seq::<char>::empty())
            } else {
                Seq::<Seq<char>>::empty()
            };
            proof {
                assert(forall|i: int| 0 <= i < line.len() ==> #[trigger] line[i] != '\n');
                if e < n {
                    assert(text[e as int] == '\n');
                    lemma_split_lines_take(
                        line,
                        Seq::<char>::empty(),
                        text.subrange((e + 1) as int, n as int),
                    );
                    assert(line + seq!['\n'] + text.subrange((e + 1) as int, n as int)
                        =~= text.subrange(pos as int, n as int));
                    assert(Seq::<char>::empty() + line =~= line);
                    assert(rem_lines == seq![line] + next_rem);
                } else {
                    lemma_split_lines_last(line, Seq::<char>::empty());
                    assert(line =~= text.subrange(pos as int, n as int));
                    assert(Seq::<char>::empty() + line =~= line);
                    assert(line.len() > 0);
                    assert(rem_lines == seq![line] + next_rem);
                    assert(seq![line] + next_rem =~= seq![line]);
                }
                assert((seq![line] + next_rem).drop_first() =~= next_rem);
                assert((seq![line] + next_rem)[0] == line);
            }
            let ghost toks = tokens_of(line);
            match next_token(serialized, pos, e) {
                None => {
                    proof {
                        assert(toks.len() == 0);
                    }
                },
                Some((a1, b1)) => {
                    proof {
                        assert(toks[0] == text.subrange(a1 as int, b1 as int));
                        assert(toks.drop_first() =~= split_ws_from(
                            text.subrange(b1 as int, e as int),
                            Seq::<char>::empty(),
                        ));
                    }
                    let id = match parse_i32_range(serialized, a1, b1) {
                        Some(v) => v,
                        None => {
                            proof {
                                assert(parse_lines(rem_lines) is None);
                            }
                            return Err(GraphError::MalformedLine);
                        },
                    };
                    match next_token(serialized, b1, e) {
                        None => {
                            proof {
                                assert(toks.len() == 1);
                                assert(parse_lines(rem_lines) is None);
                            }
                            return Err(GraphError::MalformedLine);
                        },
                        Some((a2, b2)) => {
                            proof {
                                assert(toks[1] == text.subrange(a2 as int, b2 as int));
                                assert(toks.drop_first().drop_first() =~= split_ws_from(
                                    text.subrange(b2 as int, e as int),
                                    Seq::<char>::empty(),
                                ));
                                assert(toks.subrange(2, toks.len() as int) =~= toks.drop_first()
                                    .drop_first());
                            }
                            let payload = String::from_str(serialized.substring_char(a2, b2));
                            let edges = match parse_edges_range(serialized, b2, e) {
                                Ok(v) => v,
                                Err(err) => {
                                    proof {
                                        assert(parse_lines(rem_lines) is None);
                                    }
                                    return Err(err);
                                },
                            };
                            let ghost entry = (id, toks[1], edges@);
                            proof {
                                assert(parse_edge_tokens(toks.subrange(2, toks.len() as int))
                                    == Some(edges@));
                                match parse_lines(next_rem) {
                                    Some(p) => {
                                        assert(parse_lines(rem_lines) == Some(seq![entry] + p));
                                        assert(done + (seq![entry] + p) =~= (done + seq![entry])
                                            + p);
                                    },
                                    None => {
                                        assert(parse_lines(rem_lines) is None);
                                    },
                                }
                                done = done + seq![entry];
                            }
                            let node = Node { id, data: payload, edges };
                            nodes.push(node);
                        },
                    }
                },
            }
            pos = if e < n {
                e + 1
            } else {
                n
            };
        }
        proof {
            assert(text.subrange(n as int, n as int) =~= Seq::<char>::empty());
            assert(split_lines_from(Seq::<char>::empty(), Seq::<char>::empty())
                == Seq::<Seq<char>>::empty());
            assert(parse_graph_text(text) == Some(done + Seq::<(i32, Seq<char>, Seq<i32>)>::empty()));
            assert(done + Seq::<(i32, Seq<char>, Seq<i32>)>::empty() =~= done);
        }
        let ghost built = nodes@;
        let mut graph = Graph::<String>::new();
        let res = graph.add_nodes(nodes);
        proof {
            assert(Seq::<Node<String>>::empty() + built =~= built);
            lemma_validity_transfer(built, done);
        }
        match res {
            Ok(()) => Ok(graph),
            Err(err) => Err(err),
        }
    }
}

/// A payload text the format can carry faithfully: nonempty and free of
/// whitespace, since the format has no escaping or quoting.
pub open spec fn payload_text_ok(t: Seq<char>) -> bool {
    t.len() > 0 && forall|i: int| 0 <= i < t.len() ==> !is_ws_char(#[trigger] t[i])
}

/// What a node contributes to the parsed form of its own serialization.
pub open spec fn parsed_entry_of<T: AsText>(node: Node<T>) -> (i32, Seq<char>, Seq<i32>) {
    (node.id, node.data.text_spec(), node.edges@)
}

proof fn lemma_split_ws_skip(s: Seq<char>)
    requires
        s.len() > 0,
        is_ws_char(s[0]),
    ensures
        split_ws_from(s, Seq::<char>::empty()) == split_ws_from(s.drop_first(), Seq::<char>::empty()),
{
    assert(Seq::<Seq<char>>::empty() + split_ws_from(s.drop_first(), Seq::<char>::empty())
        =~= split_ws_from(s.drop_first(), Seq::<char>::empty()));
}

proof fn lemma_edges_text_chars(edges: Seq<i32>)
    ensures
        forall|i: int|
            0 <= i < edges_text(edges).len() ==> #[trigger] edges_text(edges)[i] == ' '
                || !is_ws_char(edges_text(edges)[i]),
    decreases edges.len(),
{
    if edges.len() > 0 {
        lemma_int_text(edges[0] as int);
        lemma_edges_text_chars(edges.drop_first());
        let t = int_text(edges[0] as int);
        let rest = edges_text(edges.drop_first());
        assert forall|i: int|
            0 <= i < edges_text(edges).len() implies #[trigger] edges_text(edges)[i] == ' '
            || !is_ws_char(edges_text(edges)[i]) by {
            if i < t.len() {
                assert(edges_text(edges)[i] == t[i]);
            } else if i == t.len() {
                assert(edges_text(edges)[i] == ' ');
            } else {
                assert(edges_text(edges)[i] == rest[i - t.len() - 1]);
            }
        }
    }
}

/// The tokens of a serialized edge list, with trailing text `rest`
/// beginning in whitespace, are the targets' decimal texts, then the
/// tokens of `rest`.
proof fn lemma_edges_text_tokens(edges: Seq<i32>)
    ensures
        split_ws_from(edges_text(edges), Seq::<char>::empty()) == edges.map(
            |i: int, e: i32| int_text(e as int),
        ),
    decreases edges.len(),
{
    let f = |i: int, e: i32| int_text(e as int);
    if edges.len() == 0 {
        assert(edges.map(f) =~= Seq::<Seq<char>>::empty());
    } else {
        let t = int_text(edges[0] as int);
        let rest = seq![' '] + edges_text(edges.drop_first());
        lemma_int_text(edges[0] as int);
        assert(edges_text(edges) =~= t + rest);
        assert(rest[0] == ' ');
        lemma_split_ws_take(t, Seq::<char>::empty(), rest);
        assert(Seq::<char>::empty() + t =~= t);
        lemma_split_ws_skip(rest);
        assert(rest.drop_first() =~= edges_text(edges.drop_first()));
        lemma_edges_text_tokens(edges.drop_first());
        assert(edges.drop_first().map(f) =~= edges.map(f).drop_first());
        assert(split_ws_from(edges_text(edges), Seq::<char>::empty()) == seq![t] + edges.map(
            f,
        ).drop_first());
        assert(edges.map(f)[0] == t);
        assert(seq![t] + edges.map(f).drop_first() =~= edges.map(f));
    }
}

proof fn lemma_parse_edge_tokens_int(edges: Seq<i32>)
    ensures
        parse_edge_tokens(edges.map(|i: int, e: i32| int_text(e as int))) == Some(edges),
    decreases edges.len(),
{
    let f = |i: int, e: i32| int_text(e as int);
    if edges.len() == 0 {
        assert(edges.map(f) =~= Seq::<Seq<char>>::empty());
        assert(Some(Seq::<i32>::empty()) == Some(edges)) by {
            assert(edges =~= Seq::<i32>::empty());
        }
    } else {
        let toks = edges.map(f);
        lemma_int_text(edges[0] as int);
        assert(toks[0] == int_text(edges[0] as int));
        assert(parse_i32_spec(toks[0]) == Some(edges[0]));
        lemma_parse_edge_tokens_int(edges.drop_first());
        assert(toks.drop_first() =~= edges.drop_first().map(f));
        assert(seq![edges[0]] + edges.drop_first() =~= edges);
    }
}

/// The tokens of one serialized node line: its identifier text, its
/// payload text, then its edge targets' texts.
proof fn lemma_line_text_tokens<T: AsText>(node: Node<T>)
    requires
        payload_text_ok(node.data.text_spec()),
    ensures
        tokens_of(line_text(node)) == seq![int_text(node.id as int), node.data.text_spec()]
            + node.edges@.map(|i: int, e: i32| int_text(e as int)),
{
    let t1 = int_text(node.id as int);
    let payload = node.data.text_spec();
    let f = |i: int, e: i32| int_text(e as int);
    let rest1 = seq![' '] + payload + seq![' '] + edges_text(node.edges@);
    lemma_int_text(node.id as int);
    assert(line_text(node) =~= t1 + rest1);
    assert(rest1[0] == ' ');
    lemma_split_ws_take(t1, Seq::<char>::empty(), rest1);
    assert(Seq::<char>::empty() + t1 =~= t1);
    lemma_split_ws_skip(rest1);
    let rest2 = payload + (seq![' '] + edges_text(node.edges@));
    assert(rest1.drop_first() =~= rest2);
    let rest3 = seq![' '] + edges_text(node.edges@);
    assert(rest3[0] == ' ');
    lemma_split_ws_take(payload, Seq::<char>::empty(), rest3);
    assert(Seq::<char>::empty() + payload =~= payload);
    lemma_split_ws_skip(rest3);
    assert(rest3.drop_first() =~= edges_text(node.edges@));
    lemma_edges_text_tokens(node.edges@);
    assert(tokens_of(line_text(node)) == seq![t1] + (seq![payload] + node.edges@.map(f)));
    assert(seq![t1] + (seq![payload] + node.edges@.map(f)) =~= seq![t1, payload] + node.edges@.map(
        f,
    ));
}

proof fn lemma_line_text_no_nl<T: AsText>(node: Node<T>)
    requires
        payload_text_ok(node.data.text_spec()),
    ensures
        forall|i: int| 0 <= i < line_text(node).len() ==> #[trigger] line_text(node)[i] != '\n',
{
    let t1 = int_text(node.id as int);
    let payload = node.data.text_spec();
    let es = edges_text(node.edges@);
    lemma_int_text(node.id as int);
    lemma_edges_text_chars(node.edges@);
    let s = line_text(node);
    assert forall|i: int| 0 <= i < s.len() implies #[trigger] s[i] != '\n' by {
        if i < t1.len() {
            assert(s[i] == t1[i]);
            assert(!is_ws_char(s[i]));
        } else if i == t1.len() {
            assert(s[i] == ' ');
        } else if i < t1.len() + 1 + payload.len() {
            assert(s[i] == payload[i - t1.len() - 1]);
            assert(!is_ws_char(s[i]));
        } else if i == t1.len() + 1 + payload.len() {
            assert(s[i] == ' ');
        } else {
            assert(s[i] == es[i - t1.len() - payload.len() - 2]);
            assert(s[i] == ' ' || !is_ws_char(s[i]));
        }
    }
}

proof fn lemma_graph_text_lines<T: AsText>(nodes: Seq<Node<T>>)
    requires
        forall|i: int|
            0 <= i < nodes.len() ==> payload_text_ok(#[trigger] nodes[i].data.text_spec()),
    ensures
        split_lines(graph_text(nodes)) == nodes.map(|i: int, nd: Node<T>| line_text(nd)),
    decreases nodes.len(),
{
    let g = |i: int, nd: Node<T>| line_text(nd);
    if nodes.len() == 0 {
        assert(nodes.map(g) =~= Seq::<Seq<char>>::empty());
    } else {
        let line = line_text(nodes[0]);
        let rest = graph_text(nodes.drop_first());
        lemma_line_text_no_nl(nodes[0]);
        lemma_split_lines_take(line, Seq::<char>::empty(), rest);
        assert(graph_text(nodes) =~= line + seq!['\n'] + rest);
        assert(Seq::<char>::empty() + line =~= line);
        assert(forall|i: int|
            0 <= i < nodes.drop_first().len() ==> payload_text_ok(
                #[trigger] nodes.drop_first()[i].data.text_spec(),
            ));
        lemma_graph_text_lines(nodes.drop_first());
        assert(nodes.drop_first().map(g) =~= nodes.map(g).drop_first());
        assert(nodes.map(g)[0] == line);
        assert(seq![line] + nodes.map(g).drop_first() =~= nodes.map(g));
    }
}

/// Round-trip law: serializing any graph whose payload texts are
/// nonempty and free of whitespace, then parsing the text back, yields
/// the same node count and, per node in order, the same identifier,
/// payload text, and edge list.
pub proof fn lemma_round_trip<T: AsText>(nodes: Seq<Node<T>>)
    requires
        forall|i: int|
            0 <= i < nodes.len() ==> payload_text_ok(#[trigger] nodes[i].data.text_spec()),
    ensures
        parse_graph_text(graph_text(nodes)) == Some(
            nodes.map(|i: int, nd: Node<T>| parsed_entry_of(nd)),
        ),
    decreases nodes.len(),
{
    lemma_graph_text_lines(nodes);
    lemma_parse_lines_of_nodes(nodes);
}

proof fn lemma_parse_lines_of_nodes<T: AsText>(nodes: Seq<Node<T>>)
    requires
        forall|i: int|
            0 <= i < nodes.len() ==> payload_text_ok(#[trigger] nodes[i].data.text_spec()),
    ensures
        parse_lines(nodes.map(|i: int, nd: Node<T>| line_text(nd))) == Some(
            nodes.map(|i: int, nd: Node<T>| parsed_entry_of(nd)),
        ),
    decreases nodes.len(),
{
    let g = |i: int, nd: Node<T>| line_text(nd);
    let h = |i: int, nd: Node<T>| parsed_entry_of(nd);
    if nodes.len() == 0 {
        assert(nodes.map(g) =~= Seq::<Seq<char>>::empty());
        assert(nodes.map(h) =~= Seq::<(i32, Seq<char>, Seq<i32>)>::empty());
    } else {
        let lines = nodes.map(g);
        let nd = nodes[0];
        let f = |i: int, e: i32| int_text(e as int);
        assert(lines[0] == line_text(nd));
        lemma_line_text_tokens(nd);
        let toks = tokens_of(line_text(nd));
        assert(toks == seq![int_text(nd.id as int), nd.data.text_spec()] + nd.edges@.map(f));
        assert(toks.len() == 2 + nd.edges@.len());
        lemma_int_text(nd.id as int);
        assert(toks[0] == int_text(nd.id as int));
        assert(parse_i32_spec(toks[0]) == Some(nd.id));
        assert(toks.subrange(2, toks.len() as int) =~= nd.edges@.map(f));
        lemma_parse_edge_tokens_int(nd.edges@);
        assert(toks[1] == nd.data.text_spec());
        assert(forall|i: int|
            0 <= i < nodes.drop_first().len() ==> payload_text_ok(
                #[trigger] nodes.drop_first()[i].data.text_spec(),
            ));
        lemma_parse_lines_of_nodes(nodes.drop_first());
        assert(lines.drop_first() =~= nodes.drop_first().map(g));
        assert(nodes.drop_first().map(h) =~= nodes.map(h).drop_first());
        assert(parse_lines(lines) == Some(seq![(nd.id, nd.data.text_spec(), nd.edges@)] + nodes.map(
            h,
        ).drop_first()));
        assert(nodes.map(h)[0] == (nd.id, nd.data.text_spec(), nd.edges@));
        assert(seq![(nd.id, nd.data.text_spec(), nd.edges@)] + nodes.map(h).drop_first() =~= nodes.map(
            h,
        ));
    }
}

/// Round-trip law for valid graphs: the parsed form of a valid graph's
/// serialization also carries distinct identifiers and no dangling
/// edges, so deserializing it rebuilds the graph rather than failing.
pub proof fn lemma_round_trip_valid<T: AsText>(nodes: Seq<Node<T>>)
    requires
        nodes_valid(nodes),
        forall|i: int|
            0 <= i < nodes.len() ==> payload_text_ok(#[trigger] nodes[i].data.text_spec()),
    ensures
        parse_graph_text(graph_text(nodes)) == Some(
            nodes.map(|i: int, nd: Node<T>| parsed_entry_of(nd)),
        ),
        parsed_ids_distinct(nodes.map(|i: int, nd: Node<T>| parsed_entry_of(nd))),
        parsed_edges_valid(nodes.map(|i: int, nd: Node<T>| parsed_entry_of(nd))),
{
    let h = |i: int, nd: Node<T>| parsed_entry_of(nd);
    let p = nodes.map(h);
    lemma_round_trip(nodes);
    assert forall|i: int, j: int| 0 <= i < j < p.len() implies (#[trigger] p[i]).0
        != (#[trigger] p[j]).0 by {
        assert(nodes[i].id != nodes[j].id);
    }
    assert forall|i: int, k: int|
        0 <= i < p.len() && 0 <= k < p[i].2.len() implies parsed_has_id(p, #[trigger] p[i].2[k]) by {
        assert(p[i].2 == nodes[i].edges@);
        assert(has_id(nodes, nodes[i].edges@[k]));
        let w = choose|w: int| 0 <= w < nodes.len() && nodes[w].id == nodes[i].edges@[k];
        assert(p[w].0 == nodes[i].edges@[k]);
    }
}

/// Whether the character at `i` differs from a newline.
fn s_char_ne_nl(s: &str, i: usize) -> (r: bool)
    requires
        i < s@.len(),
    ensures
        r == (s@[i as int] != '\n'),
{
    s.get_char(i) != '\n'
}

} // verus!
