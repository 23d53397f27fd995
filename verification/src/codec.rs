use vstd::prelude::*;

use vstd::string::{StrSliceExecFns, StringExecFns};

use crate::decimal::{dec_repr, dec_val, lemma_dec_repr_val, parse_usize, parses_as_usize,
    push_dec};
use crate::error::GraffError;
use crate::graph::{DirectionalGraff, Node};
use crate::model::{entries_to_map, key_seq, lemma_entries_to_map, sorted_keys, NodeView,
    RibView};

verus! {

/// The mathematical value of a node whose payloads are text.
pub type TextNode = NodeView<Seq<char>, Seq<char>>;

/// Index of the first occurrence of `c` in `s`, or `s.len()` if none.
pub open spec fn first_occurrence(s: Seq<char>, c: char) -> int
    decreases s.len(),
{
    if s.len() == 0 {
        0
    } else if s[0] == c {
        0
    } else {
        1 + first_occurrence(s.drop_first(), c)
    }
}

proof fn lemma_first_occurrence(s: Seq<char>, c: char)
    ensures
        0 <= first_occurrence(s, c) <= s.len(),
        first_occurrence(s, c) < s.len() ==> s[first_occurrence(s, c)] == c,
        forall|q: int| 0 <= q < first_occurrence(s, c) ==> s[q] != c,
    decreases s.len(),
{
    if s.len() > 0 && s[0] != c {
        lemma_first_occurrence(s.drop_first(), c);
        assert forall|q: int| 0 <= q < first_occurrence(s, c) implies s[q] != c by {
            if q > 0 {
                assert(s.drop_first()[q - 1] == s[q]);
            }
        }
    }
}

/// One past the last `#` of the text; 0 when the text holds none.
pub open spec fn divider_pos(s: Seq<char>) -> int
    decreases s.len(),
{
    if s.len() == 0 {
        0
    } else if s.last() == '#' {
        s.len() as int
    } else {
        divider_pos(s.drop_last())
    }
}

/// The fragments of `s` between its newlines, in order, without them.
pub open spec fn split_lines(s: Seq<char>) -> Seq<Seq<char>>
    decreases s.len(),
    via split_lines_dec
{
    let p = first_occurrence(s, '\n');
    if p >= s.len() {
        seq![s]
    } else {
        seq![s.subrange(0, p)] + split_lines(s.subrange(p + 1, s.len() as int))
    }
}

#[via_fn]
proof fn split_lines_dec(s: Seq<char>) {
    lemma_first_occurrence(s, '\n');
}

/// Splits a line at its first space into a head and the remainder; a
/// line without a space stands for both parts whole.
pub open spec fn spec_parse_line(l: Seq<char>) -> (Seq<char>, Seq<char>) {
    let p = first_occurrence(l, ' ');
    if p >= l.len() {
        (l, l)
    } else {
        (l.subrange(0, p), l.subrange(p + 1, l.len() as int))
    }
}

pub open spec fn spec_parse_node_line(l: Seq<char>) -> Result<(usize, Seq<char>), GraffError> {
    let (kp, vp) = spec_parse_line(l);
    if parses_as_usize(kp) {
        Ok((dec_val(kp) as usize, vp))
    } else {
        Err(GraffError::BadInteger)
    }
}

/// Reads the node section's lines into `m`, in text order; a later line
/// with the same index replaces an earlier one.
pub open spec fn spec_parse_nodes(lines: Seq<Seq<char>>, m: Map<usize, TextNode>) -> Result<
    Map<usize, TextNode>,
    GraffError,
>
    decreases lines.len(),
{
    if lines.len() == 0 {
        Ok(m)
    } else {
        let l = lines.first();
        if l.len() <= 2 {
            spec_parse_nodes(lines.drop_first(), m)
        } else {
            match spec_parse_node_line(l) {
                Err(e) => Err(e),
                Ok((k, v)) => spec_parse_nodes(lines.drop_first(), m.insert(k, (NodeView {
                    value: v,
                    edges: Seq::<RibView<Seq<char>>>::empty(),
                }))),
            }
        }
    }
}

pub open spec fn spec_parse_edge_line(l: Seq<char>) -> Result<
    (usize, usize, Seq<char>),
    GraffError,
> {
    let (fp, rest) = spec_parse_line(l);
    let (tp, vp) = spec_parse_line(rest);
    if !parses_as_usize(fp) {
        Err(GraffError::BadInteger)
    } else if !parses_as_usize(tp) {
        Err(GraffError::BadInteger)
    } else {
        Ok(((dec_val(fp) as usize), (dec_val(tp) as usize), vp))
    }
}

/// Reads the edge section's lines into an already-built node map, in
/// text order, so each node's edge list grows top to bottom; an edge
/// whose source the map lacks is rejected.
pub open spec fn spec_parse_edges(lines: Seq<Seq<char>>, m: Map<usize, TextNode>) -> Result<
    Map<usize, TextNode>,
    GraffError,
>
    decreases lines.len(),
{
    if lines.len() == 0 {
        Ok(m)
    } else {
        let l = lines.first();
        if l.len() <= 2 {
            spec_parse_edges(lines.drop_first(), m)
        } else {
            match spec_parse_edge_line(l) {
                Err(e) => Err(e),
                Ok((f, t, v)) => if m.dom().contains(f) {
                    spec_parse_edges(lines.drop_first(), m.insert(f, (NodeView {
                        value: m[f].value,
                        edges: m[f].edges.push((RibView { target: t, value: v })),
                    })))
                } else {
                    Err(GraffError::UndeclaredSource)
                },
            }
        }
    }
}

/// What deserializing a text yields: the node section runs up to the
/// character after the last `#`, the edge section follows it.
pub open spec fn spec_deserialize(text: Seq<char>) -> Result<Map<usize, TextNode>, GraffError> {
    let d = divider_pos(text);
    match spec_parse_nodes(split_lines(text.subrange(0, d)), Map::empty()) {
        Err(e) => Err(e),
        Ok(m) => spec_parse_edges(split_lines(text.subrange(d, text.len() as int)), m),
    }
}

pub open spec fn spec_node_line(k: usize, v: Seq<char>) -> Seq<char> {
    dec_repr(k as nat) + seq![' '] + v + seq!['\n']
}

pub open spec fn spec_ser_nodes(es: Seq<(usize, TextNode)>) -> Seq<char>
    decreases es.len(),
{
    if es.len() == 0 {
        Seq::empty()
    } else {
        spec_ser_nodes(es.drop_last()) + spec_node_line(es.last().0, es.last().1.value)
    }
}

pub open spec fn spec_edge_line(k: usize, e: RibView<Seq<char>>) -> Seq<char> {
    dec_repr(k as nat) + seq![' '] + dec_repr(e.target as nat) + seq![' '] + e.value + seq!['\n']
}

pub open spec fn spec_edge_lines(k: usize, edges: Seq<RibView<Seq<char>>>) -> Seq<char>
    decreases edges.len(),
{
    if edges.len() == 0 {
        Seq::empty()
    } else {
        spec_edge_lines(k, edges.drop_last()) + spec_edge_line(k, edges.last())
    }
}

pub open spec fn spec_ser_edges(es: Seq<(usize, TextNode)>) -> Seq<char>
    decreases es.len(),
{
    if es.len() == 0 {
        Seq::empty()
    } else {
        spec_ser_edges(es.drop_last()) + spec_edge_lines(es.last().0, es.last().1.edges)
    }
}

/// The serialized text: node lines in ascending index order, one `#`
/// divider line, then each node's edge lines in stored order.
pub open spec fn spec_serialize(es: Seq<(usize, TextNode)>) -> Seq<char> {
    spec_ser_nodes(es) + seq!['#', '\n'] + spec_ser_edges(es)
}

/// Relies on String::push: it appends exactly the one character.
#[verifier::external_body]
fn push_char(s: &mut String, c: char)
    ensures
        final(s)@ == old(s)@.push(c),
{
    s.push(c);
}

fn str_chars(s: &str) -> (v: Vec<char>)
    ensures
        v@ =~= s@,
{
    let len = s.unicode_len();
    let mut v: Vec<char> = Vec::new();
    let mut i: usize = 0;
    while i < len
        invariant
            0 <= i <= len,
            len == s@.len(),
            v@ =~= s@.subrange(0, i as int),
        decreases len - i,
    {
        v.push(s.get_char(i));
        i = i + 1;
        proof {
            assert(v@ =~= s@.subrange(0, i as int));
        }
    }
    proof {
        assert(s@.subrange(0, len as int) =~= s@);
    }
    v
}

fn chars_to_string(chars: &Vec<char>, lo: usize, hi: usize) -> (s: String)
    requires
        lo <= hi <= chars@.len(),
    ensures
        s@ =~= chars@.subrange(lo as int, hi as int),
{
    let mut s = String::new();
    let mut i: usize = lo;
    while i < hi
        invariant
            lo <= i <= hi <= chars@.len(),
            s@ =~= chars@.subrange(lo as int, i as int),
        decreases hi - i,
    {
        push_char(&mut s, chars[i]);
        i = i + 1;
        proof {
            assert(s@ =~= chars@.subrange(lo as int, i as int));
        }
    }
    s
}

/// The first position in `[lo, hi)` holding `c`, or `hi` if none.
fn find_char(chars: &Vec<char>, lo: usize, hi: usize, c: char) -> (p: usize)
    requires
        lo <= hi <= chars@.len(),
    ensures
        lo <= p <= hi,
        p - lo == first_occurrence(chars@.subrange(lo as int, hi as int), c),
{
    let ghost sub = chars@.subrange(lo as int, hi as int);
    let mut i: usize = lo;
    while i < hi
        invariant
            lo <= i <= hi <= chars@.len(),
            sub == chars@.subrange(lo as int, hi as int),
            forall|q: int| 0 <= q < i - lo ==> sub[q] != c,
        decreases hi - i,
    {
        if chars[i] == c {
            proof {
                lemma_first_occurrence(sub, c);
                assert(sub[i - lo] == c);
            }
            return i;
        }
        proof {
            assert(sub[i - lo] == chars@[i as int]);
        }
        i = i + 1;
    }
    proof {
        lemma_first_occurrence(sub, c);
    }
    hi
}

/// The char ranges of the lines of `chars[lo..hi]`, in order.
pub open spec fn line_slices(chars: Seq<char>, lines: Seq<(usize, usize)>) -> Seq<Seq<char>> {
    lines.map_values(|p: (usize, usize)| chars.subrange(p.0 as int, p.1 as int))
}

fn collect_lines(chars: &Vec<char>, lo: usize, hi: usize) -> (lines: Vec<(usize, usize)>)
    requires
        lo <= hi <= chars@.len(),
    ensures
        line_slices(chars@, lines@) =~= split_lines(chars@.subrange(lo as int, hi as int)),
        forall|m: int|
            0 <= m < lines@.len() ==> lo <= (#[trigger] lines@[m]).0 <= lines@[m].1 <= hi,
{
    let mut lines: Vec<(usize, usize)> = Vec::new();
    let mut start = lo;
    loop
        invariant
            lo <= start <= hi <= chars@.len(),
            forall|m: int|
                0 <= m < lines@.len() ==> lo <= (#[trigger] lines@[m]).0 <= lines@[m].1 <= hi,
            split_lines(chars@.subrange(lo as int, hi as int)) =~= line_slices(chars@, lines@)
                + split_lines(chars@.subrange(start as int, hi as int)),
        decreases hi - start,
    {
        let p = find_char(chars, start, hi, '\n');
        let ghost rest = chars@.subrange(start as int, hi as int);
        let ghost pre_lines = lines@;
        if p < hi {
            lines.push((start, p));
            proof {
                assert(rest.subrange(0, p - start) =~= chars@.subrange(start as int, p as int));
                assert(rest.subrange(p - start + 1, rest.len() as int) =~= chars@.subrange(p + 1,
                    hi as int));
                assert(split_lines(rest) == seq![rest.subrange(0, p - start)] + split_lines(
                    rest.subrange(p - start + 1, rest.len() as int)));
                assert(line_slices(chars@, lines@) =~= line_slices(chars@, pre_lines).push(
                    chars@.subrange(start as int, p as int)));
            }
            start = p + 1;
        } else {
            lines.push((start, hi));
            proof {
                assert(split_lines(rest) == seq![rest]);
                assert(line_slices(chars@, lines@) =~= line_slices(chars@, pre_lines).push(rest));
            }
            return lines;
        }
    }
}

impl DirectionalGraff<String, String> {
    /// Renders the graph in the line-oriented text format: `"<index>
    /// <node payload>"` lines in ascending index order, a `"#"` divider
    /// line, then `"<from> <to> <edge payload>"` lines, grouped by
    /// source in ascending order, each group in stored edge order.
    pub fn serialize(&self) -> (r: Result<String, GraffError>)
        requires
            self.wf(),
        ensures
            r is Ok,
            r matches Ok(s) ==> s@ == spec_serialize(self.entry_seq()),
    {
        proof {
            reveal_strlit(" ");
            reveal_strlit("\n");
            reveal_strlit("#\n");
        }
        let ghost es = self.entry_seq();
        let mut nodes_out = String::new();
        let mut edges_out = String::new();
        let mut i: usize = 0;
        while i < self.nodes.len()
            invariant
                self.wf(),
                es == self.entry_seq(),
                0 <= i <= self.nodes@.len(),
                nodes_out@ == spec_ser_nodes(es.subrange(0, i as int)),
                edges_out@ == spec_ser_edges(es.subrange(0, i as int)),
            decreases self.nodes@.len() - i,
        {
            proof {
                reveal_strlit(" ");
                reveal_strlit("\n");
            }
            let key = self.nodes[i].0;
            push_dec(&mut nodes_out, key);
            nodes_out.append(" ");
            nodes_out.append(self.nodes[i].1.value.as_str());
            nodes_out.append("\n");
            proof {
                assert(es.subrange(0, i + 1).drop_last() =~= es.subrange(0, i as int));
                assert(es.subrange(0, i + 1).last() == es[i as int]);
                assert(es[i as int].1.value == self.nodes@[i as int].1@.value);
                assert(nodes_out@ =~= spec_ser_nodes(es.subrange(0, i + 1)));
            }
            let ghost edges = es[i as int].1.edges;
            let mut j: usize = 0;
            while j < self.nodes[i].1.ribs.len()
                invariant
                    self.wf(),
                    es == self.entry_seq(),
                    0 <= i < self.nodes@.len(),
                    0 <= j <= self.nodes@[i as int].1.ribs@.len(),
                    key == self.nodes@[i as int].0,
                    edges == es[i as int].1.edges,
                    edges.len() == self.nodes@[i as int].1.ribs@.len(),
                    edges_out@ == spec_ser_edges(es.subrange(0, i as int)) + spec_edge_lines(key,
                        edges.subrange(0, j as int)),
                decreases self.nodes@[i as int].1.ribs@.len() - j,
            {
                proof {
                    reveal_strlit(" ");
                    reveal_strlit("\n");
                }
                push_dec(&mut edges_out, key);
                edges_out.append(" ");
                push_dec(&mut edges_out, self.nodes[i].1.ribs[j].target);
                edges_out.append(" ");
                edges_out.append(self.nodes[i].1.ribs[j].value.as_str());
                edges_out.append("\n");
                proof {
                    assert(edges.subrange(0, j + 1).drop_last() =~= edges.subrange(0, j as int));
                    assert(edges.subrange(0, j + 1).last() == edges[j as int]);
                    assert(edges[j as int] == self.nodes@[i as int].1.ribs@[j as int]@);
                    assert(edges_out@ =~= spec_ser_edges(es.subrange(0, i as int))
                        + spec_edge_lines(key, edges.subrange(0, j + 1)));
                }
                j = j + 1;
            }
            proof {
                assert(edges.subrange(0, edges.len() as int) =~= edges);
                assert(es.subrange(0, i + 1).drop_last() =~= es.subrange(0, i as int));
                assert(edges_out@ =~= spec_ser_edges(es.subrange(0, i + 1)));
            }
            i = i + 1;
        }
        proof {
            assert(es.subrange(0, es.len() as int) =~= es);
        }
        let mut out = nodes_out;
        out.append("#\n");
        out.append(edges_out.as_str());
        proof {
            assert(out@ =~= spec_serialize(es));
        }
        Ok(out)
    }

    /// Rebuilds the graph from its text format, replacing the current
    /// node collection only when the whole text parses; on any failure
    /// the graph is left untouched. The node section runs up to the
    /// character after the last `#`; lines of two characters or fewer
    /// are skipped; within each section the lines are taken in text
    /// order, so among node lines with one index the last in the text
    /// wins, and each node's edges accumulate top to bottom.
    pub fn dessireolization(&mut self, text: String) -> (r: Result<(), GraffError>)
        requires
            old(self).wf(),
        ensures
            final(self).wf(),
            match spec_deserialize(text@) {
                Ok(m) => r == Ok::<(), GraffError>(()) && final(self)@ =~= m,
                Err(e) => r == Err::<(), GraffError>(e) && *final(self) == *old(self),
            },
    {
        let chars = str_chars(text.as_str());
        let ghost whole = chars@;
        let mut div: usize = 0;
        let mut ci: usize = 0;
        while ci < chars.len()
            invariant
                0 <= ci <= chars@.len(),
                whole == chars@,
                div <= ci,
                div == divider_pos(chars@.subrange(0, ci as int)),
            decreases chars@.len() - ci,
        {
            proof {
                assert(chars@.subrange(0, ci + 1).drop_last() =~= chars@.subrange(0, ci as int));
                assert(chars@.subrange(0, ci + 1).last() == chars@[ci as int]);
            }
            if chars[ci] == '#' {
                div = ci + 1;
            }
            ci = ci + 1;
        }
        proof {
            assert(chars@.subrange(0, chars@.len() as int) =~= chars@);
            assert(div == divider_pos(text@));
        }
        let node_lines = collect_lines(&chars, 0, div);
        let edge_lines = collect_lines(&chars, div, chars.len());
        let ghost nslices = split_lines(text@.subrange(0, divider_pos(text@)));
        let ghost eslices = split_lines(text@.subrange(divider_pos(text@), text@.len() as int));
        proof {
            assert(chars@.subrange(0, div as int) == text@.subrange(0, divider_pos(text@)));
            assert(chars@.subrange(div as int, chars@.len() as int) == text@.subrange(
                divider_pos(text@), text@.len() as int));
            assert(line_slices(chars@, node_lines@) == nslices);
            assert(line_slices(chars@, edge_lines@) == eslices);
        }
        let mut fresh: DirectionalGraff<String, String> = DirectionalGraff::empty();
        let mut i: usize = 0;
        proof {
            assert(nslices.skip(0) =~= nslices);
        }
        while i < node_lines.len()
            invariant
                fresh.wf(),
                *self == *old(self),
                old(self).wf(),
                nslices == split_lines(text@.subrange(0, divider_pos(text@))),
                0 <= i <= node_lines@.len(),
                node_lines@.len() == nslices.len(),
                line_slices(chars@, node_lines@) == nslices,
                forall|m: int|
                    0 <= m < node_lines@.len() ==> 0 <= (#[trigger] node_lines@[m]).0
                        <= node_lines@[m].1 <= chars@.len(),
                spec_parse_nodes(nslices, Map::empty()) == spec_parse_nodes(nslices.skip(
                    i as int), fresh@),
            decreases node_lines@.len() - i,
        {
            let lo = node_lines[i].0;
            let hi = node_lines[i].1;
            let ghost line = nslices[i as int];
            proof {
                assert(line == chars@.subrange(lo as int, hi as int));
                assert(nslices.skip(i as int).drop_first() =~= nslices.skip(i + 1));
                assert(nslices.skip(i as int)[0] == line);
                assert(nslices.skip(i as int).len() > 0);
            }
            if hi - lo > 2 {
                let sp = find_char(&chars, lo, hi, ' ');
                let ghost kp = spec_parse_line(line).0;
                let ghost vp = spec_parse_line(line).1;
                let khi = if sp < hi {
                    sp
                } else {
                    hi
                };
                let vlo = if sp < hi {
                    sp + 1
                } else {
                    lo
                };
                proof {
                    assert(kp =~= chars@.subrange(lo as int, khi as int));
                    assert(vp =~= chars@.subrange(vlo as int, hi as int));
                }
                let k = match parse_usize(&chars, lo, khi) {
                    Some(k) => k,
                    None => {
                        proof {
                            assert(spec_parse_nodes(nslices.skip(i as int), fresh@) == Err::<
                                Map<usize, TextNode>,
                                GraffError,
                            >(GraffError::BadInteger));
                        }
                        return Err(GraffError::BadInteger);
                    },
                };
                let value = chars_to_string(&chars, vlo, hi);
                let node: Node<String, String> = Node::new(value);
                proof {
                    assert(node@ == (NodeView {
                        value: vp,
                        edges: Seq::<RibView<Seq<char>>>::empty(),
                    }));
                    assert(k as nat == dec_val(kp));
                }
                fresh.upsert(k, node);
            }
            i = i + 1;
        }
        let ghost m0 = fresh@;
        proof {
            assert(nslices.skip(nslices.len() as int) =~= Seq::<Seq<char>>::empty());
            assert(spec_parse_nodes(nslices, Map::empty()) == Ok::<Map<usize, TextNode>,
                GraffError>(m0));
        }
        let mut i: usize = 0;
        proof {
            assert(eslices.skip(0) =~= eslices);
        }
        while i < edge_lines.len()
            invariant
                fresh.wf(),
                *self == *old(self),
                old(self).wf(),
                nslices == split_lines(text@.subrange(0, divider_pos(text@))),
                eslices == split_lines(text@.subrange(divider_pos(text@), text@.len() as int)),
                spec_parse_nodes(nslices, Map::empty()) == Ok::<Map<usize, TextNode>, GraffError>(
                    m0),
                0 <= i <= edge_lines@.len(),
                edge_lines@.len() == eslices.len(),
                line_slices(chars@, edge_lines@) == eslices,
                forall|m: int|
                    0 <= m < edge_lines@.len() ==> 0 <= (#[trigger] edge_lines@[m]).0
                        <= edge_lines@[m].1 <= chars@.len(),
                spec_parse_edges(eslices, m0) == spec_parse_edges(eslices.skip(i as int), fresh@),
            decreases edge_lines@.len() - i,
        {
            let lo = edge_lines[i].0;
            let hi = edge_lines[i].1;
            let ghost line = eslices[i as int];
            proof {
                assert(line == chars@.subrange(lo as int, hi as int));
                assert(eslices.skip(i as int).drop_first() =~= eslices.skip(i + 1));
                assert(eslices.skip(i as int)[0] == line);
                assert(eslices.skip(i as int).len() > 0);
            }
            if hi - lo > 2 {
                let sp1 = find_char(&chars, lo, hi, ' ');
                let fhi = if sp1 < hi {
                    sp1
                } else {
                    hi
                };
                let rlo = if sp1 < hi {
                    sp1 + 1
                } else {
                    lo
                };
                let sp2 = find_char(&chars, rlo, hi, ' ');
                let thi = if sp2 < hi {
                    sp2
                } else {
                    hi
                };
                let vlo = if sp2 < hi {
                    sp2 + 1
                } else {
                    rlo
                };
                let ghost fp = spec_parse_line(line).0;
                let ghost rest = spec_parse_line(line).1;
                let ghost tp = spec_parse_line(rest).0;
                let ghost vp = spec_parse_line(rest).1;
                proof {
                    assert(fp =~= chars@.subrange(lo as int, fhi as int));
                    assert(rest =~= chars@.subrange(rlo as int, hi as int));
                    assert(first_occurrence(rest, ' ') == sp2 - rlo) by {
                        assert(rest =~= chars@.subrange(rlo as int, hi as int));
                    }
                    assert(tp =~= chars@.subrange(rlo as int, thi as int));
                    assert(vp =~= chars@.subrange(vlo as int, hi as int));
                }
                let from = match parse_usize(&chars, lo, fhi) {
                    Some(k) => k,
                    None => {
                        proof {
                            assert(spec_parse_edges(eslices.skip(i as int), fresh@) == Err::<
                                Map<usize, TextNode>,
                                GraffError,
                            >(GraffError::BadInteger));
                        }
                        return Err(GraffError::BadInteger);
                    },
                };
                let to = match parse_usize(&chars, rlo, thi) {
                    Some(k) => k,
                    None => {
                        proof {
                            assert(spec_parse_edges(eslices.skip(i as int), fresh@) == Err::<
                                Map<usize, TextNode>,
                                GraffError,
                            >(GraffError::BadInteger));
                        }
                        return Err(GraffError::BadInteger);
                    },
                };
                let value = chars_to_string(&chars, vlo, hi);
                proof {
                    assert(value@ == vp);
                    assert(from as nat == dec_val(fp));
                    assert(to as nat == dec_val(tp));
                }
                let ghost mpre = fresh@;
                match fresh.add_rib(from, to, value) {
                    Ok(()) => {
                        proof {
                            assert(mpre.dom().contains(from));
                            assert(fresh@ =~= mpre.insert(from, (NodeView {
                                value: mpre[from].value,
                                edges: mpre[from].edges.push((RibView { target: to, value: vp })),
                            })));
                            assert(spec_parse_edges(eslices.skip(i as int), mpre)
                                == spec_parse_edges(eslices.skip(i + 1), fresh@));
                        }
                    },
                    Err(_) => {
                        proof {
                            assert(spec_parse_edges(eslices.skip(i as int), fresh@) == Err::<
                                Map<usize, TextNode>,
                                GraffError,
                            >(GraffError::UndeclaredSource));
                        }
                        return Err(GraffError::UndeclaredSource);
                    },
                }
            }
            i = i + 1;
        }
        proof {
            assert(eslices.skip(eslices.len() as int) =~= Seq::<Seq<char>>::empty());
        }
        *self = fresh;
        Ok(())
    }
}

// ---------------------------------------------------------------------
// The round trip: deserializing a serialized graph.
// ---------------------------------------------------------------------

pub open spec fn avoids(s: Seq<char>, c: char) -> bool {
    forall|i: int| 0 <= i < s.len() ==> s[i] != c
}

/// A node payload that survives the text format: non-empty (a shorter
/// line is skipped on reading) and free of newlines.
pub open spec fn node_text_ok(v: Seq<char>) -> bool {
    v.len() >= 1 && avoids(v, '\n')
}

/// An edge payload that survives the text format: free of newlines and
/// of `#` (a later `#` would displace the divider).
pub open spec fn edge_text_ok(v: Seq<char>) -> bool {
    avoids(v, '\n') && avoids(v, '#')
}

pub open spec fn entries_text_ok(es: Seq<(usize, TextNode)>) -> bool {
    forall|i: int|
        0 <= i < es.len() ==> node_text_ok((#[trigger] es[i]).1.value) && forall|j: int|
            0 <= j < es[i].1.edges.len() ==> edge_text_ok((#[trigger] es[i].1.edges[j]).value)
}

pub open spec fn spec_node_body(k: usize, v: Seq<char>) -> Seq<char> {
    dec_repr(k as nat) + seq![' '] + v
}

pub open spec fn spec_edge_body(k: usize, e: RibView<Seq<char>>) -> Seq<char> {
    dec_repr(k as nat) + seq![' '] + dec_repr(e.target as nat) + seq![' '] + e.value
}

/// The edge lines of one node as a line list, in stored order.
pub open spec fn edge_bodies(k: usize, edges: Seq<RibView<Seq<char>>>) -> Seq<Seq<char>>
    decreases edges.len(),
{
    if edges.len() == 0 {
        Seq::empty()
    } else {
        seq![spec_edge_body(k, edges[0])] + edge_bodies(k, edges.drop_first())
    }
}

proof fn lemma_digits_avoid(s: Seq<char>)
    requires
        crate::decimal::all_digits(s),
    ensures
        avoids(s, '\n'),
        avoids(s, ' '),
        avoids(s, '#'),
{
    assert forall|i: int| 0 <= i < s.len() implies s[i] != '\n' && s[i] != ' ' && s[i]
        != '#' by {
        assert(crate::decimal::is_digit(s[i]));
    }
}

proof fn lemma_divider_append(a: Seq<char>, b: Seq<char>)
    requires
        avoids(b, '#'),
    ensures
        divider_pos(a + b) == divider_pos(a),
    decreases b.len(),
{
    if b.len() == 0 {
        assert(a + b =~= a);
    } else {
        assert((a + b).drop_last() =~= a + b.drop_last());
        assert((a + b).last() == b.last());
        assert(b.last() != '#');
        assert(avoids(b.drop_last(), '#')) by {
            assert(forall|i: int| 0 <= i < b.len() - 1 ==> b.drop_last()[i] == b[i]);
        }
        lemma_divider_append(a, b.drop_last());
    }
}

proof fn lemma_split_prepend(body: Seq<char>, rest: Seq<char>)
    requires
        avoids(body, '\n'),
    ensures
        split_lines(body + seq!['\n'] + rest) == seq![body] + split_lines(rest),
{
    let s = body + seq!['\n'] + rest;
    lemma_first_occurrence(s, '\n');
    assert(s[body.len() as int] == '\n');
    assert forall|q: int| 0 <= q < body.len() implies s[q] != '\n' by {
        assert(s[q] == body[q]);
    }
    let fo = first_occurrence(s, '\n');
    assert(fo <= body.len()) by {
        if fo > body.len() {
            assert(s[body.len() as int] != '\n');
        }
    }
    assert(fo == body.len());
    assert(s.subrange(0, body.len() as int) =~= body);
    assert(s.subrange(body.len() as int + 1, s.len() as int) =~= rest);
}

proof fn lemma_ser_nodes_front(es: Seq<(usize, TextNode)>)
    requires
        es.len() > 0,
    ensures
        spec_ser_nodes(es) == spec_node_line(es[0].0, es[0].1.value) + spec_ser_nodes(
            es.drop_first()),
    decreases es.len(),
{
    if es.len() == 1 {
        assert(es.drop_last() =~= Seq::<(usize, TextNode)>::empty());
        assert(es.drop_first() =~= Seq::<(usize, TextNode)>::empty());
        assert(es.last() == es[0]);
        assert(spec_ser_nodes(es) =~= spec_node_line(es[0].0, es[0].1.value) + spec_ser_nodes(
            es.drop_first()));
    } else {
        let dl = es.drop_last();
        lemma_ser_nodes_front(dl);
        assert(dl[0] == es[0]);
        assert(es.drop_first().drop_last() =~= dl.drop_first());
        assert(es.drop_first().last() == es.last());
        assert(es.drop_first().len() > 0);
        assert(spec_ser_nodes(es) =~= spec_node_line(es[0].0, es[0].1.value) + spec_ser_nodes(
            es.drop_first()));
    }
}

proof fn lemma_edge_lines_front(k: usize, edges: Seq<RibView<Seq<char>>>)
    requires
        edges.len() > 0,
    ensures
        spec_edge_lines(k, edges) == spec_edge_line(k, edges[0]) + spec_edge_lines(k,
            edges.drop_first()),
    decreases edges.len(),
{
    if edges.len() == 1 {
        assert(edges.drop_last() =~= Seq::<RibView<Seq<char>>>::empty());
        assert(edges.drop_first() =~= Seq::<RibView<Seq<char>>>::empty());
        assert(edges.last() == edges[0]);
        assert(spec_edge_lines(k, edges) =~= spec_edge_line(k, edges[0]) + spec_edge_lines(k,
            edges.drop_first()));
    } else {
        let dl = edges.drop_last();
        lemma_edge_lines_front(k, dl);
        assert(dl[0] == edges[0]);
        assert(edges.drop_first().drop_last() =~= dl.drop_first());
        assert(edges.drop_first().last() == edges.last());
        assert(edges.drop_first().len() > 0);
        assert(spec_edge_lines(k, edges) =~= spec_edge_line(k, edges[0]) + spec_edge_lines(k,
            edges.drop_first()));
    }
}

proof fn lemma_ser_edges_front(es: Seq<(usize, TextNode)>)
    requires
        es.len() > 0,
    ensures
        spec_ser_edges(es) == spec_edge_lines(es[0].0, es[0].1.edges) + spec_ser_edges(
            es.drop_first()),
    decreases es.len(),
{
    if es.len() == 1 {
        assert(es.drop_last() =~= Seq::<(usize, TextNode)>::empty());
        assert(es.drop_first() =~= Seq::<(usize, TextNode)>::empty());
        assert(es.last() == es[0]);
        assert(spec_ser_edges(es) =~= spec_edge_lines(es[0].0, es[0].1.edges) + spec_ser_edges(
            es.drop_first()));
    } else {
        let dl = es.drop_last();
        lemma_ser_edges_front(dl);
        assert(dl[0] == es[0]);
        assert(es.drop_first().drop_last() =~= dl.drop_first());
        assert(es.drop_first().last() == es.last());
        assert(es.drop_first().len() > 0);
        assert(spec_ser_edges(es) =~= spec_edge_lines(es[0].0, es[0].1.edges) + spec_ser_edges(
            es.drop_first()));
    }
}

proof fn lemma_edge_line_avoids_hash(k: usize, e: RibView<Seq<char>>)
    requires
        edge_text_ok(e.value),
    ensures
        avoids(spec_edge_line(k, e), '#'),
{
    lemma_dec_repr_val(k as nat);
    lemma_dec_repr_val(e.target as nat);
    lemma_digits_avoid(dec_repr(k as nat));
    lemma_digits_avoid(dec_repr(e.target as nat));
}

proof fn lemma_ser_edges_avoids_hash(es: Seq<(usize, TextNode)>)
    requires
        entries_text_ok(es),
    ensures
        avoids(spec_ser_edges(es), '#'),
    decreases es.len(),
{
    if es.len() > 0 {
        let dl = es.drop_last();
        assert(entries_text_ok(dl)) by {
            assert(forall|i: int| 0 <= i < dl.len() ==> dl[i] == es[i]);
        }
        lemma_ser_edges_avoids_hash(dl);
        let k = es.last().0;
        let edges = es.last().1.edges;
        assert(avoids(spec_edge_lines(k, edges), '#')) by {
            lemma_edge_group_avoids_hash(k, edges);
        }
    }
}

proof fn lemma_edge_group_avoids_hash(k: usize, edges: Seq<RibView<Seq<char>>>)
    requires
        forall|j: int| 0 <= j < edges.len() ==> edge_text_ok((#[trigger] edges[j]).value),
    ensures
        avoids(spec_edge_lines(k, edges), '#'),
    decreases edges.len(),
{
    if edges.len() > 0 {
        let dl = edges.drop_last();
        assert(forall|j: int| 0 <= j < dl.len() ==> dl[j] == edges[j]);
        lemma_edge_group_avoids_hash(k, dl);
        lemma_edge_line_avoids_hash(k, edges.last());
    }
}


/// Parsing one node's run of edge lines, in text order, appends that
/// node's edges in that same order.
proof fn lemma_parse_edge_group(k: usize, edges: Seq<RibView<Seq<char>>>, m: Map<usize, TextNode>)
    requires
        m.dom().contains(k),
        forall|j: int| 0 <= j < edges.len() ==> edge_text_ok((#[trigger] edges[j]).value),
    ensures
        spec_parse_edges(edge_bodies(k, edges), m) == Ok::<Map<usize, TextNode>, GraffError>(
            m.insert(k, (NodeView { value: m[k].value, edges: m[k].edges + edges }))),
    decreases edges.len(),
{
    if edges.len() == 0 {
        assert(m[k].edges + edges =~= m[k].edges);
        assert((NodeView { value: m[k].value, edges: m[k].edges + edges }) =~= m[k]);
        assert(m.insert(k, m[k]) =~= m);
    } else {
        let rest = edges.drop_first();
        assert(forall|j: int| 0 <= j < rest.len() ==> rest[j] == edges[j + 1]);
        let bodies = edge_bodies(k, edges);
        assert(bodies.drop_first() =~= edge_bodies(k, rest));
        assert(bodies[0] == spec_edge_body(k, edges[0]));
        let e0 = edges[0];
        let body = spec_edge_body(k, e0);
        let dk = dec_repr(k as nat);
        let dt = dec_repr(e0.target as nat);
        lemma_dec_repr_val(k as nat);
        lemma_dec_repr_val(e0.target as nat);
        lemma_digits_avoid(dk);
        lemma_digits_avoid(dt);
        assert(body.len() > 2);
        // the first space sits right after the source index
        lemma_first_occurrence(body, ' ');
        let fo = first_occurrence(body, ' ');
        assert(body[dk.len() as int] == ' ');
        assert forall|q: int| 0 <= q < dk.len() implies body[q] != ' ' by {
            assert(body[q] == dk[q]);
        }
        assert(fo <= dk.len()) by {
            if fo > dk.len() {
                assert(body[dk.len() as int] != ' ');
            }
        }
        assert(fo == dk.len());
        assert(spec_parse_line(body).0 =~= dk);
        let rest_line = spec_parse_line(body).1;
        assert(rest_line =~= dt + seq![' '] + e0.value);
        // the second space sits right after the target index
        lemma_first_occurrence(rest_line, ' ');
        let fo2 = first_occurrence(rest_line, ' ');
        assert(rest_line[dt.len() as int] == ' ');
        assert forall|q: int| 0 <= q < dt.len() implies rest_line[q] != ' ' by {
            assert(rest_line[q] == dt[q]);
        }
        assert(fo2 <= dt.len()) by {
            if fo2 > dt.len() {
                assert(rest_line[dt.len() as int] != ' ');
            }
        }
        assert(fo2 == dt.len());
        assert(spec_parse_line(rest_line).0 =~= dt);
        assert(spec_parse_line(rest_line).1 =~= e0.value);
        assert(parses_as_usize(dk) && dec_val(dk) == k as nat);
        assert(parses_as_usize(dt) && dec_val(dt) == e0.target as nat);
        assert(spec_parse_edge_line(body) == Ok::<(usize, usize, Seq<char>), GraffError>((k,
            e0.target, e0.value)));
        assert((RibView { target: e0.target, value: e0.value }) =~= e0);
        let m1 = m.insert(k, (NodeView { value: m[k].value, edges: m[k].edges.push(e0) }));
        assert(spec_parse_edges(bodies, m) == spec_parse_edges(edge_bodies(k, rest), m1));
        lemma_parse_edge_group(k, rest, m1);
        assert(m1[k].edges + rest =~= m[k].edges + edges) by {
            assert(m1[k].edges == m[k].edges.push(e0));
        }
        assert(m1.insert(k, (NodeView { value: m1[k].value, edges: m1[k].edges + rest }))
            =~= m.insert(k, (NodeView { value: m[k].value, edges: m[k].edges + edges })));
    }
}

/// Splitting a run of edge lines followed by further text yields those
/// lines then the split of the rest.
proof fn lemma_split_edge_lines(k: usize, edges: Seq<RibView<Seq<char>>>, tail: Seq<char>)
    requires
        forall|j: int| 0 <= j < edges.len() ==> edge_text_ok((#[trigger] edges[j]).value),
    ensures
        split_lines(spec_edge_lines(k, edges) + tail) == edge_bodies(k, edges) + split_lines(tail),
    decreases edges.len(),
{
    if edges.len() == 0 {
        assert(spec_edge_lines(k, edges) + tail =~= tail);
        assert(edge_bodies(k, edges) + split_lines(tail) =~= split_lines(tail));
    } else {
        let rest = edges.drop_first();
        assert(forall|j: int| 0 <= j < rest.len() ==> rest[j] == edges[j + 1]);
        lemma_edge_lines_front(k, edges);
        let body = spec_edge_body(k, edges[0]);
        lemma_dec_repr_val(k as nat);
        lemma_dec_repr_val(edges[0].target as nat);
        lemma_digits_avoid(dec_repr(k as nat));
        lemma_digits_avoid(dec_repr(edges[0].target as nat));
        assert(avoids(body, '\n'));
        assert(spec_edge_lines(k, edges) + tail =~= body + seq!['\n'] + (spec_edge_lines(k, rest)
            + tail));
        lemma_split_prepend(body, spec_edge_lines(k, rest) + tail);
        lemma_split_edge_lines(k, rest, tail);
        assert(edge_bodies(k, edges) + split_lines(tail) =~= seq![body] + (edge_bodies(k, rest)
            + split_lines(tail)));
    }
}

/// A line list parses by first folding its front part into the map.
proof fn lemma_parse_edges_concat(
    a: Seq<Seq<char>>,
    b: Seq<Seq<char>>,
    m: Map<usize, TextNode>,
    m2: Map<usize, TextNode>,
)
    requires
        spec_parse_edges(a, m) == Ok::<Map<usize, TextNode>, GraffError>(m2),
    ensures
        spec_parse_edges(a + b, m) == spec_parse_edges(b, m2),
    decreases a.len(),
{
    if a.len() == 0 {
        assert(a + b =~= b);
    } else {
        assert((a + b).drop_first() =~= a.drop_first() + b);
        assert((a + b)[0] == a[0]);
        assert((a + b).len() > 0);
        let l = a[0];
        if l.len() <= 2 {
            lemma_parse_edges_concat(a.drop_first(), b, m, m2);
        } else {
            match spec_parse_edge_line(l) {
                Err(e) => {
                    assert(false);
                },
                Ok((f, t, v)) => {
                    assert(m.dom().contains(f));
                    let m1 = m.insert(f, (NodeView {
                        value: m[f].value,
                        edges: m[f].edges.push((RibView { target: t, value: v })),
                    }));
                    lemma_parse_edges_concat(a.drop_first(), b, m1, m2);
                },
            }
        }
    }
}

/// Parsing the node section of a serialized entry list adds every node,
/// with an empty edge list, to the starting map.
proof fn lemma_parse_ser_nodes_rt(es: Seq<(usize, TextNode)>, m: Map<usize, TextNode>)
    requires
        key_seq(es).no_duplicates(),
        entries_text_ok(es),
    ensures
        spec_parse_nodes(split_lines(spec_ser_nodes(es) + seq!['#']), m) is Ok,
        forall|k: usize|
            spec_parse_nodes(split_lines(spec_ser_nodes(es) + seq!['#']), m)->Ok_0.dom().contains(
                k) <==> m.dom().contains(k) || key_seq(es).contains(k),
        forall|i: int|
            0 <= i < es.len() ==> spec_parse_nodes(split_lines(spec_ser_nodes(es) + seq!['#']),
                m)->Ok_0[(#[trigger] es[i]).0] == (NodeView {
                value: es[i].1.value,
                edges: Seq::<RibView<Seq<char>>>::empty(),
            }),
        forall|k: usize|
            m.dom().contains(k) && !key_seq(es).contains(k) ==> spec_parse_nodes(split_lines(
                spec_ser_nodes(es) + seq!['#']), m)->Ok_0[k] == m[k],
    decreases es.len(),
{
    if es.len() == 0 {
        let text = spec_ser_nodes(es) + seq!['#'];
        assert(text =~= seq!['#']);
        lemma_first_occurrence(seq!['#'], '\n');
        assert(first_occurrence(seq!['#'], '\n') == 1) by {
            assert(seq!['#'][0] != '\n');
            assert(seq!['#'].drop_first() =~= Seq::<char>::empty());
        }
        assert(split_lines(text) == seq![seq!['#']]);
        assert(seq![seq!['#']].drop_first() =~= Seq::<Seq<char>>::empty());
        assert(spec_parse_nodes(Seq::<Seq<char>>::empty(), m) == Ok::<
            Map<usize, TextNode>,
            GraffError,
        >(m));
        assert(spec_parse_nodes(split_lines(text), m) == Ok::<Map<usize, TextNode>, GraffError>(
            m));
    } else {
        let rest = es.drop_first();
        assert(forall|i: int| 0 <= i < rest.len() ==> rest[i] == es[i + 1]);
        assert(key_seq(rest) =~= key_seq(es).drop_first());
        assert(key_seq(rest).no_duplicates()) by {
            assert(forall|i: int| 0 <= i < key_seq(rest).len() ==> key_seq(rest)[i] == key_seq(
                es)[i + 1]);
        }
        assert(entries_text_ok(rest));
        let k0 = es[0].0;
        let v0 = es[0].1.value;
        lemma_ser_nodes_front(es);
        let body = spec_node_body(k0, v0);
        lemma_dec_repr_val(k0 as nat);
        lemma_digits_avoid(dec_repr(k0 as nat));
        assert(node_text_ok(v0));
        assert(avoids(body, '\n'));
        let rest_text = spec_ser_nodes(rest) + seq!['#'];
        assert(spec_ser_nodes(es) + seq!['#'] =~= body + seq!['\n'] + rest_text);
        lemma_split_prepend(body, rest_text);
        let lines = split_lines(spec_ser_nodes(es) + seq!['#']);
        assert(lines.drop_first() =~= split_lines(rest_text));
        assert(lines[0] == body);
        assert(lines.len() > 0);
        assert(body.len() > 2);
        let dk = dec_repr(k0 as nat);
        lemma_first_occurrence(body, ' ');
        let fo = first_occurrence(body, ' ');
        assert(body[dk.len() as int] == ' ');
        assert forall|q: int| 0 <= q < dk.len() implies body[q] != ' ' by {
            assert(body[q] == dk[q]);
        }
        assert(fo <= dk.len()) by {
            if fo > dk.len() {
                assert(body[dk.len() as int] != ' ');
            }
        }
        assert(fo == dk.len());
        assert(spec_parse_line(body).0 =~= dk);
        assert(spec_parse_line(body).1 =~= v0);
        assert(parses_as_usize(dk) && dec_val(dk) == k0 as nat);
        assert(spec_parse_node_line(body) == Ok::<(usize, Seq<char>), GraffError>((k0, v0)));
        let nv0 = (NodeView { value: v0, edges: Seq::<RibView<Seq<char>>>::empty() });
        let m1 = m.insert(k0, nv0);
        assert(spec_parse_nodes(lines, m) == spec_parse_nodes(split_lines(rest_text), m1));
        lemma_parse_ser_nodes_rt(rest, m1);
        assert(!key_seq(rest).contains(k0)) by {
            if key_seq(rest).contains(k0) {
                let i = choose|i: int| 0 <= i < key_seq(rest).len() && key_seq(rest)[i] == k0;
                assert(key_seq(es)[i + 1] == k0);
                assert(key_seq(es)[0] == k0);
            }
        }
        let r = spec_parse_nodes(lines, m)->Ok_0;
        assert forall|k: usize|
            r.dom().contains(k) <==> m.dom().contains(k) || key_seq(es).contains(k) by {
            assert(key_seq(es)[0] == k0);
            if key_seq(es).contains(k) && k != k0 {
                let i = choose|i: int| 0 <= i < key_seq(es).len() && key_seq(es)[i] == k;
                assert(key_seq(rest)[i - 1] == k);
            }
            if key_seq(rest).contains(k) {
                let i = choose|i: int| 0 <= i < key_seq(rest).len() && key_seq(rest)[i] == k;
                assert(key_seq(es)[i + 1] == k);
            }
        }
        assert forall|i: int|
            0 <= i < es.len() implies r[(#[trigger] es[i]).0] == (NodeView {
            value: es[i].1.value,
            edges: Seq::<RibView<Seq<char>>>::empty(),
        }) by {
            if i == 0 {
                assert(m1.dom().contains(k0) && m1[k0] == nv0);
                assert(!key_seq(rest).contains(k0));
            } else {
                assert(es[i] == rest[i - 1]);
            }
        }
        assert forall|k: usize|
            m.dom().contains(k) && !key_seq(es).contains(k) implies r[k] == m[k] by {
            assert(key_seq(es)[0] == k0);
            assert(!key_seq(rest).contains(k)) by {
                if key_seq(rest).contains(k) {
                    let i = choose|i: int| 0 <= i < key_seq(rest).len() && key_seq(rest)[i] == k;
                    assert(key_seq(es)[i + 1] == k);
                }
            }
            assert(m1.dom().contains(k) && m1[k] == m[k]);
        }
    }
}

/// Parsing the edge section of a serialized entry list appends each
/// node's edges, in stored order, to its entry in the starting map.
proof fn lemma_parse_ser_edges_rt(es: Seq<(usize, TextNode)>, m: Map<usize, TextNode>)
    requires
        key_seq(es).no_duplicates(),
        entries_text_ok(es),
        forall|i: int| 0 <= i < es.len() ==> m.dom().contains((#[trigger] es[i]).0),
    ensures
        spec_parse_edges(split_lines(spec_ser_edges(es)), m) is Ok,
        spec_parse_edges(split_lines(spec_ser_edges(es)), m)->Ok_0.dom() =~= m.dom(),
        forall|i: int|
            0 <= i < es.len() ==> spec_parse_edges(split_lines(spec_ser_edges(es)), m)->Ok_0[(
            #[trigger] es[i]).0] == (NodeView {
                value: m[es[i].0].value,
                edges: m[es[i].0].edges + es[i].1.edges,
            }),
        forall|k: usize|
            m.dom().contains(k) && !key_seq(es).contains(k) ==> spec_parse_edges(split_lines(
                spec_ser_edges(es)), m)->Ok_0[k] == m[k],
    decreases es.len(),
{
    if es.len() == 0 {
        let text = spec_ser_edges(es);
        assert(text =~= Seq::<char>::empty());
        lemma_first_occurrence(text, '\n');
        assert(split_lines(text) == seq![text]);
        assert(seq![text].drop_first() =~= Seq::<Seq<char>>::empty());
        assert(spec_parse_edges(Seq::<Seq<char>>::empty(), m) == Ok::<
            Map<usize, TextNode>,
            GraffError,
        >(m));
        assert(spec_parse_edges(split_lines(text), m) == Ok::<Map<usize, TextNode>, GraffError>(
            m));
    } else {
        let rest = es.drop_first();
        assert(forall|i: int| 0 <= i < rest.len() ==> rest[i] == es[i + 1]);
        assert(key_seq(rest) =~= key_seq(es).drop_first());
        assert(key_seq(rest).no_duplicates()) by {
            assert(forall|i: int| 0 <= i < key_seq(rest).len() ==> key_seq(rest)[i] == key_seq(
                es)[i + 1]);
        }
        assert(entries_text_ok(rest));
        let k0 = es[0].0;
        let edges0 = es[0].1.edges;
        lemma_ser_edges_front(es);
        assert(spec_ser_edges(es) =~= spec_edge_lines(k0, edges0) + spec_ser_edges(rest));
        lemma_split_edge_lines(k0, edges0, spec_ser_edges(rest));
        lemma_parse_edge_group(k0, edges0, m);
        let m1 = m.insert(k0, (NodeView { value: m[k0].value, edges: m[k0].edges + edges0 }));
        lemma_parse_edges_concat(edge_bodies(k0, edges0), split_lines(spec_ser_edges(rest)), m,
            m1);
        assert(!key_seq(rest).contains(k0)) by {
            if key_seq(rest).contains(k0) {
                let i = choose|i: int| 0 <= i < key_seq(rest).len() && key_seq(rest)[i] == k0;
                assert(key_seq(es)[i + 1] == k0);
                assert(key_seq(es)[0] == k0);
            }
        }
        lemma_parse_ser_edges_rt(rest, m1);
        let r = spec_parse_edges(split_lines(spec_ser_edges(es)), m)->Ok_0;
        assert(r.dom() =~= m.dom());
        assert forall|i: int|
            0 <= i < es.len() implies r[(#[trigger] es[i]).0] == (NodeView {
            value: m[es[i].0].value,
            edges: m[es[i].0].edges + es[i].1.edges,
        }) by {
            assert(key_seq(es)[0] == k0);
            if i == 0 {
                assert(!key_seq(rest).contains(k0));
                assert(r[k0] == m1[k0]);
            } else {
                assert(es[i] == rest[i - 1]);
                assert(key_seq(es)[i] == es[i].0);
                assert(es[i].0 != k0);
                assert(m1[es[i].0] == m[es[i].0]);
            }
        }
        assert forall|k: usize|
            m.dom().contains(k) && !key_seq(es).contains(k) implies r[k] == m[k] by {
            assert(key_seq(es)[0] == k0);
            assert(k != k0);
            assert(!key_seq(rest).contains(k)) by {
                if key_seq(rest).contains(k) {
                    let i = choose|i: int| 0 <= i < key_seq(rest).len() && key_seq(rest)[i] == k;
                    assert(key_seq(es)[i + 1] == k);
                }
            }
            assert(m1[k] == m[k]);
        }
    }
}

/// Law (round trip): deserializing a serialized well-formed graph
/// succeeds and rebuilds exactly the same graph: same indices, same
/// payloads, each node's edges in the same order. Node payloads must be
/// non-empty and newline-free, edge payloads newline-free and `#`-free;
/// outside those bounds the text format cannot carry the payload.
pub proof fn lemma_round_trip(es: Seq<(usize, TextNode)>)
    requires
        sorted_keys(key_seq(es)),
        entries_text_ok(es),
    ensures
        spec_deserialize(spec_serialize(es)) == Ok::<Map<usize, TextNode>, GraffError>(
            entries_to_map(es)),
{
    crate::model::lemma_sorted_keys_no_duplicates(key_seq(es));
    let text = spec_serialize(es);
    let n = spec_ser_nodes(es);
    let e = spec_ser_edges(es);
    let a = n + seq!['#'];
    let b = seq!['\n'] + e;
    assert(text =~= a + b);
    lemma_ser_edges_avoids_hash(es);
    assert(avoids(b, '#')) by {
        assert(forall|i: int| 1 <= i < b.len() ==> b[i] == e[i - 1]);
    }
    lemma_divider_append(a, b);
    assert(divider_pos(a) == a.len()) by {
        assert(a.last() == '#');
    }
    assert(divider_pos(text) == n.len() + 1);
    assert(text.subrange(0, n.len() as int + 1) =~= a);
    assert(text.subrange(n.len() as int + 1, text.len() as int) =~= b);
    lemma_parse_ser_nodes_rt(es, Map::empty());
    assert(a == spec_ser_nodes(es) + seq!['#']);
    let m0 = spec_parse_nodes(split_lines(spec_ser_nodes(es) + seq!['#']), Map::empty())->Ok_0;
    // the edge section opens with the newline that follows the divider
    assert(b =~= Seq::<char>::empty() + seq!['\n'] + e);
    lemma_split_prepend(Seq::<char>::empty(), e);
    assert(split_lines(b) == seq![Seq::<char>::empty()] + split_lines(e));
    assert forall|i: int| 0 <= i < es.len() implies m0.dom().contains((#[trigger] es[i]).0) by {
        assert(key_seq(es)[i] == es[i].0);
        assert(key_seq(es).contains(es[i].0));
    }
    lemma_parse_ser_edges_rt(es, m0);
    let r = spec_parse_edges(split_lines(e), m0)->Ok_0;
    assert(spec_parse_edges(split_lines(b), m0) == Ok::<Map<usize, TextNode>, GraffError>(r)) by {
        assert(split_lines(b).drop_first() =~= split_lines(e));
        assert(split_lines(b)[0].len() == 0);
        assert(split_lines(b).len() > 0);
    }
    lemma_entries_to_map(es);
    assert(r =~= entries_to_map(es)) by {
        let etm = entries_to_map(es);
        assert forall|k: usize| r.dom().contains(k) implies etm.dom().contains(k) by {
            assert(m0.dom().contains(k));
            assert(key_seq(es).contains(k));
            let i = choose|i: int| 0 <= i < key_seq(es).len() && key_seq(es)[i] == k;
            assert(es[i].0 == k);
        }
        assert forall|k: usize| etm.dom().contains(k) implies r.dom().contains(k) by {
            let i = choose|i: int| 0 <= i < es.len() && (#[trigger] es[i]).0 == k;
            assert(key_seq(es)[i] == k);
        }
        assert forall|k: usize| r.dom().contains(k) implies r[k] == etm[k] by {
            assert(m0.dom().contains(k));
            assert(key_seq(es).contains(k));
            let j = choose|j: int| 0 <= j < key_seq(es).len() && key_seq(es)[j] == k;
            assert(es[j].0 == k);
            let i = choose|i: int| 0 <= i < es.len() && (#[trigger] es[i]).0 == k;
            assert(key_seq(es)[i] == k);
            assert(m0[k] == (NodeView {
                value: es[i].1.value,
                edges: Seq::<RibView<Seq<char>>>::empty(),
            }));
            assert(etm[k] == es[i].1);
            assert(r[k] == (NodeView {
                value: m0[k].value,
                edges: m0[k].edges + es[i].1.edges,
            }));
            assert(m0[k].edges + es[i].1.edges =~= es[i].1.edges);
            assert(r[k] =~= etm[k]);
        }
    }
}

/// Law (round trip, at the graph level): for a well-formed graph whose
/// payloads the format carries, deserializing its serialization yields
/// exactly its own map.
pub proof fn lemma_round_trip_graph(g: DirectionalGraff<String, String>)
    requires
        g.wf(),
        entries_text_ok(g.entry_seq()),
    ensures
        spec_deserialize(spec_serialize(g.entry_seq())) == Ok::<Map<usize, TextNode>, GraffError>(
            g@),
{
    lemma_round_trip(g.entry_seq());
}

} // verus!
