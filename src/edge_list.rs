//! The edge list of a graph and its plain-text layout:
//! a header `p tww <vertices> <edges>`, then one line `<u> <v>` per edge,
//! with 1-based vertex numbers, `u < v`, in ascending order.

use crate::graph::AlphaBetaRookGraph;
use vstd::prelude::*;

verus! {

/// The edges `(u + 1, v + 1)` with `u < v < end`, in ascending `v`.
pub open spec fn row_edges(adj: Seq<Seq<bool>>, u: int, end: int) -> Seq<(int, int)>
    decreases end - u,
{
    if end <= u + 1 {
        seq![]
    } else {
        row_edges(adj, u, end - 1) + if adj[u][end - 1] {
            seq![(u + 1, end)]
        } else {
            seq![]
        }
    }
}

/// The edges whose smaller endpoint is below `u`, ascending by the first
/// endpoint and then by the second.
pub open spec fn edges_below(adj: Seq<Seq<bool>>, size: int, u: int) -> Seq<(int, int)>
    decreases u,
{
    if u <= 0 {
        seq![]
    } else {
        edges_below(adj, size, u - 1) + row_edges(adj, u - 1, size)
    }
}

/// Every edge of a `size`-vertex relation once, 1-based, in ascending order.
pub open spec fn edge_list(adj: Seq<Seq<bool>>, size: int) -> Seq<(int, int)> {
    edges_below(adj, size, size)
}

/// The decimal digits of `n`, in ASCII.
pub open spec fn decimal(n: nat) -> Seq<u8>
    decreases n,
{
    if n < 10 {
        seq![(48 + n) as u8]
    } else {
        decimal(n / 10) + seq![(48 + n % 10) as u8]
    }
}

/// The line `<u> <v>` of one edge.
pub open spec fn edge_line(e: (int, int)) -> Seq<u8> {
    decimal(e.0 as nat) + seq![32u8] + decimal(e.1 as nat) + seq![10u8]
}

/// The lines of the edges `es`, in order.
pub open spec fn edge_lines(es: Seq<(int, int)>) -> Seq<u8>
    decreases es.len(),
{
    if es.len() == 0 {
        seq![]
    } else {
        edge_lines(es.drop_last()) + edge_line(es.last())
    }
}

/// The header line `p tww <n_vertices> <n_edges>`.
pub open spec fn header(n_vertices: nat, n_edges: nat) -> Seq<u8> {
    seq![112u8, 32u8, 116u8, 119u8, 119u8, 32u8] + decimal(n_vertices) + seq![32u8] + decimal(
        n_edges,
    ) + seq![10u8]
}

/// The whole text for `n_vertices` vertices and the edges `es`.
pub open spec fn edge_list_text(n_vertices: nat, es: Seq<(int, int)>) -> Seq<u8> {
    header(n_vertices, es.len()) + edge_lines(es)
}

/// The number of newline bytes in `s`.
pub open spec fn newline_count(s: Seq<u8>) -> nat
    decreases s.len(),
{
    if s.len() == 0 {
        0
    } else {
        newline_count(s.drop_last()) + if s.last() == 10u8 {
            1nat
        } else {
            0nat
        }
    }
}

proof fn lemma_newline_count_add(a: Seq<u8>, b: Seq<u8>)
    ensures
        newline_count(a + b) == newline_count(a) + newline_count(b),
    decreases b.len(),
{
    if b.len() > 0 {
        assert((a + b).drop_last() =~= a + b.drop_last());
        lemma_newline_count_add(a, b.drop_last());
    } else {
        assert(a + b =~= a);
    }
}

proof fn lemma_decimal_has_no_newline(n: nat)
    ensures
        newline_count(decimal(n)) == 0,
    decreases n,
{
    if n < 10 {
        lemma_single_newline((48 + n) as u8);
    } else {
        lemma_decimal_has_no_newline(n / 10);
        lemma_newline_count_add(decimal(n / 10), seq![(48 + n % 10) as u8]);
        lemma_single_newline((48 + n % 10) as u8);
    }
}

proof fn lemma_single_newline(c: u8)
    ensures
        newline_count(seq![c]) == if c == 10u8 {
            1nat
        } else {
            0nat
        },
{
    let s = seq![c];
    assert(s.drop_last() =~= Seq::<u8>::empty());
    assert(newline_count(Seq::<u8>::empty()) == 0);
    assert(s.last() == c);
}

proof fn lemma_edge_line_count(e: (int, int))
    ensures
        newline_count(edge_line(e)) == 1,
{
    let a = decimal(e.0 as nat);
    let b = decimal(e.1 as nat);
    lemma_decimal_has_no_newline(e.0 as nat);
    lemma_decimal_has_no_newline(e.1 as nat);
    lemma_single_newline(32u8);
    lemma_single_newline(10u8);
    lemma_newline_count_add(a, seq![32u8]);
    lemma_newline_count_add(a + seq![32u8], b);
    lemma_newline_count_add(a + seq![32u8] + b, seq![10u8]);
}

proof fn lemma_edge_lines_count(es: Seq<(int, int)>)
    ensures
        newline_count(edge_lines(es)) == es.len(),
    decreases es.len(),
{
    if es.len() > 0 {
        lemma_edge_lines_count(es.drop_last());
        lemma_edge_line_count(es.last());
        lemma_newline_count_add(edge_lines(es.drop_last()), edge_line(es.last()));
    }
}

/// The text has one line per edge after its header line: it holds one more
/// newline than there are edges, and the header line is exactly the header.
pub proof fn lemma_text_line_count(n_vertices: nat, es: Seq<(int, int)>)
    ensures
        newline_count(edge_list_text(n_vertices, es)) == es.len() + 1,
        newline_count(header(n_vertices, es.len())) == 1,
        edge_list_text(n_vertices, es).take(header(n_vertices, es.len()).len() as int) == header(
            n_vertices,
            es.len(),
        ),
{
    let p = seq![112u8, 32u8, 116u8, 119u8, 119u8, 32u8];
    let a = decimal(n_vertices);
    let b = decimal(es.len());
    lemma_decimal_has_no_newline(n_vertices);
    lemma_decimal_has_no_newline(es.len());
    assert(newline_count(p) == 0) by {
        reveal_with_fuel(newline_count, 7);
    }
    lemma_single_newline(32u8);
    lemma_single_newline(10u8);
    lemma_newline_count_add(p, a);
    lemma_newline_count_add(p + a, seq![32u8]);
    lemma_newline_count_add(p + a + seq![32u8], b);
    lemma_newline_count_add(p + a + seq![32u8] + b, seq![10u8]);
    lemma_edge_lines_count(es);
    lemma_newline_count_add(header(n_vertices, es.len()), edge_lines(es));
    assert(edge_list_text(n_vertices, es).take(header(n_vertices, es.len()).len() as int)
        =~= header(n_vertices, es.len()));
}

proof fn lemma_row_edges_entries(adj: Seq<Seq<bool>>, u: int, end: int)
    requires
        0 <= u,
    ensures
        forall|k: int|
            0 <= k < row_edges(adj, u, end).len() ==> {
                let e = #[trigger] row_edges(adj, u, end)[k];
                &&& e.0 == u + 1
                &&& u + 1 < e.1 <= end
                &&& adj[e.0 - 1][e.1 - 1]
            },
        forall|k: int, l: int|
            0 <= k < l < row_edges(adj, u, end).len() ==> (#[trigger] row_edges(adj, u, end)[k]).1
                < (#[trigger] row_edges(adj, u, end)[l]).1,
    decreases end - u,
{
    if end > u + 1 {
        lemma_row_edges_entries(adj, u, end - 1);
        let left = row_edges(adj, u, end - 1);
        let all = row_edges(adj, u, end);
        assert forall|k: int| 0 <= k < all.len() implies {
            let e = #[trigger] all[k];
            &&& e.0 == u + 1
            &&& u + 1 < e.1 <= end
            &&& adj[e.0 - 1][e.1 - 1]
        } by {
            if k < left.len() {
                assert(all[k] == left[k]);
            } else {
                assert(all[k] == (u + 1, end));
            }
        }
        assert forall|k: int, l: int| 0 <= k < l < all.len() implies (#[trigger] all[k]).1 < (
        #[trigger] all[l]).1 by {
            assert(all[k] == left[k]);
            if l < left.len() {
                assert(all[l] == left[l]);
            } else {
                assert(all[l] == (u + 1, end));
            }
        }
    }
}

proof fn lemma_edges_below_entries(adj: Seq<Seq<bool>>, size: int, u: int)
    ensures
        forall|k: int|
            0 <= k < edges_below(adj, size, u).len() ==> {
                let e = #[trigger] edges_below(adj, size, u)[k];
                &&& 1 <= e.0 <= u
                &&& e.0 < e.1 <= size
                &&& adj[e.0 - 1][e.1 - 1]
            },
        forall|k: int, l: int|
            0 <= k < l < edges_below(adj, size, u).len() ==> {
                let a = #[trigger] edges_below(adj, size, u)[k];
                let b = #[trigger] edges_below(adj, size, u)[l];
                a.0 < b.0 || (a.0 == b.0 && a.1 < b.1)
            },
    decreases u,
{
    if u > 0 {
        lemma_edges_below_entries(adj, size, u - 1);
        lemma_row_edges_entries(adj, u - 1, size);
        let left = edges_below(adj, size, u - 1);
        let right = row_edges(adj, u - 1, size);
        assert forall|k: int| 0 <= k < edges_below(adj, size, u).len() implies {
            let e = #[trigger] edges_below(adj, size, u)[k];
            &&& 1 <= e.0 <= u
            &&& e.0 < e.1 <= size
            &&& adj[e.0 - 1][e.1 - 1]
        } by {
            if k >= left.len() {
                assert(edges_below(adj, size, u)[k] == right[k - left.len()]);
            } else {
                assert(edges_below(adj, size, u)[k] == left[k]);
            }
        }
        assert forall|k: int, l: int| 0 <= k < l < edges_below(adj, size, u).len() implies {
            let a = #[trigger] edges_below(adj, size, u)[k];
            let b = #[trigger] edges_below(adj, size, u)[l];
            a.0 < b.0 || (a.0 == b.0 && a.1 < b.1)
        } by {
            if l < left.len() {
                assert(edges_below(adj, size, u)[k] == left[k]);
                assert(edges_below(adj, size, u)[l] == left[l]);
            } else if k >= left.len() {
                assert(edges_below(adj, size, u)[k] == right[k - left.len()]);
                assert(edges_below(adj, size, u)[l] == right[l - left.len()]);
            } else {
                assert(edges_below(adj, size, u)[k] == left[k]);
                assert(edges_below(adj, size, u)[l] == right[l - left.len()]);
            }
        }
    }
}

proof fn lemma_row_edges_complete(adj: Seq<Seq<bool>>, u: int, end: int)
    requires
        0 <= u,
    ensures
        forall|v: int|
            u < v < end && #[trigger] adj[u][v] ==> row_edges(adj, u, end).contains((u + 1, v + 1)),
    decreases end - u,
{
    if end > u + 1 {
        lemma_row_edges_complete(adj, u, end - 1);
        let left = row_edges(adj, u, end - 1);
        let all = row_edges(adj, u, end);
        assert forall|v: int| u < v < end && #[trigger] adj[u][v] implies all.contains(
            (u + 1, v + 1),
        ) by {
            if v < end - 1 {
                let k = choose|k: int| 0 <= k < left.len() && left[k] == (u + 1, v + 1);
                assert(all[k] == left[k]);
            } else {
                assert(all[left.len() as int] == (u + 1, v + 1));
            }
        }
    }
}

proof fn lemma_edges_below_complete(adj: Seq<Seq<bool>>, size: int, u: int)
    ensures
        forall|a: int, b: int|
            0 <= a < u && a < b < size && #[trigger] adj[a][b] ==> edges_below(
                adj,
                size,
                u,
            ).contains((a + 1, b + 1)),
    decreases u,
{
    if u > 0 {
        lemma_edges_below_complete(adj, size, u - 1);
        lemma_row_edges_complete(adj, u - 1, size);
        let left = edges_below(adj, size, u - 1);
        let right = row_edges(adj, u - 1, size);
        let all = edges_below(adj, size, u);
        assert forall|a: int, b: int|
            0 <= a < u && a < b < size && #[trigger] adj[a][b] implies all.contains(
            (a + 1, b + 1),
        ) by {
            if a < u - 1 {
                let k = choose|k: int| 0 <= k < left.len() && left[k] == (a + 1, b + 1);
                assert(all[k] == left[k]);
            } else {
                let k = choose|k: int| 0 <= k < right.len() && right[k] == (a + 1, b + 1);
                assert(all[left.len() + k] == right[k]);
            }
        }
    }
}

/// Every listed edge `(a, b)` is an adjacent pair with `1 <= a < b <= size`
/// (so no vertex is listed with itself), every adjacent pair `u < v` is
/// listed as `(u + 1, v + 1)`, and the list is strictly ascending by the
/// first endpoint and then by the second, so no pair is listed twice.
pub proof fn lemma_edge_list_entries(adj: Seq<Seq<bool>>, size: int)
    ensures
        forall|u: int, v: int|
            0 <= u < v < size && #[trigger] adj[u][v] ==> edge_list(adj, size).contains(
                (u + 1, v + 1),
            ),
        forall|k: int|
            0 <= k < edge_list(adj, size).len() ==> {
                let e = #[trigger] edge_list(adj, size)[k];
                &&& 1 <= e.0 < e.1 <= size
                &&& adj[e.0 - 1][e.1 - 1]
            },
        forall|k: int, l: int|
            0 <= k < l < edge_list(adj, size).len() ==> {
                let a = #[trigger] edge_list(adj, size)[k];
                let b = #[trigger] edge_list(adj, size)[l];
                a.0 < b.0 || (a.0 == b.0 && a.1 < b.1)
            },
{
    lemma_edges_below_entries(adj, size, size);
    lemma_edges_below_complete(adj, size, size);
}

/// A relation without any adjacent pair lists no edge.
pub proof fn lemma_edge_list_empty(adj: Seq<Seq<bool>>, size: int)
    requires
        forall|u: int, v: int| 0 <= u < size && 0 <= v < size ==> !#[trigger] adj[u][v],
    ensures
        edge_list(adj, size).len() == 0,
{
    lemma_edge_list_entries(adj, size);
    if edge_list(adj, size).len() > 0 {
        let e = edge_list(adj, size)[0];
        assert(adj[e.0 - 1][e.1 - 1]);
    }
}

/// Two graphs with the same vertex count and the same relation have the same
/// text: the text depends on the relation alone, so writing one graph twice
/// gives identical bytes.
pub proof fn lemma_text_determined_by_relation(g: AlphaBetaRookGraph, h: AlphaBetaRookGraph)
    requires
        g.wf(),
        h.wf(),
        g.size() == h.size(),
        g@ == h@,
    ensures
        edge_list_text(g.size(), edge_list(g@, g.size() as int)) == edge_list_text(
            h.size(),
            edge_list(h@, h.size() as int),
        ),
{
}

/// Appends the decimal digits of `n` to `out`.
fn push_decimal(out: &mut Vec<u8>, n: usize)
    ensures
        final(out)@ == old(out)@ + decimal(n as nat),
    decreases n,
{
    if n >= 10 {
        push_decimal(out, n / 10);
        out.push((48 + n % 10) as u8);
        proof {
            assert(final(out)@ =~= old(out)@ + decimal(n as nat));
        }
    } else {
        out.push((48 + n) as u8);
        proof {
            assert(final(out)@ =~= old(out)@ + decimal(n as nat));
        }
    }
}

/// The text of the header and edge lines for `n_vertices` vertices and the
/// 1-based edges `edges`.
pub fn edge_list_bytes(n_vertices: usize, edges: &Vec<(usize, usize)>) -> (r: Vec<u8>)
    ensures
        r@ == edge_list_text(
            n_vertices as nat,
            edges@.map_values(|e: (usize, usize)| (e.0 as int, e.1 as int)),
        ),
{
    let ghost es = edges@.map_values(|e: (usize, usize)| (e.0 as int, e.1 as int));
    let mut out: Vec<u8> = Vec::new();
    out.push(112u8);
    out.push(32u8);
    out.push(116u8);
    out.push(119u8);
    out.push(119u8);
    out.push(32u8);
    push_decimal(&mut out, n_vertices);
    out.push(32u8);
    push_decimal(&mut out, edges.len());
    out.push(10u8);
    proof {
        assert(out@ =~= header(n_vertices as nat, es.len()));
        assert(es.take(0) =~= seq![]);
    }
    let ghost head = out@;
    let mut k: usize = 0;
    while k < edges.len()
        invariant
            k <= edges@.len(),
            es == edges@.map_values(|e: (usize, usize)| (e.0 as int, e.1 as int)),
            head == header(n_vertices as nat, es.len()),
            out@ == head + edge_lines(es.take(k as int)),
        decreases edges@.len() - k,
    {
        let (u, v) = edges[k];
        push_decimal(&mut out, u);
        out.push(32u8);
        push_decimal(&mut out, v);
        out.push(10u8);
        proof {
            assert(es.take(k + 1).drop_last() =~= es.take(k as int));
            assert(out@ =~= head + edge_lines(es.take(k + 1)));
        }
        k += 1;
    }
    proof {
        assert(es.take(k as int) =~= es);
    }
    out
}

impl AlphaBetaRookGraph {
    /// Every edge once as `(u + 1, v + 1)` with `u < v`, ascending by the
    /// first endpoint and then by the second.
    pub fn edges(&self) -> (r: Vec<(usize, usize)>)
        requires
            self.wf(),
        ensures
            r@.map_values(|e: (usize, usize)| (e.0 as int, e.1 as int)) == edge_list(
                self@,
                self.size() as int,
            ),
    {
        let size = self.vertex_count();
        let ghost adj = self@;
        let mut r: Vec<(usize, usize)> = Vec::new();
        let mut u: usize = 0;
        while u < size
            invariant
                self.wf(),
                size == self.size(),
                adj == self@,
                u <= size,
                r@.map_values(|e: (usize, usize)| (e.0 as int, e.1 as int)) == edges_below(
                    adj,
                    size as int,
                    u as int,
                ),
            decreases size - u,
        {
            let ghost start = r@.map_values(|e: (usize, usize)| (e.0 as int, e.1 as int));
            let mut v: usize = u + 1;
            while v < size
                invariant
                    self.wf(),
                    size == self.size(),
                    adj == self@,
                    u < v <= size,
                    start == edges_below(adj, size as int, u as int),
                    r@.map_values(|e: (usize, usize)| (e.0 as int, e.1 as int)) == start
                        + row_edges(adj, u as int, v as int),
                decreases size - v,
            {
                let ghost prev = r@;
                if self.is_adjacent(u, v) {
                    r.push((u + 1, v + 1));
                    proof {
                        assert(r@.map_values(|e: (usize, usize)| (e.0 as int, e.1 as int))
                            =~= prev.map_values(|e: (usize, usize)| (e.0 as int, e.1 as int)).push(
                            (u + 1, v + 1),
                        ));
                    }
                }
                proof {
                    assert(row_edges(adj, u as int, v + 1) == row_edges(adj, u as int, v as int)
                        + if adj[u as int][v as int] {
                        seq![(u + 1, v + 1)]
                    } else {
                        seq![]
                    });
                    assert(r@.map_values(|e: (usize, usize)| (e.0 as int, e.1 as int)) =~= start
                        + row_edges(adj, u as int, v + 1));
                }
                v += 1;
            }
            proof {
                assert(r@.map_values(|e: (usize, usize)| (e.0 as int, e.1 as int))
                    =~= edges_below(adj, size as int, u + 1));
            }
            u += 1;
        }
        r
    }

    /// The graph as edge-list text: the header with `n * m` vertices and the
    /// edge count, then every edge, 1-based, in ascending order.
    pub fn to_edge_list_bytes(&self) -> (r: Vec<u8>)
        requires
            self.wf(),
        ensures
            r@ == edge_list_text(self.size(), edge_list(self@, self.size() as int)),
    {
        let edges = self.edges();
        edge_list_bytes(self.vertex_count(), &edges)
    }
}

} // verus!
