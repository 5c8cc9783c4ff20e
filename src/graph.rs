//! The alpha-beta rook's graph: a symmetric, irreflexive adjacency relation
//! over the `n * m` cells of a grid, built from the row and column cliques and
//! then rewired one unordered pair at a time.

use crate::edge_list::{edge_list, lemma_edge_list_empty};
use crate::grid::{cell, in_line, lemma_cell, lemma_cell_of, rook_adjacent, same_line};
use crate::probability::Probability;
use rand::rngs::ThreadRng;
use vstd::prelude::*;

verus! {

/// `adj` is a symmetric, irreflexive `size` by `size` boolean matrix.
pub open spec fn is_simple_relation(adj: Seq<Seq<bool>>, size: nat) -> bool {
    &&& adj.len() == size
    &&& forall|u: int| 0 <= u < size ==> (#[trigger] adj[u]).len() == size
    &&& forall|u: int, v: int| 0 <= u < size && 0 <= v < size ==> #[trigger] adj[u][v] == adj[v][u]
    &&& forall|u: int| 0 <= u < size ==> !(#[trigger] adj[u][u])
}

/// What one trial does to a pair: a line pair loses its edge when the trial
/// succeeds, a cross pair gains one.
pub open spec fn rewired(line: bool, before: bool, trial: bool) -> bool {
    if line {
        before && !trial
    } else {
        before || trial
    }
}

/// What holds of a pair after rewiring, whatever the draws: a line pair can
/// only lose its edge and a cross pair can only gain one, a chance of zero
/// changes nothing and a chance of one always acts.
pub open spec fn rewire_outcome(
    line: bool,
    before: bool,
    after: bool,
    alpha: Probability,
    beta: Probability,
) -> bool {
    if line {
        &&& after ==> before
        &&& beta.is_never() ==> after == before
        &&& beta.is_always() ==> !after
    } else {
        &&& before ==> after
        &&& alpha.is_never() ==> after == before
        &&& alpha.is_always() ==> after
    }
}

/// A rook's graph on an `n` by `m` grid with random rewiring.
pub struct AlphaBetaRookGraph {
    n: usize,
    m: usize,
    alpha: Probability,
    beta: Probability,
    adj_matrix: Vec<Vec<bool>>,
}

impl AlphaBetaRookGraph {
    /// The number of rows.
    pub closed spec fn rows(&self) -> nat {
        self.n as nat
    }

    /// The number of columns.
    pub closed spec fn cols(&self) -> nat {
        self.m as nat
    }

    /// The chance that a cross pair gains an edge.
    pub closed spec fn add_chance(&self) -> Probability {
        self.alpha
    }

    /// The chance that a line pair loses its edge.
    pub closed spec fn remove_chance(&self) -> Probability {
        self.beta
    }

    /// The number of vertices.
    pub open spec fn size(&self) -> nat {
        self.rows() * self.cols()
    }

    /// The adjacency matrix.
    pub closed spec fn view(&self) -> Seq<Seq<bool>> {
        Seq::new(self.adj_matrix@.len(), |i: int| self.adj_matrix@[i]@)
    }

    pub closed spec fn inv(&self) -> bool {
        &&& self.n * self.m <= usize::MAX
        &&& self.adj_matrix@.len() == self.n * self.m
        &&& self.alpha.wf()
        &&& self.beta.wf()
    }

    /// The graph is well formed: its relation is simple over its vertices.
    pub open spec fn wf(&self) -> bool {
        &&& self.inv()
        &&& self.size() <= usize::MAX
        &&& self.add_chance().wf()
        &&& self.remove_chance().wf()
        &&& is_simple_relation(self@, self.size())
    }

    /// Whether `u` and `v` share a row or a column of this grid.
    pub open spec fn line_pair(&self, u: int, v: int) -> bool {
        same_line(self.cols() as int, u, v)
    }

    proof fn lemma_inv(&self)
        requires
            self.inv(),
        ensures
            self.size() == self.n * self.m,
            self.add_chance().wf(),
            self.remove_chance().wf(),
            self@.len() == self.adj_matrix@.len(),
            forall|i: int| 0 <= i < self@.len() ==> #[trigger] self@[i] == self.adj_matrix@[i]@,
    {
    }

    /// A graph on `n` by `m` cells with no edges yet.
    fn empty(n: usize, m: usize, alpha: Probability, beta: Probability) -> (r: Self)
        requires
            n * m <= usize::MAX,
            alpha.wf(),
            beta.wf(),
        ensures
            r.wf(),
            r.rows() == n,
            r.cols() == m,
            r.add_chance() == alpha,
            r.remove_chance() == beta,
            forall|u: int, v: int| 0 <= u < r.size() && 0 <= v < r.size() ==> !#[trigger] r@[u][v],
    {
        let size = n * m;
        let mut adj_matrix: Vec<Vec<bool>> = Vec::new();
        let mut i: usize = 0;
        while i < size
            invariant
                i <= size,
                adj_matrix@.len() == i,
                forall|a: int| 0 <= a < i ==> (#[trigger] adj_matrix@[a])@.len() == size,
                forall|a: int, b: int|
                    0 <= a < i && 0 <= b < size ==> !#[trigger] adj_matrix@[a]@[b],
            decreases size - i,
        {
            let mut row: Vec<bool> = Vec::new();
            let mut j: usize = 0;
            while j < size
                invariant
                    j <= size,
                    row@.len() == j,
                    forall|b: int| 0 <= b < j ==> !#[trigger] row@[b],
                decreases size - j,
            {
                row.push(false);
                j += 1;
            }
            adj_matrix.push(row);
            i += 1;
        }
        let r = AlphaBetaRookGraph { n, m, alpha, beta, adj_matrix };
        proof {
            r.lemma_inv();
        }
        r
    }

    /// Sets the pair `u`, `v` to `val` in both directions.
    fn set_pair(&mut self, u: usize, v: usize, val: bool)
        requires
            old(self).wf(),
            u < old(self).size(),
            v < old(self).size(),
            u != v,
        ensures
            final(self).wf(),
            final(self).rows() == old(self).rows(),
            final(self).cols() == old(self).cols(),
            final(self).add_chance() == old(self).add_chance(),
            final(self).remove_chance() == old(self).remove_chance(),
            final(self).size() == old(self).size(),
            forall|a: int, b: int|
                0 <= a < old(self).size() && 0 <= b < old(self).size() ==> #[trigger] final(self)@[a][b]
                    == if (a == u && b == v) || (a == v && b == u) {
                    val
                } else {
                    old(self)@[a][b]
                },
    {
        let ghost before = self@;
        let ghost size = self.size();
        proof {
            self.lemma_inv();
            assert(self@[u as int].len() == self.size());
            assert(self@[v as int].len() == self.size());
        }
        self.adj_matrix[u][v] = val;
        self.adj_matrix[v][u] = val;
        proof {
            self.lemma_inv();
            assert forall|a: int| 0 <= a < size implies #[trigger] self@[a] == if a == u {
                before[a].update(v as int, val)
            } else if a == v {
                before[a].update(u as int, val)
            } else {
                before[a]
            } by {}
            assert forall|a: int, b: int| 0 <= a < size && 0 <= b < size implies #[trigger] self@[a][b]
                == if (a == u && b == v) || (a == v && b == u) {
                val
            } else {
                before[a][b]
            } by {}
        }
    }

    /// Connects every pair of distinct vertices that share a row or a column;
    /// every other pair keeps its value. Each row is made a clique, then each
    /// column.
    pub fn generate_cliques(&mut self)
        requires
            old(self).wf(),
        ensures
            final(self).wf(),
            final(self).rows() == old(self).rows(),
            final(self).cols() == old(self).cols(),
            final(self).add_chance() == old(self).add_chance(),
            final(self).remove_chance() == old(self).remove_chance(),
            forall|u: int, v: int|
                0 <= u < old(self).size() && 0 <= v < old(self).size() ==> #[trigger] final(self)@[u][v]
                    == (old(self)@[u][v] || rook_adjacent(old(self).cols() as int, u, v)),
    {
        let ghost before = self@;
        let n = self.n;
        let m = self.m;
        let mut i: usize = 0;
        while i < n
            invariant
                self.wf(),
                self.rows() == old(self).rows(),
                self.cols() == old(self).cols(),
                self.add_chance() == old(self).add_chance(),
                self.remove_chance() == old(self).remove_chance(),
                n == self.rows(),
                m == self.cols(),
                before == old(self)@,
                forall|a: int, b: int|
                    0 <= a < self.size() && 0 <= b < self.size() ==> (before[a][b]
                        ==> #[trigger] self@[a][b]) && (self@[a][b] ==> before[a][b]
                        || rook_adjacent(m as int, a, b)),
                i <= n,
                forall|r: int, c1: int, c2: int|
                    0 <= r < i && 0 <= c1 < c2 < m ==> #[trigger] self@[cell(m as int, r, c1)][cell(
                        m as int,
                        r,
                        c2,
                    )],
            decreases n - i,
        {
            let mut j: usize = 0;
            while j < m
                invariant
                    self.wf(),
                    self.rows() == old(self).rows(),
                    self.cols() == old(self).cols(),
                    self.add_chance() == old(self).add_chance(),
                    self.remove_chance() == old(self).remove_chance(),
                    n == self.rows(),
                    m == self.cols(),
                    before == old(self)@,
                    forall|a: int, b: int|
                        0 <= a < self.size() && 0 <= b < self.size() ==> (before[a][b]
                            ==> #[trigger] self@[a][b]) && (self@[a][b] ==> before[a][b]
                            || rook_adjacent(m as int, a, b)),
                    i < n,
                    j <= m,
                    forall|r: int, c1: int, c2: int|
                        0 <= c1 < c2 < m && (0 <= r < i || (r == i && c1 < j)) ==> #[trigger] self@[cell(
                            m as int,
                            r,
                            c1,
                        )][cell(m as int, r, c2)],
                decreases m - j,
            {
                let mut k: usize = j + 1;
                while k < m
                    invariant
                        self.wf(),
                        self.rows() == old(self).rows(),
                        self.cols() == old(self).cols(),
                        self.add_chance() == old(self).add_chance(),
                        self.remove_chance() == old(self).remove_chance(),
                        n == self.rows(),
                        m == self.cols(),
                        before == old(self)@,
                        forall|a: int, b: int|
                            0 <= a < self.size() && 0 <= b < self.size() ==> (before[a][b]
                                ==> #[trigger] self@[a][b]) && (self@[a][b] ==> before[a][b]
                                || rook_adjacent(m as int, a, b)),
                        i < n,
                        j < k <= m,
                        forall|r: int, c1: int, c2: int|
                            0 <= c1 < c2 < m && (0 <= r < i || (r == i && (c1 < j || (c1 == j && c2
                                < k)))) ==> #[trigger] self@[cell(m as int, r, c1)][cell(
                                m as int,
                                r,
                                c2,
                            )],
                    decreases m - k,
                {
                    proof {
                        self.lemma_inv();
                        lemma_cell(n as int, m as int, i as int, j as int);
                        lemma_cell(n as int, m as int, i as int, k as int);
                    }
                    let ghost prev = self@;
                    self.set_pair(i * m + j, i * m + k, true);
                    proof {
                        assert forall|r: int, c1: int, c2: int|
                            0 <= c1 < c2 < m && (0 <= r < i || (r == i && (c1 < j || (c1 == j && c2
                                <= k)))) implies #[trigger] self@[cell(m as int, r, c1)][cell(
                            m as int,
                            r,
                            c2,
                        )] by {
                            lemma_cell(n as int, m as int, r, c1);
                            lemma_cell(n as int, m as int, r, c2);
                        }
                    }
                    k += 1;
                }
                j += 1;
            }
            i += 1;
        }
        let mut j: usize = 0;
        while j < m
            invariant
                self.wf(),
                self.rows() == old(self).rows(),
                self.cols() == old(self).cols(),
                self.add_chance() == old(self).add_chance(),
                self.remove_chance() == old(self).remove_chance(),
                n == self.rows(),
                m == self.cols(),
                before == old(self)@,
                forall|a: int, b: int|
                    0 <= a < self.size() && 0 <= b < self.size() ==> (before[a][b]
                        ==> #[trigger] self@[a][b]) && (self@[a][b] ==> before[a][b]
                        || rook_adjacent(m as int, a, b)),
                forall|r: int, c1: int, c2: int|
                    0 <= r < n && 0 <= c1 < c2 < m ==> #[trigger] self@[cell(m as int, r, c1)][cell(
                        m as int,
                        r,
                        c2,
                    )],
                j <= m,
                forall|c: int, r1: int, r2: int|
                    0 <= c < j && 0 <= r1 < r2 < n ==> #[trigger] self@[cell(m as int, r1, c)][cell(
                        m as int,
                        r2,
                        c,
                    )],
            decreases m - j,
        {
            let mut i: usize = 0;
            while i < n
                invariant
                    self.wf(),
                    self.rows() == old(self).rows(),
                    self.cols() == old(self).cols(),
                    self.add_chance() == old(self).add_chance(),
                    self.remove_chance() == old(self).remove_chance(),
                    n == self.rows(),
                    m == self.cols(),
                    before == old(self)@,
                    forall|a: int, b: int|
                        0 <= a < self.size() && 0 <= b < self.size() ==> (before[a][b]
                            ==> #[trigger] self@[a][b]) && (self@[a][b] ==> before[a][b]
                            || rook_adjacent(m as int, a, b)),
                    forall|r: int, c1: int, c2: int|
                        0 <= r < n && 0 <= c1 < c2 < m ==> #[trigger] self@[cell(m as int, r, c1)][cell(
                            m as int,
                            r,
                            c2,
                        )],
                    j < m,
                    i <= n,
                    forall|c: int, r1: int, r2: int|
                        0 <= r1 < r2 < n && (0 <= c < j || (c == j && r1 < i)) ==> #[trigger] self@[cell(
                            m as int,
                            r1,
                            c,
                        )][cell(m as int, r2, c)],
                decreases n - i,
            {
                let mut k: usize = i + 1;
                while k < n
                    invariant
                        self.wf(),
                        self.rows() == old(self).rows(),
                        self.cols() == old(self).cols(),
                        self.add_chance() == old(self).add_chance(),
                        self.remove_chance() == old(self).remove_chance(),
                        n == self.rows(),
                        m == self.cols(),
                        before == old(self)@,
                        forall|a: int, b: int|
                            0 <= a < self.size() && 0 <= b < self.size() ==> (before[a][b]
                                ==> #[trigger] self@[a][b]) && (self@[a][b] ==> before[a][b]
                                || rook_adjacent(m as int, a, b)),
                        forall|r: int, c1: int, c2: int|
                            0 <= r < n && 0 <= c1 < c2 < m ==> #[trigger] self@[cell(m as int, r, c1)][cell(
                                m as int,
                                r,
                                c2,
                            )],
                        j < m,
                        i < k <= n,
                        forall|c: int, r1: int, r2: int|
                            0 <= r1 < r2 < n && (0 <= c < j || (c == j && (r1 < i || (r1 == i && r2
                                < k)))) ==> #[trigger] self@[cell(m as int, r1, c)][cell(
                                m as int,
                                r2,
                                c,
                            )],
                    decreases n - k,
                {
                    proof {
                        self.lemma_inv();
                        lemma_cell(n as int, m as int, i as int, j as int);
                        lemma_cell(n as int, m as int, k as int, j as int);
                    }
                    let ghost prev = self@;
                    self.set_pair(i * m + j, k * m + j, true);
                    proof {
                        assert forall|r: int, c1: int, c2: int|
                            0 <= r < n && 0 <= c1 < c2 < m implies #[trigger] self@[cell(
                            m as int,
                            r,
                            c1,
                        )][cell(m as int, r, c2)] by {
                            lemma_cell(n as int, m as int, r, c1);
                            lemma_cell(n as int, m as int, r, c2);
                            assert(prev[cell(m as int, r, c1)][cell(m as int, r, c2)]);
                        }
                        assert forall|c: int, r1: int, r2: int|
                            0 <= r1 < r2 < n && (0 <= c < j || (c == j && (r1 < i || (r1 == i && r2
                                <= k)))) implies #[trigger] self@[cell(m as int, r1, c)][cell(
                            m as int,
                            r2,
                            c,
                        )] by {
                            lemma_cell(n as int, m as int, r1, c);
                            lemma_cell(n as int, m as int, r2, c);
                        }
                    }
                    k += 1;
                }
                i += 1;
            }
            j += 1;
        }
        proof {
            let size = self.size();
            assert forall|u: int, v: int| 0 <= u < size && 0 <= v < size implies #[trigger] self@[u][v]
                == (before[u][v] || rook_adjacent(m as int, u, v)) by {
                if rook_adjacent(m as int, u, v) {
                    lemma_cell_of(n as int, m as int, u);
                    lemma_cell_of(n as int, m as int, v);
                    let (ru, cu, rv, cv) = (u / m as int, u % m as int, v / m as int, v % m as int);
                    if ru == rv {
                        if cu < cv {
                            assert(self@[cell(m as int, ru, cu)][cell(m as int, ru, cv)]);
                        } else {
                            assert(self@[cell(m as int, ru, cv)][cell(m as int, ru, cu)]);
                            assert(self@[v][u] == self@[u][v]);
                        }
                    } else {
                        if ru < rv {
                            assert(self@[cell(m as int, ru, cu)][cell(m as int, rv, cu)]);
                        } else {
                            assert(self@[cell(m as int, rv, cu)][cell(m as int, ru, cu)]);
                            assert(self@[v][u] == self@[u][v]);
                        }
                    }
                }
            }
        }
    }

    /// Applies the outcome of one trial to the pair `u`, `v`: on success a
    /// line pair loses its edge and a cross pair gains one; on failure
    /// nothing changes.
    pub fn apply_trial(&mut self, u: usize, v: usize, trial: bool)
        requires
            old(self).wf(),
            u < old(self).size(),
            v < old(self).size(),
            u != v,
        ensures
            final(self).wf(),
            final(self).rows() == old(self).rows(),
            final(self).cols() == old(self).cols(),
            final(self).add_chance() == old(self).add_chance(),
            final(self).remove_chance() == old(self).remove_chance(),
            forall|a: int, b: int|
                0 <= a < old(self).size() && 0 <= b < old(self).size() ==> #[trigger] final(self)@[a][b]
                    == if (a == u && b == v) || (a == v && b == u) {
                    rewired(old(self).line_pair(u as int, v as int), old(self)@[a][b], trial)
                } else {
                    old(self)@[a][b]
                },
    {
        proof {
            self.lemma_inv();
            assert(self.m > 0) by (nonlinear_arith)
                requires
                    u < self.size(),
                    self.size() == self.rows() * self.m,
            ;
        }
        if trial {
            if in_line(self.m, u, v) {
                self.set_pair(u, v, false);
            } else {
                self.set_pair(u, v, true);
            }
        }
    }

    /// Visits every unordered pair once and draws one trial for it: with the
    /// removal chance for a line pair, with the adding chance for a cross
    /// pair.
    pub fn modify_edges(&mut self)
        requires
            old(self).wf(),
        ensures
            final(self).wf(),
            final(self).rows() == old(self).rows(),
            final(self).cols() == old(self).cols(),
            final(self).add_chance() == old(self).add_chance(),
            final(self).remove_chance() == old(self).remove_chance(),
            forall|u: int, v: int|
                0 <= u < old(self).size() && 0 <= v < old(self).size() && u != v ==> rewire_outcome(
                    old(self).line_pair(u, v),
                    old(self)@[u][v],
                    #[trigger] final(self)@[u][v],
                    old(self).add_chance(),
                    old(self).remove_chance(),
                ),
    {
        let mut rng = rand::thread_rng();
        let ghost before = self@;
        let m = self.m;
        let size = self.n * self.m;
        proof {
            self.lemma_inv();
        }
        let mut i: usize = 0;
        while i < size
            invariant
                self.wf(),
                self.rows() == old(self).rows(),
                self.cols() == old(self).cols(),
                self.add_chance() == old(self).add_chance(),
                self.remove_chance() == old(self).remove_chance(),
                m == self.cols(),
                size == self.size(),
                before == old(self)@,
                i <= size,
                forall|a: int, b: int|
                    0 <= a < b < size ==> if a < i {
                        rewire_outcome(
                            same_line(m as int, a, b),
                            before[a][b],
                            #[trigger] self@[a][b],
                            self.add_chance(),
                            self.remove_chance(),
                        )
                    } else {
                        self@[a][b] == before[a][b]
                    },
            decreases size - i,
        {
            proof {
                self.lemma_inv();
                assert(m > 0) by (nonlinear_arith)
                    requires
                        i < size,
                        size == self.rows() * m,
                ;
            }
            let mut j: usize = i + 1;
            while j < size
                invariant
                    self.wf(),
                    self.rows() == old(self).rows(),
                    self.cols() == old(self).cols(),
                    self.add_chance() == old(self).add_chance(),
                    self.remove_chance() == old(self).remove_chance(),
                    m == self.cols(),
                    m > 0,
                    size == self.size(),
                    before == old(self)@,
                    i < size,
                    i < j <= size,
                    forall|a: int, b: int|
                        0 <= a < b < size ==> if a < i || (a == i && b < j) {
                            rewire_outcome(
                                same_line(m as int, a, b),
                                before[a][b],
                                #[trigger] self@[a][b],
                                self.add_chance(),
                                self.remove_chance(),
                            )
                        } else {
                            self@[a][b] == before[a][b]
                        },
                decreases size - j,
            {
                proof {
                    self.lemma_inv();
                }
                let trial = if in_line(m, i, j) {
                    self.beta.trial(&mut rng)
                } else {
                    self.alpha.trial(&mut rng)
                };
                self.apply_trial(i, j, trial);
                j += 1;
            }
            i += 1;
        }
        proof {
            assert forall|u: int, v: int|
                0 <= u < size && 0 <= v < size && u != v implies rewire_outcome(
                old(self).line_pair(u, v),
                before[u][v],
                #[trigger] self@[u][v],
                self.add_chance(),
                self.remove_chance(),
            ) by {
                if u > v {
                    assert(self@[u][v] == self@[v][u]);
                    assert(before[u][v] == before[v][u]);
                    assert(self@[v][u] == self@[v][u]);
                }
            }
        }
    }

    /// Builds the rook's graph of an `n` by `m` grid and rewires it: each line
    /// pair loses its edge with chance `beta`, each cross pair gains one with
    /// chance `alpha`.
    pub fn new(n: usize, m: usize, alpha: Probability, beta: Probability) -> (r: Self)
        requires
            n * m <= usize::MAX,
            alpha.wf(),
            beta.wf(),
        ensures
            r.wf(),
            r.rows() == n,
            r.cols() == m,
            r.add_chance() == alpha,
            r.remove_chance() == beta,
            forall|u: int, v: int|
                0 <= u < r.size() && 0 <= v < r.size() && u != v ==> rewire_outcome(
                    r.line_pair(u, v),
                    r.line_pair(u, v),
                    #[trigger] r@[u][v],
                    alpha,
                    beta,
                ),
            alpha.is_never() && beta.is_never() ==> forall|u: int, v: int|
                0 <= u < r.size() && 0 <= v < r.size() ==> #[trigger] r@[u][v] == rook_adjacent(
                    m as int,
                    u,
                    v,
                ),
            alpha.is_never() && beta.is_always() ==> forall|u: int, v: int|
                0 <= u < r.size() && 0 <= v < r.size() ==> !#[trigger] r@[u][v],
            alpha.is_never() && beta.is_always() ==> edge_list(r@, r.size() as int).len() == 0,
            alpha.is_always() && beta.is_never() ==> forall|u: int, v: int|
                0 <= u < r.size() && 0 <= v < r.size() ==> #[trigger] r@[u][v] == (u != v),
    {
        let mut graph = AlphaBetaRookGraph::empty(n, m, alpha, beta);
        let ghost empty = graph@;
        graph.generate_cliques();
        let ghost built = graph@;
        graph.modify_edges();
        proof {
            assert forall|u: int, v: int|
                0 <= u < graph.size() && 0 <= v < graph.size() && u != v implies rewire_outcome(
                graph.line_pair(u, v),
                graph.line_pair(u, v),
                #[trigger] graph@[u][v],
                alpha,
                beta,
            ) by {
                assert(built[u][v] == (empty[u][v] || rook_adjacent(m as int, u, v)));
            }
            assert forall|u: int| 0 <= u < graph.size() implies !#[trigger] graph@[u][u] by {}
            if alpha.is_never() && beta.is_always() {
                lemma_edge_list_empty(graph@, graph.size() as int);
            }
        }
        graph
    }

    /// The number of rows.
    pub fn n(&self) -> (r: usize)
        ensures
            r == self.rows(),
    {
        self.n
    }

    /// The number of columns.
    pub fn m(&self) -> (r: usize)
        ensures
            r == self.cols(),
    {
        self.m
    }

    /// The number of vertices, `n * m`.
    pub fn vertex_count(&self) -> (r: usize)
        requires
            self.wf(),
        ensures
            r == self.size(),
    {
        proof {
            self.lemma_inv();
        }
        self.n * self.m
    }

    /// The chance that a cross pair gains an edge.
    pub fn alpha(&self) -> (r: Probability)
        ensures
            r == self.add_chance(),
    {
        self.alpha
    }

    /// The chance that a line pair loses its edge.
    pub fn beta(&self) -> (r: Probability)
        ensures
            r == self.remove_chance(),
    {
        self.beta
    }

    /// Whether `u` and `v` are adjacent.
    pub fn is_adjacent(&self, u: usize, v: usize) -> (r: bool)
        requires
            self.wf(),
            u < self.size(),
            v < self.size(),
        ensures
            r == self@[u as int][v as int],
    {
        proof {
            self.lemma_inv();
            assert(self@[u as int].len() == self.size());
        }
        self.adj_matrix[u][v]
    }
}

} // verus!
