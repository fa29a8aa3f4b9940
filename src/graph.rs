use crate::node::{cols_compatible, rows_compatible, PermutationNode};
use rayon::iter::{IntoParallelIterator, ParallelIterator};
use vstd::prelude::*;

verus! {

/// How two blocks constrain each other.
#[derive(Clone, Copy, Debug, PartialEq, Eq, Structural)]
pub enum Relation {
    /// Same block-row.
    Row,
    /// Same block-column.
    Col,
    /// Neither, or the same block.
    Not,
}

/// The relation of blocks `a` and `b` in a grid of `k` by `k` blocks.
pub open spec fn relation_of(k: int, a: int, b: int) -> Relation {
    let row_eq = a / k == b / k;
    let col_eq = a % k == b % k;
    if row_eq && !col_eq {
        Relation::Row
    } else if col_eq && !row_eq {
        Relation::Col
    } else {
        Relation::Not
    }
}

/// Permutation `p` of block `a` and permutation `q` of block `b` repeat no digit
/// in a line the two blocks share.
pub open spec fn compatible_on(k: int, a: int, p: Seq<u8>, b: int, q: Seq<u8>) -> bool {
    match relation_of(k, a, b) {
        Relation::Row => rows_compatible(k, p, q),
        Relation::Col => cols_compatible(k, p, q),
        Relation::Not => false,
    }
}

/// Pair `(a, p)` comes before pair `(b, q)` in lexicographic order.
pub open spec fn pair_before(a: int, p: int, b: int, q: int) -> bool {
    a < b || (a == b && p < q)
}

impl Relation {
    /// The relation named by a two-bit mask: bit 0 for the same block-row, bit 1
    /// for the same block-column; both bits set is the same block.
    pub fn from_mask(mask: usize) -> (r: Relation)
        ensures
            r == if mask % 4 == 1 {
                Relation::Row
            } else if mask % 4 == 2 {
                Relation::Col
            } else {
                Relation::Not
            },
    {
        proof {
            assert(mask & 3 == mask % 4) by (bit_vector);
        }
        match mask & 3 {
            1 => Relation::Row,
            2 => Relation::Col,
            _ => Relation::Not,
        }
    }
}

/// The permutations of every block, and the compatibility edges between them.
#[derive(Debug)]
pub struct Graph {
    /// The side of a block.
    pub k: usize,
    /// The permutation list of each block, by block id.
    pub minigrids: Vec<Vec<PermutationNode>>,
}

impl Graph {
    /// One list per block, of well-formed nodes.
    pub open spec fn wf(&self) -> bool {
        &&& 1 <= self.k <= 5
        &&& self.minigrids.len() == self.k * self.k
        &&& forall|b: int, p: int|
            0 <= b < self.k * self.k && 0 <= p < self.minigrids@[b].len() ==> (#[trigger] self.minigrids@[b]@[p]).wf(
                self.k as int,
            )
    }

    /// The cells of permutation `p` of block `b`.
    pub open spec fn perm(&self, b: int, p: int) -> Seq<u8> {
        self.minigrids@[b]@[p].cells@
    }

    /// Vertex `(b, p)` exists.
    pub open spec fn has_vertex(&self, b: int, p: int) -> bool {
        0 <= b < self.k * self.k && 0 <= p < self.minigrids@[b].len()
    }

    /// Each block lists its fillings in increasing lexicographic order.
    pub open spec fn sorted_perms(&self) -> bool {
        forall|b: int, p: int, q: int|
            #[trigger] self.has_vertex(b, p) && #[trigger] self.has_vertex(b, q) && p < q ==> crate::extract::lex_lt(
                crate::extract::ints(self.perm(b, p)),
                crate::extract::ints(self.perm(b, q)),
            )
    }

    /// No block lists the same filling twice.
    pub open spec fn distinct_perms(&self) -> bool {
        forall|b: int, p: int, q: int|
            #[trigger] self.has_vertex(b, p) && #[trigger] self.has_vertex(b, q) && p != q ==> self.perm(b, p)
                != self.perm(b, q)
    }

    /// The two vertices share a line and repeat no digit on it.
    pub open spec fn linked(&self, a: int, p: int, b: int, q: int) -> bool {
        compatible_on(self.k as int, a, self.perm(a, p), b, self.perm(b, q))
    }

    /// The edge list of vertex `(b, p)`.
    pub open spec fn edges(&self, b: int, p: int) -> Seq<(usize, usize)> {
        self.minigrids@[b]@[p].compatible@
    }

    /// Every vertex lists, once each, exactly the vertices linked to it.
    pub open spec fn edges_exact(&self) -> bool {
        &&& forall|b: int, p: int| #[trigger] self.has_vertex(b, p) ==> self.edges(b, p).no_duplicates()
        &&& forall|b: int, p: int, e: (usize, usize)|
            #[trigger] self.has_vertex(b, p) && #[trigger] self.edges(b, p).contains(e) ==> self.has_vertex(
                e.0 as int,
                e.1 as int,
            ) && self.linked(b, p, e.0 as int, e.1 as int)
        &&& forall|b: int, p: int, c: int, q: int|
            #[trigger] self.has_vertex(b, p) && #[trigger] self.has_vertex(c, q) && self.linked(b, p, c, q)
                ==> self.edges(b, p).contains((c as usize, q as usize))
    }

    /// A graph over the given permutation lists, with whatever edges they carry.
    pub fn new(k: usize, minigrids: Vec<Vec<PermutationNode>>) -> (r: Self)
        ensures
            r.k == k,
            r.minigrids@ == minigrids@,
    {
        Graph { k, minigrids }
    }

    /// The relation of blocks `a` and `b`.
    pub fn relationship(&self, a: usize, b: usize) -> (r: Relation)
        requires
            self.k >= 1,
        ensures
            r == relation_of(self.k as int, a as int, b as int),
    {
        let k = self.k;
        let row_eq: usize = if a / k == b / k {
            1
        } else {
            0
        };
        let col_eq: usize = if a % k == b % k {
            1
        } else {
            0
        };
        Relation::from_mask(row_eq + 2 * col_eq)
    }

    /// Whether vertex `(a, p)` and vertex `(b, q)` are linked.
    pub(crate) fn check_pair(&self, a: usize, p: usize, b: usize, q: usize) -> (r: bool)
        requires
            self.wf(),
            self.has_vertex(a as int, p as int),
            self.has_vertex(b as int, q as int),
        ensures
            r == self.linked(a as int, p as int, b as int, q as int),
    {
        let x = &self.minigrids[a][p];
        let y = &self.minigrids[b][q];
        proof {
            assert(x.wf(self.k as int) && y.wf(self.k as int));
        }
        match self.relationship(a, b) {
            Relation::Row => x.check_row_compatible(y),
            Relation::Col => x.check_col_compatible(y),
            Relation::Not => false,
        }
    }

    /// The vertices linked to `(b, p)`, in order of block then index.
    fn neighbors_of(&self, b: usize, p: usize) -> (r: Vec<(usize, usize)>)
        requires
            self.wf(),
            self.has_vertex(b as int, p as int),
        ensures
            r@.no_duplicates(),
            forall|e: (usize, usize)|
                #[trigger] r@.contains(e) <==> self.has_vertex(e.0 as int, e.1 as int) && self.linked(
                    b as int,
                    p as int,
                    e.0 as int,
                    e.1 as int,
                ),
    {
        let n = self.minigrids.len();
        let mut r: Vec<(usize, usize)> = Vec::new();
        let mut c: usize = 0;
        while c < n
            invariant
                self.wf(),
                self.has_vertex(b as int, p as int),
                n == self.minigrids.len(),
                c <= n,
                r@.no_duplicates(),
                forall|e: (usize, usize)|
                    #[trigger] r@.contains(e) <==> self.has_vertex(e.0 as int, e.1 as int) && (e.0 as int) < c
                        && self.linked(b as int, p as int, e.0 as int, e.1 as int),
            decreases n - c,
        {
            if self.relationship(b, c) != Relation::Not {
                let len = self.minigrids[c].len();
                let mut q: usize = 0;
                while q < len
                    invariant
                        self.wf(),
                        self.has_vertex(b as int, p as int),
                        n == self.minigrids.len(),
                        c < n,
                        len == self.minigrids@[c as int].len(),
                        q <= len,
                        r@.no_duplicates(),
                        forall|e: (usize, usize)|
                            #[trigger] r@.contains(e) <==> self.has_vertex(e.0 as int, e.1 as int) && pair_before(
                                e.0 as int,
                                e.1 as int,
                                c as int,
                                q as int,
                            ) && self.linked(b as int, p as int, e.0 as int, e.1 as int),
                    decreases len - q,
                {
                    let ghost r0 = r@;
                    if self.check_pair(b, p, c, q) {
                        proof {
                            assert(!r@.contains((c, q)));
                        }
                        r.push((c, q));
                        proof {
                            assert forall|e: (usize, usize)| #[trigger] r@.contains(e) implies r0.contains(e) || e == (c, q) by {
                                let t = choose|t: int| 0 <= t < r@.len() && r@[t] == e;
                                if t < r0.len() {
                                    assert(r0[t] == e);
                                }
                            }
                            assert(r@[r0.len() as int] == (c, q));
                            assert forall|e: (usize, usize)| r0.contains(e) implies #[trigger] r@.contains(e) by {
                                let t = choose|t: int| 0 <= t < r0.len() && r0[t] == e;
                                assert(r@[t] == e);
                            }
                        }
                    }
                    q = q + 1;
                }
            }
            c = c + 1;
        }
        r
    }

    /// `s` lists, once each, exactly the vertices linked to `(b, p)`.
    pub open spec fn lists_neighbors(&self, b: int, p: int, s: Seq<(usize, usize)>) -> bool {
        &&& s.no_duplicates()
        &&& forall|e: (usize, usize)|
            #[trigger] s.contains(e) <==> self.has_vertex(e.0 as int, e.1 as int) && self.linked(b, p, e.0 as int, e.1 as int)
    }

    /// The edge lists of the vertices of block `b`, by index.
    pub fn block_neighbors(&self, b: usize) -> (r: Vec<Vec<(usize, usize)>>)
        requires
            self.wf(),
            b < self.minigrids.len(),
        ensures
            r.len() == self.minigrids@[b as int].len(),
            forall|p: int| 0 <= p < r.len() ==> self.lists_neighbors(b as int, p, #[trigger] r@[p]@),
    {
        let len = self.minigrids[b].len();
        let mut list: Vec<Vec<(usize, usize)>> = Vec::new();
        let mut p: usize = 0;
        while p < len
            invariant
                self.wf(),
                b < self.minigrids.len(),
                len == self.minigrids@[b as int].len(),
                p <= len,
                list.len() == p,
                forall|y: int| 0 <= y < p ==> self.lists_neighbors(b as int, y, #[trigger] list@[y]@),
            decreases len - p,
        {
            list.push(self.neighbors_of(b, p));
            p = p + 1;
        }
        list
    }

    /// Appends to every vertex's edge list the vertices linked to it; lines
    /// that two blocks do not share are never tested. The lists are found for
    /// all blocks in parallel, then appended one by one. When every list starts
    /// empty, every vertex then lists exactly its linked vertices.
    pub fn create_edges(&mut self)
        requires
            old(self).wf(),
        ensures
            final(self).wf(),
            final(self).k == old(self).k,
            final(self).minigrids.len() == old(self).minigrids.len(),
            forall|b: int|
                0 <= b < old(self).minigrids.len() ==> (#[trigger] final(self).minigrids@[b]).len()
                    == old(self).minigrids@[b].len(),
            forall|b: int, p: int|
                #[trigger] old(self).has_vertex(b, p) ==> final(self).perm(b, p) == old(self).perm(b, p),
            forall|b: int, p: int|
                #[trigger] old(self).has_vertex(b, p) ==> final(self).edges(b, p).subrange(
                    0,
                    old(self).edges(b, p).len() as int,
                ) == old(self).edges(b, p) && old(self).lists_neighbors(
                    b,
                    p,
                    final(self).edges(b, p).subrange(
                        old(self).edges(b, p).len() as int,
                        final(self).edges(b, p).len() as int,
                    ),
                ),
            (forall|b: int, p: int| #[trigger] old(self).has_vertex(b, p) ==> old(self).edges(b, p).len() == 0)
                ==> final(self).edges_exact(),
    {
        let n = self.minigrids.len();
        let mut lists = par_block_neighbors(self);
        let ghost g0 = *self;
        let ghost orig = lists@.map_values(|row: Vec<Vec<(usize, usize)>>| row@.map_values(|l: Vec<(usize, usize)>| l@));
        let mut b: usize = 0;
        while b < n
            invariant
                g0.wf(),
                self.wf(),
                n == g0.minigrids.len(),
                self.k == g0.k,
                self.minigrids.len() == n,
                b <= n,
                lists.len() == n,
                orig.len() == n,
                forall|x: int| 0 <= x < n ==> (#[trigger] self.minigrids@[x]).len() == g0.minigrids@[x].len(),
                forall|x: int| 0 <= x < n ==> (#[trigger] orig[x]).len() == g0.minigrids@[x].len(),
                forall|x: int| b <= x < n ==> (#[trigger] lists@[x]).len() == g0.minigrids@[x].len(),
                forall|x: int, y: int|
                    0 <= x < n && 0 <= y < g0.minigrids@[x].len() ==> g0.lists_neighbors(x, y, #[trigger] orig[x][y]),
                forall|x: int, y: int|
                    b <= x < n && 0 <= y < g0.minigrids@[x].len() ==> (#[trigger] lists@[x]@[y])@ == orig[x][y],
                forall|x: int, y: int|
                    0 <= x < n && 0 <= y < g0.minigrids@[x].len() ==> (#[trigger] self.minigrids@[x]@[y]).cells
                        == g0.minigrids@[x]@[y].cells && self.minigrids@[x]@[y].row_masks
                        == g0.minigrids@[x]@[y].row_masks && self.minigrids@[x]@[y].col_masks
                        == g0.minigrids@[x]@[y].col_masks,
                forall|x: int, y: int|
                    0 <= x < n && 0 <= y < g0.minigrids@[x].len() ==> (#[trigger] self.minigrids@[x]@[y]).compatible@
                        == if x < b {
                        g0.edges(x, y) + orig[x][y]
                    } else {
                        g0.edges(x, y)
                    },
            decreases n - b,
        {
            let len = self.minigrids[b].len();
            let mut p: usize = 0;
            while p < len
                invariant
                    g0.wf(),
                    self.wf(),
                    n == g0.minigrids.len(),
                    self.k == g0.k,
                    self.minigrids.len() == n,
                    b < n,
                    p <= len,
                    len == g0.minigrids@[b as int].len(),
                    lists.len() == n,
                    orig.len() == n,
                    forall|x: int| 0 <= x < n ==> (#[trigger] self.minigrids@[x]).len() == g0.minigrids@[x].len(),
                    forall|x: int| 0 <= x < n ==> (#[trigger] orig[x]).len() == g0.minigrids@[x].len(),
                    forall|x: int| b <= x < n ==> (#[trigger] lists@[x]).len() == g0.minigrids@[x].len(),
                    forall|x: int, y: int|
                        0 <= x < n && 0 <= y < g0.minigrids@[x].len() ==> g0.lists_neighbors(x, y, #[trigger] orig[x][y]),
                    forall|x: int, y: int|
                        b <= x < n && 0 <= y < g0.minigrids@[x].len() && (x > b || y >= p) ==> (#[trigger] lists@[x]@[y])@
                            == orig[x][y],
                    forall|x: int, y: int|
                        0 <= x < n && 0 <= y < g0.minigrids@[x].len() ==> (#[trigger] self.minigrids@[x]@[y]).cells
                            == g0.minigrids@[x]@[y].cells && self.minigrids@[x]@[y].row_masks
                            == g0.minigrids@[x]@[y].row_masks && self.minigrids@[x]@[y].col_masks
                            == g0.minigrids@[x]@[y].col_masks,
                    forall|x: int, y: int|
                        0 <= x < n && 0 <= y < g0.minigrids@[x].len() ==> (#[trigger] self.minigrids@[x]@[y]).compatible@
                            == if x < b || (x == b && y < p) {
                            g0.edges(x, y) + orig[x][y]
                        } else {
                            g0.edges(x, y)
                        },
                decreases len - p,
            {
                let mut e: Vec<(usize, usize)> = Vec::new();
                std::mem::swap(&mut e, &mut lists[b][p]);
                self.minigrids[b][p].compatible.append(&mut e);
                p = p + 1;
            }
            b = b + 1;
        }
        proof {
            assert forall|x: int, y: int| #[trigger] g0.has_vertex(x, y) implies self.perm(x, y) == g0.perm(x, y) by {}
            assert forall|x: int, y: int, c: int, q: int| self.has_vertex(x, y) && self.has_vertex(c, q) implies self.linked(x, y, c, q) == g0.linked(x, y, c, q) by {
            }
            assert forall|x: int, y: int| #[trigger] g0.has_vertex(x, y) implies self.edges(x, y).subrange(
                0,
                g0.edges(x, y).len() as int,
            ) == g0.edges(x, y) && self.edges(x, y).subrange(
                g0.edges(x, y).len() as int,
                self.edges(x, y).len() as int,
            ) == orig[x][y] by {
                assert(self.edges(x, y).subrange(0, g0.edges(x, y).len() as int) =~= g0.edges(x, y));
                assert(self.edges(x, y).subrange(g0.edges(x, y).len() as int, self.edges(x, y).len() as int) =~= orig[x][y]);
            }
            if forall|x: int, y: int| #[trigger] g0.has_vertex(x, y) ==> g0.edges(x, y).len() == 0 {
                assert forall|x: int, y: int| #[trigger] self.has_vertex(x, y) implies self.edges(x, y) == orig[x][y] by {
                    assert(g0.has_vertex(x, y));
                    assert(g0.edges(x, y) + orig[x][y] =~= orig[x][y]);
                }
            }
        }
    }
}

/// Relies on rayon's indexed parallel `map` and `collect` into a `Vec`, which
/// keeps the lists of block `b` at position `b`.
#[verifier::external_body]
fn par_block_neighbors(graph: &Graph) -> (r: Vec<Vec<Vec<(usize, usize)>>>)
    requires
        graph.wf(),
    ensures
        r.len() == graph.minigrids.len(),
        forall|b: int| 0 <= b < r.len() ==> (#[trigger] r@[b]).len() == graph.minigrids@[b].len(),
        forall|b: int, p: int|
            0 <= b < r.len() && 0 <= p < r@[b].len() ==> graph.lists_neighbors(b, p, (#[trigger] r@[b]@[p])@),
{
    (0..graph.minigrids.len()).into_par_iter().map(|b| graph.block_neighbors(b)).collect()
}

} // verus!
