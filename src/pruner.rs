use crate::geometry::{lemma_join, lemma_split};
use crate::graph::{relation_of, Graph, Relation};
use vstd::prelude::*;

verus! {

/// The rows of a flag table, each as a sequence.
pub open spec fn flags_of(a: Seq<Vec<bool>>) -> Seq<Seq<bool>> {
    a.map_values(|v: Vec<bool>| v@)
}

/// How many entries of `s` name an active vertex.
pub open spec fn count_active(s: Seq<(usize, usize)>, a: Seq<Seq<bool>>) -> nat
    decreases s.len(),
{
    if s.len() == 0 {
        0
    } else {
        count_active(s.drop_last(), a) + if a[s.last().0 as int][s.last().1 as int] {
            1nat
        } else {
            0nat
        }
    }
}

/// How many flags of a row are set.
pub open spec fn row_count(r: Seq<bool>) -> nat
    decreases r.len(),
{
    if r.len() == 0 {
        0
    } else {
        row_count(r.drop_last()) + if r.last() {
            1nat
        } else {
            0nat
        }
    }
}

/// How many flags of a table are set.
pub open spec fn total_count(a: Seq<Seq<bool>>) -> nat
    decreases a.len(),
{
    if a.len() == 0 {
        0
    } else {
        total_count(a.drop_last()) + row_count(a.last())
    }
}

/// The number of compatible neighbours a permutation of block `b` needs: one
/// per side of the block that has a neighbouring block.
pub open spec fn min_degree(k: int, b: int) -> int {
    let r = b / k;
    let c = b % k;
    4 - (if r == 0 {
        1int
    } else {
        0int
    }) - (if r == k - 1 {
        1int
    } else {
        0int
    }) - (if c == 0 {
        1int
    } else {
        0int
    }) - (if c == k - 1 {
        1int
    } else {
        0int
    })
}

/// The flag table has one flag per vertex of `graph`.
pub open spec fn fits(graph: Graph, a: Seq<Seq<bool>>) -> bool {
    &&& a.len() == graph.minigrids.len()
    &&& forall|b: int| 0 <= b < a.len() ==> (#[trigger] a[b]).len() == graph.minigrids@[b].len()
}

/// Every vertex of the selection `sel` (one permutation per block) is active.
pub open spec fn keeps(sel: Seq<int>, a: Seq<Seq<bool>>) -> bool {
    forall|b: int| 0 <= b < sel.len() ==> #[trigger] a[b][sel[b]]
}

/// Every active vertex has at least as many active neighbours as its block needs.
pub open spec fn is_stable(graph: Graph, a: Seq<Seq<bool>>) -> bool {
    forall|b: int, p: int|
        #[trigger] graph.has_vertex(b, p) && a[b][p] ==> count_active(graph.edges(b, p), a) >= min_degree(
            graph.k as int,
            b,
        )
}

/// Every vertex flagged in `t` is flagged in `a`.
pub open spec fn within(graph: Graph, t: Seq<Seq<bool>>, a: Seq<Seq<bool>>) -> bool {
    forall|b: int, p: int| #[trigger] graph.has_vertex(b, p) && t[b][p] ==> a[b][p]
}

impl Graph {
    /// `sel` picks one permutation per block, and every two picked permutations
    /// of blocks that share a line repeat no digit on it: together they fill the
    /// whole board.
    pub open spec fn is_selection(&self, sel: Seq<int>) -> bool {
        &&& sel.len() == self.k * self.k
        &&& forall|b: int| 0 <= b < sel.len() ==> 0 <= #[trigger] sel[b] < self.minigrids@[b].len()
        &&& forall|a: int, b: int|
            0 <= a < sel.len() && 0 <= b < sel.len() && relation_of(self.k as int, a, b) != Relation::Not
                ==> #[trigger] self.linked(a, sel[a], b, sel[b])
    }
}

/// A row whose set flags were all set in another row of the same length has
/// no more set flags than it.
proof fn lemma_row_count_le(after: Seq<bool>, before: Seq<bool>)
    requires
        after.len() == before.len(),
        forall|p: int| 0 <= p < after.len() && #[trigger] after[p] ==> before[p],
    ensures
        row_count(after) <= row_count(before),
    decreases after.len(),
{
    if after.len() > 0 {
        lemma_row_count_le(after.drop_last(), before.drop_last());
    }
}

/// When a pruning only clears flags, no block ends with more active
/// permutations than it started with.
pub proof fn lemma_prune_monotone(graph: Graph, before: Seq<Seq<bool>>, after: Seq<Seq<bool>>)
    requires
        graph.wf(),
        fits(graph, before),
        fits(graph, after),
        forall|b: int, p: int| #[trigger] graph.has_vertex(b, p) && after[b][p] ==> before[b][p],
    ensures
        forall|b: int| 0 <= b < after.len() ==> row_count(#[trigger] after[b]) <= row_count(before[b]),
{
    assert forall|b: int| 0 <= b < after.len() implies row_count(#[trigger] after[b]) <= row_count(before[b]) by {
        assert forall|p: int| 0 <= p < after[b].len() && #[trigger] after[b][p] implies before[b][p] by {
            assert(graph.has_vertex(b, p));
        }
        lemma_row_count_le(after[b], before[b]);
    }
}

/// A list counts at least as many vertices active in `a` as in a table that
/// flags fewer of them.
proof fn lemma_count_mono(s: Seq<(usize, usize)>, t: Seq<Seq<bool>>, a: Seq<Seq<bool>>)
    requires
        forall|i: int|
            0 <= i < s.len() && #[trigger] t[s[i].0 as int][s[i].1 as int] ==> a[s[i].0 as int][s[i].1 as int],
    ensures
        count_active(s, t) <= count_active(s, a),
    decreases s.len(),
{
    if s.len() > 0 {
        let r = s.drop_last();
        assert forall|i: int| 0 <= i < r.len() && #[trigger] t[r[i].0 as int][r[i].1 as int] implies a[r[i].0 as int][r[i].1 as int] by {
            assert(r[i] == s[i]);
        }
        lemma_count_mono(r, t, a);
        assert(s[s.len() - 1] == s.last());
    }
}

/// Clearing one set flag lowers the total by one.
proof fn lemma_total_clear(a: Seq<Seq<bool>>, b: int, p: int)
    requires
        0 <= b < a.len(),
        0 <= p < a[b].len(),
        a[b][p],
    ensures
        total_count(a.update(b, a[b].update(p, false))) + 1 == total_count(a),
    decreases a.len(),
{
    let a2 = a.update(b, a[b].update(p, false));
    if b == a.len() - 1 {
        assert(a2.drop_last() =~= a.drop_last());
        lemma_row_clear(a[b], p);
    } else {
        lemma_total_clear(a.drop_last(), b, p);
        assert(a2.drop_last() =~= a.drop_last().update(b, a[b].update(p, false)));
    }
}

proof fn lemma_row_clear(r: Seq<bool>, p: int)
    requires
        0 <= p < r.len(),
        r[p],
    ensures
        row_count(r.update(p, false)) + 1 == row_count(r),
    decreases r.len(),
{
    let r2 = r.update(p, false);
    if p == r.len() - 1 {
        assert(r2.drop_last() =~= r.drop_last());
    } else {
        lemma_row_clear(r.drop_last(), p);
        assert(r2.drop_last() =~= r.drop_last().update(p, false));
    }
}

/// Deactivating vertex `u` lowers the count of a list that names it once by one.
proof fn lemma_count_clear(s: Seq<(usize, usize)>, a: Seq<Seq<bool>>, u: (usize, usize))
    requires
        s.no_duplicates(),
        forall|i: int| 0 <= i < s.len() ==> (#[trigger] s[i]).0 < a.len() && s[i].1 < a[s[i].0 as int].len(),
        0 <= u.0 < a.len(),
        0 <= u.1 < a[u.0 as int].len(),
        a[u.0 as int][u.1 as int],
    ensures
        count_active(s, a.update(u.0 as int, a[u.0 as int].update(u.1 as int, false))) + (if s.contains(u) {
            1nat
        } else {
            0nat
        }) == count_active(s, a),
    decreases s.len(),
{
    let a2 = a.update(u.0 as int, a[u.0 as int].update(u.1 as int, false));
    if s.len() > 0 {
        let t = s.drop_last();
        assert(t.no_duplicates());
        assert forall|i: int| 0 <= i < t.len() implies (#[trigger] t[i]).0 < a.len() && t[i].1 < a[t[i].0 as int].len() by {
            assert(t[i] == s[i]);
        }
        lemma_count_clear(t, a, u);
        let e = s.last();
        assert(s[s.len() - 1] == e);
        if e == u {
            assert(!t.contains(u)) by {
                if t.contains(u) {
                    let i = choose|i: int| 0 <= i < t.len() && t[i] == u;
                    assert(s[i] == s[s.len() - 1]);
                }
            }
        } else {
            assert(a2[e.0 as int][e.1 as int] == a[e.0 as int][e.1 as int]);
            assert(s.contains(u) == t.contains(u)) by {
                if s.contains(u) {
                    let i = choose|i: int| 0 <= i < s.len() && s[i] == u;
                    assert(t[i] == u);
                }
                if t.contains(u) {
                    let i = choose|i: int| 0 <= i < t.len() && t[i] == u;
                    assert(s[i] == u);
                }
            }
        }
    }
}

/// A list counts at least the active vertices of any finite set it contains.
proof fn lemma_count_lower(s: Seq<(usize, usize)>, a: Seq<Seq<bool>>, t: Set<(usize, usize)>)
    requires
        t.finite(),
        forall|e: (usize, usize)| #[trigger] t.contains(e) ==> s.contains(e) && a[e.0 as int][e.1 as int],
    ensures
        count_active(s, a) >= t.len(),
    decreases s.len(),
{
    if s.len() == 0 {
        if t.len() > 0 {
            let e = t.choose();
            assert(t.contains(e));
        }
    } else {
        let last = s.last();
        let rest = s.drop_last();
        let t2 = t.remove(last);
        assert forall|e: (usize, usize)| #[trigger] t2.contains(e) implies rest.contains(e) && a[e.0 as int][e.1 as int] by {
            let i = choose|i: int| 0 <= i < s.len() && s[i] == e;
            assert(i != s.len() - 1);
            assert(rest[i] == e);
        }
        lemma_count_lower(rest, a, t2);
    }
}

/// Being linked does not depend on the order of the two vertices.
pub proof fn lemma_linked_symmetric(graph: Graph, a: int, p: int, b: int, q: int)
    requires
        graph.k >= 1,
    ensures
        graph.linked(a, p, b, q) == graph.linked(b, q, a, p),
{
    let k = graph.k as int;
    let x = graph.perm(a, p);
    let y = graph.perm(b, q);
    match relation_of(k, a, b) {
        Relation::Row => {
            if crate::node::rows_compatible(k, x, y) {
                assert forall|i: int, j: int| 0 <= i < k * k && 0 <= j < k * k && i / k == j / k implies #[trigger] y[i] != #[trigger] x[j] by {
                    assert(x[j] != y[i]);
                }
            }
            if crate::node::rows_compatible(k, y, x) {
                assert forall|i: int, j: int| 0 <= i < k * k && 0 <= j < k * k && i / k == j / k implies #[trigger] x[i] != #[trigger] y[j] by {
                    assert(y[j] != x[i]);
                }
            }
        },
        Relation::Col => {
            if crate::node::cols_compatible(k, x, y) {
                assert forall|i: int, j: int| 0 <= i < k * k && 0 <= j < k * k && i % k == j % k implies #[trigger] y[i] != #[trigger] x[j] by {
                    assert(x[j] != y[i]);
                }
            }
            if crate::node::cols_compatible(k, y, x) {
                assert forall|i: int, j: int| 0 <= i < k * k && 0 <= j < k * k && i % k == j % k implies #[trigger] x[i] != #[trigger] y[j] by {
                    assert(y[j] != x[i]);
                }
            }
        },
        Relation::Not => {},
    }
}

/// A vertex of a selection has, among the selection, one active neighbour per
/// side of its block that has a neighbouring block.
proof fn lemma_support(graph: Graph, a: Seq<Seq<bool>>, sel: Seq<int>, b: int)
    requires
        graph.wf(),
        graph.edges_exact(),
        graph.is_selection(sel),
        keeps(sel, a),
        0 <= b < graph.k * graph.k,
    ensures
        count_active(graph.edges(b, sel[b]), a) >= min_degree(graph.k as int, b),
{
    let k = graph.k as int;
    let n = k * k;
    lemma_split(k, b);
    let r = b / k;
    let c = b % k;
    let pick = |x: int| (x as usize, sel[x] as usize);
    let s0 = Set::<(usize, usize)>::empty();
    let s1 = if c > 0 { s0.insert(pick(b - 1)) } else { s0 };
    let s2 = if c < k - 1 { s1.insert(pick(b + 1)) } else { s1 };
    let s3 = if r > 0 { s2.insert(pick(b - k)) } else { s2 };
    let s4 = if r < k - 1 { s3.insert(pick(b + k)) } else { s3 };
    assert(b == r * k + c);
    if c > 0 {
        lemma_join(k, r, c - 1);
        assert(b - 1 == r * k + (c - 1));
    }
    if c < k - 1 {
        lemma_join(k, r, c + 1);
        assert(b + 1 == r * k + (c + 1));
    }
    if r > 0 {
        lemma_join(k, r - 1, c);
        assert(b - k == (r - 1) * k + c) by (nonlinear_arith)
            requires
                b == r * k + c,
        ;
    }
    if r < k - 1 {
        lemma_join(k, r + 1, c);
        assert(b + k == (r + 1) * k + c) by (nonlinear_arith)
            requires
                b == r * k + c,
        ;
    }
    assert(s4.len() == min_degree(k, b));
    assert forall|e: (usize, usize)| #[trigger] s4.contains(e) implies graph.edges(b, sel[b]).contains(e) && a[e.0 as int][e.1 as int] by {
        let x = e.0 as int;
        assert(0 <= x < n && relation_of(k, b, x) != Relation::Not && e == pick(x));
        assert(graph.linked(b, sel[b], x, sel[x]));
        assert(graph.has_vertex(b, sel[b]));
        assert(graph.has_vertex(x, sel[x]));
    }
    lemma_count_lower(graph.edges(b, sel[b]), a, s4);
}

/// The number of compatible neighbours a permutation of block `b` needs.
pub fn required_degree(k: usize, b: usize) -> (r: usize)
    requires
        k >= 1,
    ensures
        r == min_degree(k as int, b as int),
{
    let row = b / k;
    let col = b % k;
    let mut need: usize = 4;
    if row == 0 {
        need = need - 1;
    }
    if row == k - 1 {
        need = need - 1;
    }
    if col == 0 {
        need = need - 1;
    }
    if col == k - 1 {
        need = need - 1;
    }
    need
}

/// The number of active neighbours of vertex `(b, p)`.
fn active_degree(graph: &Graph, active: &Vec<Vec<bool>>, b: usize, p: usize) -> (r: usize)
    requires
        graph.wf(),
        graph.edges_exact(),
        fits(*graph, flags_of(active@)),
        graph.has_vertex(b as int, p as int),
    ensures
        r == count_active(graph.edges(b as int, p as int), flags_of(active@)),
{
    let edges = &graph.minigrids[b][p].compatible;
    let ghost s = graph.edges(b as int, p as int);
    let ghost a = flags_of(active@);
    let mut c: usize = 0;
    let mut t: usize = 0;
    while t < edges.len()
        invariant
            graph.wf(),
            graph.edges_exact(),
            fits(*graph, a),
            a == flags_of(active@),
            graph.has_vertex(b as int, p as int),
            s == edges@,
            s == graph.edges(b as int, p as int),
            t <= edges.len(),
            c <= t,
            c == count_active(s.subrange(0, t as int), a),
        decreases edges.len() - t,
    {
        let e = edges[t];
        proof {
            assert(s[t as int] == e);
            assert(s.contains(e));
            assert(graph.edges(b as int, p as int).contains(e));
            assert(graph.has_vertex(e.0 as int, e.1 as int));
            assert(s.subrange(0, t + 1).drop_last() =~= s.subrange(0, t as int));
            assert(a[e.0 as int] == active@[e.0 as int]@);
        }
        if active[e.0][e.1] {
            c = c + 1;
        }
        t = t + 1;
    }
    proof {
        assert(s.subrange(0, t as int) =~= s);
    }
    c
}

/// Removes, until none is left to remove, every active vertex with fewer active
/// neighbours than its block needs. Vertices only ever leave, and no vertex of
/// a stable table within the input leaves: the result is the greatest stable
/// table within the input. So no vertex of a selection of active vertices
/// leaves.
pub fn prune(graph: &Graph, active: &mut Vec<Vec<bool>>)
    requires
        graph.wf(),
        graph.edges_exact(),
        fits(*graph, flags_of(old(active)@)),
    ensures
        fits(*graph, flags_of(final(active)@)),
        forall|b: int, p: int| #[trigger] graph.has_vertex(b, p) && final(active)@[b]@[p] ==> old(active)@[b]@[p],
        is_stable(*graph, flags_of(final(active)@)),
        forall|sel: Seq<int>|
            #[trigger] graph.is_selection(sel) && keeps(sel, flags_of(old(active)@)) ==> keeps(
                sel,
                flags_of(final(active)@),
            ),
        forall|t: Seq<Seq<bool>>|
            fits(*graph, t) && #[trigger] is_stable(*graph, t) && within(*graph, t, flags_of(old(active)@)) ==> within(
                *graph,
                t,
                flags_of(final(active)@),
            ),
{
    let ghost a0 = flags_of(active@);
    let n = graph.minigrids.len();
    let k = graph.k;
    let mut degrees: Vec<Vec<usize>> = Vec::new();
    let mut b: usize = 0;
    while b < n
        invariant
            graph.wf(),
            graph.edges_exact(),
            fits(*graph, flags_of(active@)),
            a0 == flags_of(active@),
            n == graph.minigrids.len(),
            b <= n,
            degrees.len() == b,
            forall|x: int| 0 <= x < b ==> (#[trigger] degrees@[x]).len() == graph.minigrids@[x].len(),
            forall|x: int, y: int|
                #[trigger] graph.has_vertex(x, y) && x < b ==> degrees@[x]@[y] == count_active(graph.edges(x, y), a0),
        decreases n - b,
    {
        let len = graph.minigrids[b].len();
        let mut row: Vec<usize> = Vec::new();
        let mut p: usize = 0;
        while p < len
            invariant
                graph.wf(),
                graph.edges_exact(),
                fits(*graph, flags_of(active@)),
                a0 == flags_of(active@),
                n == graph.minigrids.len(),
                b < n,
                len == graph.minigrids@[b as int].len(),
                p <= len,
                row.len() == p,
                forall|y: int| 0 <= y < p ==> #[trigger] row@[y] == count_active(graph.edges(b as int, y), a0),
            decreases len - p,
        {
            row.push(active_degree(graph, active, b, p));
            p = p + 1;
        }
        degrees.push(row);
        b = b + 1;
    }
    let ghost mut alive: nat = total_count(a0);
    let mut changed = true;
    while changed
        invariant
            graph.wf(),
            graph.edges_exact(),
            fits(*graph, flags_of(active@)),
            n == graph.minigrids.len(),
            k == graph.k,
            degrees.len() == n,
            forall|x: int| 0 <= x < n ==> (#[trigger] degrees@[x]).len() == graph.minigrids@[x].len(),
            forall|x: int, y: int|
                #[trigger] graph.has_vertex(x, y) && flags_of(active@)[x][y] ==> degrees@[x]@[y] == count_active(
                    graph.edges(x, y),
                    flags_of(active@),
                ),
            forall|x: int, y: int| #[trigger] graph.has_vertex(x, y) && active@[x]@[y] ==> a0[x][y],
            forall|sel: Seq<int>|
                #[trigger] graph.is_selection(sel) && keeps(sel, a0) ==> keeps(sel, flags_of(active@)),
            forall|t: Seq<Seq<bool>>|
                fits(*graph, t) && #[trigger] is_stable(*graph, t) && within(*graph, t, a0) ==> within(
                    *graph,
                    t,
                    flags_of(active@),
                ),
            alive == total_count(flags_of(active@)),
            !changed ==> is_stable(*graph, flags_of(active@)),
        decreases alive + if changed {
            1nat
        } else {
            0nat
        },
    {
        let ghost alive_before = alive;
        changed = false;
        let mut b: usize = 0;
        while b < n
            invariant
                graph.wf(),
                graph.edges_exact(),
                fits(*graph, flags_of(active@)),
                n == graph.minigrids.len(),
                k == graph.k,
                b <= n,
                degrees.len() == n,
                forall|x: int| 0 <= x < n ==> (#[trigger] degrees@[x]).len() == graph.minigrids@[x].len(),
                forall|x: int, y: int|
                    #[trigger] graph.has_vertex(x, y) && flags_of(active@)[x][y] ==> degrees@[x]@[y] == count_active(
                        graph.edges(x, y),
                        flags_of(active@),
                    ),
                forall|x: int, y: int| #[trigger] graph.has_vertex(x, y) && active@[x]@[y] ==> a0[x][y],
                forall|sel: Seq<int>|
                    #[trigger] graph.is_selection(sel) && keeps(sel, a0) ==> keeps(sel, flags_of(active@)),
            forall|t: Seq<Seq<bool>>|
                fits(*graph, t) && #[trigger] is_stable(*graph, t) && within(*graph, t, a0) ==> within(
                    *graph,
                    t,
                    flags_of(active@),
                ),
                alive == total_count(flags_of(active@)),
                changed ==> alive < alive_before,
                !changed ==> alive == alive_before,
                !changed ==> forall|x: int, y: int|
                    #[trigger] graph.has_vertex(x, y) && x < b && flags_of(active@)[x][y] ==> count_active(
                        graph.edges(x, y),
                        flags_of(active@),
                    ) >= min_degree(k as int, x),
            decreases n - b,
        {
            let need = required_degree(k, b);
            let len = graph.minigrids[b].len();
            let mut p: usize = 0;
            while p < len
                invariant
                    graph.wf(),
                    graph.edges_exact(),
                    fits(*graph, flags_of(active@)),
                    n == graph.minigrids.len(),
                    k == graph.k,
                    b < n,
                    len == graph.minigrids@[b as int].len(),
                    need == min_degree(k as int, b as int),
                    p <= len,
                    degrees.len() == n,
                    forall|x: int| 0 <= x < n ==> (#[trigger] degrees@[x]).len() == graph.minigrids@[x].len(),
                    forall|x: int, y: int|
                        #[trigger] graph.has_vertex(x, y) && flags_of(active@)[x][y] ==> degrees@[x]@[y]
                            == count_active(graph.edges(x, y), flags_of(active@)),
                    forall|x: int, y: int| #[trigger] graph.has_vertex(x, y) && active@[x]@[y] ==> a0[x][y],
                    forall|sel: Seq<int>|
                        #[trigger] graph.is_selection(sel) && keeps(sel, a0) ==> keeps(
                            sel,
                            flags_of(active@),
                        ),
            forall|t: Seq<Seq<bool>>|
                fits(*graph, t) && #[trigger] is_stable(*graph, t) && within(*graph, t, a0) ==> within(
                    *graph,
                    t,
                    flags_of(active@),
                ),
                    alive == total_count(flags_of(active@)),
                    changed ==> alive < alive_before,
                    !changed ==> alive == alive_before,
                    !changed ==> forall|x: int, y: int|
                        #[trigger] graph.has_vertex(x, y) && (x < b || (x == b && y < p)) && flags_of(active@)[x][y]
                            ==> count_active(graph.edges(x, y), flags_of(active@)) >= min_degree(k as int, x),
                decreases len - p,
            {
                proof {
                    assert(flags_of(active@)[b as int] == active@[b as int]@);
                }
                if active[b][p] && degrees[b][p] < need {
                    let ghost a1 = flags_of(active@);
                    proof {
                        assert(graph.has_vertex(b as int, p as int));
                        assert(a1[b as int][p as int]);
                        assert(degrees@[b as int]@[p as int] == count_active(graph.edges(b as int, p as int), a1));
                        assert forall|sel: Seq<int>|
                            #[trigger] graph.is_selection(sel) && keeps(sel, a0) implies sel[b as int]
                            != p by {
                            if sel[b as int] == p as int {
                                lemma_support(*graph, a1, sel, b as int);
                            }
                        }
                        lemma_total_clear(a1, b as int, p as int);
                        assert forall|t: Seq<Seq<bool>>|
                            fits(*graph, t) && #[trigger] is_stable(*graph, t) && within(*graph, t, a0) implies !t[b as int][p as int] by {
                            if t[b as int][p as int] {
                                let es = graph.edges(b as int, p as int);
                                assert forall|i: int|
                                    0 <= i < es.len() && #[trigger] t[es[i].0 as int][es[i].1 as int] implies a1[es[i].0 as int][es[i].1 as int] by {
                                    assert(es.contains(es[i]));
                                    assert(graph.has_vertex(es[i].0 as int, es[i].1 as int));
                                }
                                lemma_count_mono(es, t, a1);
                            }
                        }
                    }
                    active[b][p] = false;
                    changed = true;
                    proof {
                        alive = (alive - 1) as nat;
                        let a2 = flags_of(active@);
                        assert(a2 =~= a1.update(b as int, a1[b as int].update(p as int, false)));
                        assert forall|t: Seq<Seq<bool>>|
                            fits(*graph, t) && #[trigger] is_stable(*graph, t) && within(*graph, t, a0) implies within(*graph, t, a2) by {
                            assert forall|x: int, y: int| #[trigger] graph.has_vertex(x, y) && t[x][y] implies a2[x][y] by {
                                assert(a1[x][y]);
                            }
                        }
                        assert forall|sel: Seq<int>|
                            #[trigger] graph.is_selection(sel) && keeps(sel, a0) implies keeps(sel, a2) by {
                            assert forall|x: int| 0 <= x < sel.len() implies #[trigger] a2[x][sel[x]] by {
                                assert(a1[x][sel[x]]);
                            }
                        }
                        assert forall|x: int, y: int|
                            #[trigger] graph.has_vertex(x, y) && a2[x][y] implies degrees@[x]@[y] == count_active(
                                graph.edges(x, y),
                                a2,
                            ) + if graph.edges(b as int, p as int).contains((x as usize, y as usize)) {
                                1nat
                            } else {
                                0nat
                            } by {
                            assert forall|i: int| 0 <= i < graph.edges(x, y).len() implies (#[trigger] graph.edges(x, y)[i]).0 < a1.len()
                                && graph.edges(x, y)[i].1 < a1[graph.edges(x, y)[i].0 as int].len() by {
                                let f = graph.edges(x, y)[i];
                                assert(graph.edges(x, y).contains(f));
                                assert(graph.has_vertex(f.0 as int, f.1 as int));
                            }
                            lemma_count_clear(graph.edges(x, y), a1, (b, p));
                            lemma_linked_symmetric(*graph, x, y, b as int, p as int);
                            assert(graph.has_vertex(b as int, p as int));
                            if graph.edges(x, y).contains((b, p)) {
                                assert(graph.edges(b as int, p as int).contains((x as usize, y as usize)));
                            }
                            if graph.edges(b as int, p as int).contains((x as usize, y as usize)) {
                                assert(graph.linked(b as int, p as int, x, y));
                                assert(graph.edges(x, y).contains((b, p)));
                            }
                        }
                    }
                    let len_e = graph.minigrids[b][p].compatible.len();
                    let ghost es = graph.edges(b as int, p as int);
                    proof {
                        assert(es.subrange(0, len_e as int) =~= es);
                    }
                    let mut t: usize = 0;
                    while t < len_e
                        invariant
                            graph.wf(),
                            graph.edges_exact(),
                            fits(*graph, flags_of(active@)),
                            n == graph.minigrids.len(),
                            b < n,
                            p < len,
                            len == graph.minigrids@[b as int].len(),
                            es == graph.edges(b as int, p as int),
                            len_e == es.len(),
                            t <= len_e,
                            degrees.len() == n,
                            forall|x: int| 0 <= x < n ==> (#[trigger] degrees@[x]).len() == graph.minigrids@[x].len(),
                            forall|x: int, y: int|
                                #[trigger] graph.has_vertex(x, y) && flags_of(active@)[x][y] ==> degrees@[x]@[y]
                                    == count_active(graph.edges(x, y), flags_of(active@)) + if es.subrange(
                                    t as int,
                                    len_e as int,
                                ).contains((x as usize, y as usize)) {
                                    1nat
                                } else {
                                    0nat
                                },
                        decreases len_e - t,
                    {
                        let e = graph.minigrids[b][p].compatible[t];
                        proof {
                            assert(es[t as int] == e);
                            assert(es.contains(e));
                            assert(graph.has_vertex(b as int, p as int));
                            assert(graph.has_vertex(e.0 as int, e.1 as int));
                            assert(es.subrange(t as int, len_e as int)[0] == e);
                            assert(flags_of(active@)[e.0 as int] == active@[e.0 as int]@);
                            assert(es.subrange(t as int, len_e as int).contains(e));
                        }
                        if active[e.0][e.1] {
                            degrees[e.0][e.1] = degrees[e.0][e.1] - 1;
                        }
                        proof {
                            assert forall|x: int, y: int|
                                #[trigger] graph.has_vertex(x, y) && flags_of(active@)[x][y] implies degrees@[x]@[y]
                                    == count_active(graph.edges(x, y), flags_of(active@)) + if es.subrange(
                                    t + 1,
                                    len_e as int,
                                ).contains((x as usize, y as usize)) {
                                    1nat
                                } else {
                                    0nat
                                } by {
                                let v = (x as usize, y as usize);
                                let tail = es.subrange(t as int, len_e as int);
                                let tail2 = es.subrange(t + 1, len_e as int);
                                if tail2.contains(v) {
                                    let i = choose|i: int| 0 <= i < tail2.len() && tail2[i] == v;
                                    assert(tail[i + 1] == v);
                                }
                                if v == e {
                                    if tail2.contains(v) {
                                        let i = choose|i: int| 0 <= i < tail2.len() && tail2[i] == v;
                                        assert(es[t + 1 + i] == es[t as int]);
                                    }
                                } else {
                                    if tail.contains(v) {
                                        let i = choose|i: int| 0 <= i < tail.len() && tail[i] == v;
                                        assert(i != 0);
                                        assert(tail2[i - 1] == v);
                                    }
                                }
                            }
                        }
                        t = t + 1;
                    }
                }
                p = p + 1;
            }
            b = b + 1;
        }
    }
}

} // verus!
