use crate::board::grid_of;
use crate::geometry::{box_of, lemma_cell, rel_of};
use crate::graph::{relation_of, Graph, Relation};
use crate::minigrid::block_cells;
use crate::pruner::{flags_of, fits, keeps, lemma_linked_symmetric};
use vstd::prelude::*;

verus! {

/// Indices as integers.
pub open spec fn picks(v: Seq<usize>) -> Seq<int> {
    v.map_values(|x: usize| x as int)
}

/// The board that the selection `sel` fills: each cell takes its value from the
/// permutation picked for its block.
pub open spec fn assemble(graph: Graph, sel: Seq<int>) -> Seq<Seq<u8>> {
    let k = graph.k as int;
    Seq::new(
        (k * k) as nat,
        |r: int|
            Seq::new(
                (k * k) as nat,
                |c: int| graph.perm(box_of(k, r, c), sel[box_of(k, r, c)])[rel_of(k, r, c)],
            ),
    )
}

/// The first blocks' picks are vertices, and every two of them whose blocks
/// share a line are linked.
pub open spec fn consistent(graph: Graph, sel: Seq<int>) -> bool {
    &&& sel.len() <= graph.k * graph.k
    &&& forall|b: int| 0 <= b < sel.len() ==> 0 <= #[trigger] sel[b] < graph.minigrids@[b].len()
    &&& forall|a: int, b: int|
        0 <= a < sel.len() && 0 <= b < sel.len() && relation_of(graph.k as int, a, b) != Relation::Not
            ==> #[trigger] graph.linked(a, sel[a], b, sel[b])
}

/// The selection that fills board `s`: for each block, the permutation that is
/// that block of `s`.
pub open spec fn selection_of(graph: Graph, s: Seq<Seq<u8>>) -> Seq<int> {
    let k = graph.k as int;
    Seq::new(
        (k * k) as nat,
        |b: int| choose|p: int| graph.has_vertex(b, p) && graph.perm(b, p) == block_cells(s, k, b),
    )
}

/// The selection that fills the board at position `t` of `sols`.
pub open spec fn selection_at(graph: Graph, sols: Seq<Vec<Vec<u8>>>, t: int) -> Seq<int> {
    selection_of(graph, grid_of(sols[t]@))
}

/// `s` is the board of a selection of active permutations that begins with
/// `prefix`.
pub open spec fn found(graph: Graph, a: Seq<Seq<bool>>, prefix: Seq<int>, s: Seq<Seq<u8>>) -> bool {
    let sel = selection_of(graph, s);
    &&& graph.is_selection(sel)
    &&& keeps(sel, a)
    &&& sel.subrange(0, prefix.len() as int) == prefix
    &&& s == assemble(graph, sel)
}

/// The values of `s` as integers.
pub open spec fn ints(s: Seq<u8>) -> Seq<int> {
    s.map_values(|x: u8| x as int)
}

/// `x` comes before `y` in lexicographic order.
pub open spec fn lex_lt(x: Seq<int>, y: Seq<int>) -> bool {
    exists|i: int|
        0 <= i < x.len() && x.len() == y.len() && x.subrange(0, i) == y.subrange(0, i) && #[trigger] x[i] < y[i]
}

/// `cands[b]` lists the active permutations of block `b`, in increasing order.
pub open spec fn lists_active(graph: Graph, cands: Seq<Vec<usize>>, a: Seq<Seq<bool>>) -> bool {
    &&& cands.len() == graph.k * graph.k
    &&& forall|b: int, i: int, j: int|
        0 <= b < cands.len() && 0 <= i < j < cands[b]@.len() ==> (#[trigger] cands[b]@[i]) < (#[trigger] cands[b]@[j])
    &&& forall|b: int, q: usize|
        0 <= b < cands.len() ==> (#[trigger] cands[b]@.contains(q) <==> (q < graph.minigrids@[b].len()
            && a[b][q as int]))
}

/// Two sequences that agree before position `d` and differ first there.
pub proof fn lemma_lex_at(x: Seq<int>, y: Seq<int>, d: int)
    requires
        x.len() == y.len(),
        0 <= d < x.len(),
        x.subrange(0, d) == y.subrange(0, d),
        x[d] < y[d],
    ensures
        lex_lt(x, y),
{
}

/// Lexicographic order is asymmetric.
pub proof fn lemma_lex_asym(x: Seq<int>, y: Seq<int>)
    requires
        lex_lt(x, y),
    ensures
        !lex_lt(y, x),
{
    let i = choose|i: int|
        0 <= i < x.len() && x.len() == y.len() && x.subrange(0, i) == y.subrange(0, i) && #[trigger] x[i] < y[i];
    if lex_lt(y, x) {
        let i2 = choose|i2: int|
            0 <= i2 < y.len() && y.len() == x.len() && y.subrange(0, i2) == x.subrange(0, i2) && #[trigger] y[i2] < x[i2];
        if i < i2 {
            assert(y.subrange(0, i2)[i] == x.subrange(0, i2)[i]);
        } else if i2 < i {
            assert(x.subrange(0, i)[i2] == y.subrange(0, i)[i2]);
        }
    }
}

/// Lexicographic order is transitive.
pub proof fn lemma_lex_trans(x: Seq<int>, y: Seq<int>, z: Seq<int>)
    requires
        lex_lt(x, y),
        lex_lt(y, z),
    ensures
        lex_lt(x, z),
{
    let i = choose|i: int|
        0 <= i < x.len() && x.len() == y.len() && x.subrange(0, i) == y.subrange(0, i) && #[trigger] x[i] < y[i];
    let j = choose|j: int|
        0 <= j < y.len() && y.len() == z.len() && y.subrange(0, j) == z.subrange(0, j) && #[trigger] y[j] < z[j];
    if i < j {
        assert(x.subrange(0, i) =~= z.subrange(0, i)) by {
            assert forall|m: int| 0 <= m < i implies #[trigger] x.subrange(0, i)[m] == z.subrange(0, i)[m] by {
                assert(x.subrange(0, i)[m] == y.subrange(0, i)[m]);
                assert(y.subrange(0, j)[m] == z.subrange(0, j)[m]);
            }
        }
        assert(y.subrange(0, j)[i] == z.subrange(0, j)[i]);
        assert(x[i] < z[i]);
    } else if j < i {
        assert(x.subrange(0, j) =~= z.subrange(0, j)) by {
            assert forall|m: int| 0 <= m < j implies #[trigger] x.subrange(0, j)[m] == z.subrange(0, j)[m] by {
                assert(x.subrange(0, i)[m] == y.subrange(0, i)[m]);
                assert(y.subrange(0, j)[m] == z.subrange(0, j)[m]);
            }
        }
        assert(x.subrange(0, i)[j] == y.subrange(0, i)[j]);
        assert(x[j] < z[j]);
    } else {
        assert(x.subrange(0, i) =~= z.subrange(0, i)) by {
            assert forall|m: int| 0 <= m < i implies #[trigger] x.subrange(0, i)[m] == z.subrange(0, i)[m] by {
                assert(x.subrange(0, i)[m] == y.subrange(0, i)[m]);
                assert(y.subrange(0, j)[m] == z.subrange(0, j)[m]);
            }
        }
        assert(x[i] < z[i]);
    }
}

proof fn lemma_lex_total_from(x: Seq<int>, y: Seq<int>, i: int)
    requires
        x.len() == y.len(),
        0 <= i <= x.len(),
        x.subrange(0, i) == y.subrange(0, i),
        x != y,
    ensures
        lex_lt(x, y) || lex_lt(y, x),
    decreases x.len() - i,
{
    if i == x.len() {
        assert(x =~= x.subrange(0, i));
        assert(y =~= y.subrange(0, i));
    } else if x[i] != y[i] {
        if x[i] < y[i] {
            assert(lex_lt(x, y));
        } else {
            assert(y.subrange(0, i) == x.subrange(0, i));
            assert(lex_lt(y, x));
        }
    } else {
        assert(x.subrange(0, i + 1) =~= y.subrange(0, i + 1)) by {
            assert forall|m: int| 0 <= m < i + 1 implies #[trigger] x.subrange(0, i + 1)[m] == y.subrange(0, i + 1)[m] by {
                if m < i {
                    assert(x.subrange(0, i)[m] == y.subrange(0, i)[m]);
                }
            }
        }
        lemma_lex_total_from(x, y, i + 1);
    }
}

/// Lexicographic order is total on sequences of one length.
pub proof fn lemma_lex_total(x: Seq<int>, y: Seq<int>)
    requires
        x.len() == y.len(),
        x != y,
    ensures
        lex_lt(x, y) || lex_lt(y, x),
{
    assert(x.subrange(0, 0) =~= y.subrange(0, 0));
    lemma_lex_total_from(x, y, 0);
}

/// With no permutation listed twice, a board filled by a selection gives that
/// selection back.
pub proof fn lemma_selection_of(graph: Graph, sel: Seq<int>)
    requires
        graph.wf(),
        graph.distinct_perms(),
        sel.len() == graph.k * graph.k,
        forall|x: int| 0 <= x < sel.len() ==> 0 <= #[trigger] sel[x] < graph.minigrids@[x].len(),
    ensures
        selection_of(graph, assemble(graph, sel)) == sel,
{
    let k = graph.k as int;
    let s = assemble(graph, sel);
    assert forall|b: int| 0 <= b < k * k implies #[trigger] selection_of(graph, s)[b] == sel[b] by {
        lemma_assemble_block(graph, sel, b);
        assert(graph.has_vertex(b, sel[b]) && graph.perm(b, sel[b]) == block_cells(s, k, b));
        let p = selection_of(graph, s)[b];
        assert(graph.has_vertex(b, p) && graph.perm(b, p) == block_cells(s, k, b));
    }
    assert(selection_of(graph, s) =~= sel);
}

/// Block `b` of the board that `sel` fills is the permutation picked for it.
pub proof fn lemma_assemble_block(graph: Graph, sel: Seq<int>, b: int)
    requires
        graph.wf(),
        sel.len() == graph.k * graph.k,
        forall|x: int| 0 <= x < sel.len() ==> 0 <= #[trigger] sel[x] < graph.minigrids@[x].len(),
        0 <= b < graph.k * graph.k,
    ensures
        block_cells(assemble(graph, sel), graph.k as int, b) == graph.perm(b, sel[b]),
{
    let k = graph.k as int;
    let x = block_cells(assemble(graph, sel), k, b);
    let y = graph.perm(b, sel[b]);
    assert(graph.minigrids@[b]@[sel[b]].wf(k));
    assert forall|i: int| 0 <= i < k * k implies #[trigger] x[i] == y[i] by {
        crate::geometry::lemma_block_cell(k, b, i);
    }
    assert(x =~= y);
}

/// The board filled by the picks in `current`, one per block.
fn assemble_grid(graph: &Graph, current: &Vec<usize>) -> (r: Vec<Vec<u8>>)
    requires
        graph.wf(),
        current.len() == graph.k * graph.k,
        forall|b: int| 0 <= b < current.len() ==> (#[trigger] current@[b]) < graph.minigrids@[b].len(),
    ensures
        grid_of(r@) == assemble(*graph, picks(current@)),
{
    let k = graph.k;
    let n = graph.minigrids.len();
    let ghost ki = k as int;
    let ghost want = assemble(*graph, picks(current@));
    let mut rows: Vec<Vec<u8>> = Vec::new();
    let mut r: usize = 0;
    while r < n
        invariant
            graph.wf(),
            ki == k,
            k == graph.k,
            n == k * k,
            current.len() == n,
            forall|b: int| 0 <= b < current.len() ==> (#[trigger] current@[b]) < graph.minigrids@[b].len(),
            want == assemble(*graph, picks(current@)),
            r <= n,
            rows.len() == r,
            forall|x: int| 0 <= x < r ==> (#[trigger] rows@[x])@ == want[x],
        decreases n - r,
    {
        let mut row: Vec<u8> = Vec::new();
        let mut c: usize = 0;
        while c < n
            invariant
                graph.wf(),
                ki == k,
                k == graph.k,
                n == k * k,
                current.len() == n,
                forall|b: int| 0 <= b < current.len() ==> (#[trigger] current@[b]) < graph.minigrids@[b].len(),
                want == assemble(*graph, picks(current@)),
                r < n,
                c <= n,
                row.len() == c,
                forall|y: int| 0 <= y < c ==> #[trigger] row@[y] == want[r as int][y],
            decreases n - c,
        {
            proof {
                lemma_cell(ki, r as int, c as int);
            }
            let b = (r / k) * k + c / k;
            let i = (r % k) * k + c % k;
            let node = &graph.minigrids[b][current[b]];
            proof {
                assert(node.wf(ki));
            }
            row.push(node.cells[i]);
            c = c + 1;
        }
        proof {
            assert(row@ =~= want[r as int]);
        }
        rows.push(row);
        r = r + 1;
    }
    proof {
        assert(grid_of(rows@) =~= want);
    }
    rows
}

/// Appends to `solutions` the boards of the selections of active permutations
/// that extend the picks in `current`, in lexicographic order of the picks
/// (blocks in id order, each block's permutations in list order), until `cap`
/// boards are held: the first ones in that order.
fn find_solution(
    graph: &Graph,
    depth: usize,
    cands: &Vec<Vec<usize>>,
    current: &mut Vec<usize>,
    solutions: &mut Vec<Vec<Vec<u8>>>,
    cap: usize,
    Ghost(a): Ghost<Seq<Seq<bool>>>,
)
    requires
        graph.wf(),
        graph.distinct_perms(),
        fits(*graph, a),
        lists_active(*graph, cands@, a),
        depth <= graph.k * graph.k,
        old(current).len() == depth,
        consistent(*graph, picks(old(current)@)),
        keeps(picks(old(current)@), a),
    ensures
        final(current)@ == old(current)@,
        final(solutions).len() >= old(solutions).len(),
        old(solutions).len() <= cap ==> final(solutions).len() <= cap,
        forall|t: int| 0 <= t < old(solutions).len() ==> #[trigger] final(solutions)@[t] == old(solutions)@[t],
        forall|t: int|
            old(solutions).len() <= t < final(solutions).len() ==> #[trigger] found(
                *graph,
                a,
                picks(old(current)@),
                grid_of(final(solutions)@[t]@),
            ),
        forall|t1: int, t2: int|
            old(solutions).len() <= t1 < t2 < final(solutions).len() ==> lex_lt(
                #[trigger] selection_at(*graph, final(solutions)@, t1),
                #[trigger] selection_at(*graph, final(solutions)@, t2),
            ),
        forall|sel: Seq<int>|
            #[trigger] graph.is_selection(sel) && keeps(sel, a) && sel.subrange(0, depth as int) == picks(
                old(current)@,
            ) && (final(solutions).len() < cap || (final(solutions).len() > old(solutions).len() && lex_lt(
                sel,
                selection_at(*graph, final(solutions)@, final(solutions).len() - 1),
            ))) ==> exists|t: int|
                old(solutions).len() <= t < final(solutions).len() && grid_of(#[trigger] final(solutions)@[t]@)
                    == assemble(*graph, sel),
    decreases graph.k * graph.k - depth,
{
    let ghost cur = picks(current@);
    let ghost start = solutions@.len();
    let n = graph.minigrids.len();
    if solutions.len() >= cap {
        return;
    }
    if depth == n {
        proof {
            assert forall|b: int| 0 <= b < current.len() implies (#[trigger] current@[b]) < graph.minigrids@[b].len() by {
                assert(cur[b] == current@[b] as int);
            }
        }
        let grid = assemble_grid(graph, current);
        solutions.push(grid);
        proof {
            assert(cur.subrange(0, depth as int) =~= cur);
            assert(graph.is_selection(cur));
            assert(grid_of(solutions@[start as int]@) == assemble(*graph, cur));
            lemma_selection_of(*graph, cur);
            assert(found(*graph, a, cur, grid_of(solutions@[start as int]@)));
            assert forall|sel: Seq<int>|
                #[trigger] graph.is_selection(sel) && keeps(sel, a) && sel.subrange(0, depth as int) == cur
                implies exists|t: int| start <= t < solutions@.len() && grid_of(#[trigger] solutions@[t]@) == assemble(*graph, sel) by {
                assert(sel =~= sel.subrange(0, depth as int));
                assert(grid_of(solutions@[start as int]@) == assemble(*graph, sel));
            }
        }
        return;
    }
    let list = &cands[depth];
    proof {
        assert forall|i: int| 0 <= i < list@.len() implies (#[trigger] list@[i]) < graph.minigrids@[depth as int].len() by {
            assert(cands@[depth as int]@.contains(list@[i]));
        }
    }
    let mut j: usize = 0;
    while j < list.len()
        invariant
            graph.wf(),
            graph.distinct_perms(),
            forall|i: int| 0 <= i < list@.len() ==> (#[trigger] list@[i]) < graph.minigrids@[depth as int].len(),
            forall|i1: int, i2: int| 0 <= i1 < i2 < list@.len() ==> (#[trigger] list@[i1]) < (#[trigger] list@[i2]),
            fits(*graph, a),
            lists_active(*graph, cands@, a),
            n == graph.minigrids.len(),
            n == graph.k * graph.k,
            depth < n,
            list@ == cands@[depth as int]@,
            j <= list.len(),
            current@ == old(current)@,
            current.len() == depth,
            cur == picks(current@),
            consistent(*graph, cur),
            keeps(cur, a),
            start == old(solutions).len(),
            solutions.len() >= start,
            solutions.len() < cap,
            forall|t: int| 0 <= t < start ==> #[trigger] solutions@[t] == old(solutions)@[t],
            forall|t: int| start <= t < solutions.len() ==> #[trigger] found(*graph, a, cur, grid_of(solutions@[t]@)),
            forall|t: int|
                start <= t < solutions.len() && j < list@.len() ==> (#[trigger] selection_at(*graph, solutions@, t))[depth as int]
                    < list@[j as int],
            forall|t1: int, t2: int|
                start <= t1 < t2 < solutions.len() ==> lex_lt(
                    #[trigger] selection_at(*graph, solutions@, t1),
                    #[trigger] selection_at(*graph, solutions@, t2),
                ),
            forall|sel: Seq<int>|
                #[trigger] graph.is_selection(sel) && keeps(sel, a) && sel.subrange(0, depth as int) == cur
                    && list@.subrange(0, j as int).contains(sel[depth as int] as usize) ==> exists|t: int|
                    start <= t < solutions.len() && grid_of(#[trigger] solutions@[t]@) == assemble(*graph, sel),
        decreases list.len() - j,
    {
        let p = list[j];
        proof {
            assert(list@.contains(p));
            assert(cands@[depth as int]@.contains(p));
        }
        let mut ok = true;
        let mut prev: usize = 0;
        while prev < depth && ok
            invariant
                graph.wf(),
                n == graph.k * graph.k,
                depth < n,
                p < graph.minigrids@[depth as int].len(),
                prev <= depth,
                current@ == old(current)@,
                current.len() == depth,
                cur == picks(current@),
                consistent(*graph, cur),
                ok ==> forall|x: int|
                    0 <= x < prev && relation_of(graph.k as int, depth as int, x) != Relation::Not
                        ==> #[trigger] graph.linked(depth as int, p as int, x, cur[x]),
                !ok ==> exists|x: int|
                    0 <= x < depth && relation_of(graph.k as int, depth as int, x) != Relation::Not
                        && !#[trigger] graph.linked(depth as int, p as int, x, cur[x]),
            decreases depth - prev,
        {
            proof {
                assert(cur[prev as int] == current@[prev as int] as int);
            }
            if graph.relationship(depth, prev) != Relation::Not {
                if !graph.check_pair(depth, p, prev, current[prev]) {
                    ok = false;
                }
            }
            prev = prev + 1;
        }
        let ghost before_len = solutions@.len();
        let ghost prev_sols = solutions@;
        if ok {
            current.push(p);
            proof {
                let nxt = picks(current@);
                assert(nxt =~= cur.push(p as int));
                assert forall|x: int, y: int|
                    0 <= x < nxt.len() && 0 <= y < nxt.len() && relation_of(graph.k as int, x, y) != Relation::Not
                    implies #[trigger] graph.linked(x, nxt[x], y, nxt[y]) by {
                    if x == depth && y < depth {
                        assert(graph.linked(depth as int, p as int, y, cur[y]));
                    } else if y == depth && x < depth {
                        assert(relation_of(graph.k as int, depth as int, x) != Relation::Not);
                        assert(graph.linked(depth as int, p as int, x, cur[x]));
                        lemma_linked_symmetric(*graph, x, cur[x], depth as int, p as int);
                    } else if x < depth && y < depth {
                        assert(nxt[x] == cur[x] && nxt[y] == cur[y]);
                        assert(graph.linked(x, cur[x], y, cur[y]));
                    }
                }
                assert(consistent(*graph, nxt));
                assert(keeps(nxt, a));
            }
            find_solution(graph, depth + 1, cands, current, solutions, cap, Ghost(a));
            current.pop();
            proof {
                assert(current@ =~= old(current)@);
                let nxt = cur.push(p as int);
                assert forall|t: int| 0 <= t < before_len implies #[trigger] solutions@[t] == prev_sols[t] by {}
                assert forall|t: int|
                    before_len <= t < solutions.len() implies found(*graph, a, cur, grid_of(solutions@[t]@))
                        && (#[trigger] selection_at(*graph, solutions@, t))[depth as int] == p as int by {
                    assert(found(*graph, a, nxt, grid_of(solutions@[t]@)));
                    let sel = selection_at(*graph, solutions@, t);
                    assert(sel.subrange(0, depth as int) =~= nxt.subrange(0, depth as int));
                    assert(nxt.subrange(0, depth as int) =~= cur);
                    assert(sel.subrange(0, depth + 1)[depth as int] == sel[depth as int]);
                }
                assert forall|t: int| start <= t < solutions.len() implies #[trigger] found(*graph, a, cur, grid_of(solutions@[t]@)) by {
                    if t < before_len {
                        assert(solutions@[t] == prev_sols[t]);
                    } else {
                        assert(selection_at(*graph, solutions@, t)[depth as int] == p as int);
                    }
                }
                assert forall|t1: int, t2: int|
                    start <= t1 < t2 < solutions.len() implies lex_lt(
                        #[trigger] selection_at(*graph, solutions@, t1),
                        #[trigger] selection_at(*graph, solutions@, t2),
                    ) by {
                    if t2 < before_len {
                        assert(solutions@[t1] == prev_sols[t1]);
                        assert(solutions@[t2] == prev_sols[t2]);
                        assert(selection_at(*graph, solutions@, t1) == selection_at(*graph, prev_sols, t1));
                        assert(selection_at(*graph, solutions@, t2) == selection_at(*graph, prev_sols, t2));
                    } else if t1 < before_len {
                        assert(solutions@[t1] == prev_sols[t1]);
                        let x = selection_at(*graph, solutions@, t1);
                        let y = selection_at(*graph, solutions@, t2);
                        assert(x == selection_at(*graph, prev_sols, t1));
                        assert(found(*graph, a, cur, grid_of(solutions@[t1]@)));
                        assert(found(*graph, a, cur, grid_of(solutions@[t2]@)));
                        assert(x[depth as int] < p);
                        assert(y[depth as int] == p);
                        lemma_lex_at(x, y, depth as int);
                    }
                }
                if j + 1 < list@.len() {
                    assert(list@[j as int] < list@[j + 1]);
                    assert forall|t: int|
                        start <= t < solutions.len() implies (#[trigger] selection_at(*graph, solutions@, t))[depth as int]
                            < list@[j + 1] by {
                        if t < before_len {
                            assert(solutions@[t] == prev_sols[t]);
                            assert(selection_at(*graph, solutions@, t) == selection_at(*graph, prev_sols, t));
                        }
                    }
                }
                assert forall|sel: Seq<int>|
                    #[trigger] graph.is_selection(sel) && keeps(sel, a) && sel.subrange(0, depth as int) == cur
                        && list@.subrange(0, j as int).contains(sel[depth as int] as usize) implies exists|t: int|
                        start <= t < solutions.len() && grid_of(#[trigger] solutions@[t]@) == assemble(*graph, sel) by {
                    let t = choose|t: int|
                        start <= t < before_len && grid_of(#[trigger] prev_sols[t]@) == assemble(*graph, sel);
                    assert(solutions@[t] == prev_sols[t]);
                }
                if solutions.len() < cap {
                    assert forall|sel: Seq<int>|
                        #[trigger] graph.is_selection(sel) && keeps(sel, a) && sel.subrange(0, depth as int) == cur
                            && list@.subrange(0, j + 1).contains(sel[depth as int] as usize) implies exists|t: int|
                            start <= t < solutions.len() && grid_of(#[trigger] solutions@[t]@) == assemble(*graph, sel) by {
                        let i = choose|i: int| 0 <= i < j + 1 && #[trigger] list@.subrange(0, j + 1)[i] == sel[depth as int] as usize;
                        if i < j {
                            assert(list@.subrange(0, j as int)[i] == sel[depth as int] as usize);
                        } else {
                            assert(sel[depth as int] == p as int);
                            assert(sel.subrange(0, depth + 1) =~= nxt);
                        }
                    }
                } else {
                    let last = solutions.len() - 1;
                    assert(last >= before_len);
                    assert forall|sel: Seq<int>|
                        #[trigger] graph.is_selection(sel) && keeps(sel, a) && sel.subrange(0, depth as int) == cur
                            && lex_lt(sel, selection_at(*graph, solutions@, last)) implies exists|t: int|
                            start <= t < solutions.len() && grid_of(#[trigger] solutions@[t]@) == assemble(*graph, sel) by {
                        assert(a[depth as int][sel[depth as int]]);
                        assert(cands@[depth as int]@.contains(sel[depth as int] as usize));
                        let i = choose|i: int| 0 <= i < list@.len() && list@[i] == sel[depth as int] as usize;
                        let y = selection_at(*graph, solutions@, last);
                        assert(y[depth as int] == p as int);
                        if i < j {
                            assert(list@.subrange(0, j as int)[i] == sel[depth as int] as usize);
                        } else if i == j {
                            assert(sel[depth as int] == p as int);
                            assert(sel.subrange(0, depth + 1) =~= nxt);
                        } else {
                            assert(list@[j as int] < list@[i]);
                            assert(found(*graph, a, cur, grid_of(solutions@[last]@)));
                            lemma_lex_at(y, sel, depth as int);
                            lemma_lex_asym(y, sel);
                        }
                    }
                }
            }
            if solutions.len() >= cap {
                return;
            }
        } else {
            proof {
                assert forall|sel: Seq<int>|
                    #[trigger] graph.is_selection(sel) && keeps(sel, a) && sel.subrange(0, depth as int) == cur
                        && list@.subrange(0, j + 1).contains(sel[depth as int] as usize) implies exists|t: int|
                        start <= t < solutions.len() && grid_of(#[trigger] solutions@[t]@) == assemble(*graph, sel) by {
                    let i = choose|i: int| 0 <= i < j + 1 && #[trigger] list@.subrange(0, j + 1)[i] == sel[depth as int] as usize;
                    if i < j {
                        assert(list@.subrange(0, j as int)[i] == sel[depth as int] as usize);
                    } else {
                        assert(sel[depth as int] == p as int);
                        let x = choose|x: int|
                            0 <= x < depth && relation_of(graph.k as int, depth as int, x) != Relation::Not
                                && !#[trigger] graph.linked(depth as int, p as int, x, cur[x]);
                        assert(sel.subrange(0, depth as int)[x] == sel[x]);
                        assert(graph.linked(depth as int, sel[depth as int], x, sel[x]));
                    }
                }
                if j + 1 < list@.len() {
                    assert(list@[j as int] < list@[j + 1]);
                }
            }
        }
        j = j + 1;
    }
    proof {
        assert forall|sel: Seq<int>|
            #[trigger] graph.is_selection(sel) && keeps(sel, a) && sel.subrange(0, depth as int) == cur implies exists|t: int|
                start <= t < solutions.len() && grid_of(#[trigger] solutions@[t]@) == assemble(*graph, sel) by {
            assert(a[depth as int][sel[depth as int]]);
            assert(cands@[depth as int]@.contains(sel[depth as int] as usize));
            assert(list@.subrange(0, j as int) =~= list@);
        }
    }
}

/// The boards of the selections of active permutations, in lexicographic
/// order of the picks (blocks in id order, each block's active permutations in
/// list order, which is index order): the first `cap` of them, or all when
/// there are fewer. None when some block has no active permutation.
pub fn extract_solution(graph: &Graph, active: &Vec<Vec<bool>>, cap: usize) -> (r: Vec<Vec<Vec<u8>>>)
    requires
        graph.wf(),
        graph.distinct_perms(),
        fits(*graph, flags_of(active@)),
    ensures
        r.len() <= cap,
        forall|t: int|
            0 <= t < r.len() ==> #[trigger] found(*graph, flags_of(active@), Seq::<int>::empty(), grid_of(r@[t]@)),
        forall|t1: int, t2: int|
            0 <= t1 < t2 < r.len() ==> lex_lt(
                #[trigger] selection_at(*graph, r@, t1),
                #[trigger] selection_at(*graph, r@, t2),
            ),
        forall|sel: Seq<int>|
            #[trigger] graph.is_selection(sel) && keeps(sel, flags_of(active@)) && (r.len() < cap || (r.len() > 0
                && lex_lt(sel, selection_at(*graph, r@, r.len() - 1)))) ==> exists|t: int|
                0 <= t < r.len() && grid_of(#[trigger] r@[t]@) == assemble(*graph, sel),
        forall|t1: int, t2: int|
            0 <= t1 < r.len() && 0 <= t2 < r.len() && t1 != t2 ==> grid_of((#[trigger] r@[t1])@) != grid_of(
                (#[trigger] r@[t2])@,
            ),
{
    let ghost a = flags_of(active@);
    let n = graph.minigrids.len();
    let mut cands: Vec<Vec<usize>> = Vec::new();
    let mut any_empty = false;
    let mut b: usize = 0;
    while b < n
        invariant
            graph.wf(),
            fits(*graph, a),
            a == flags_of(active@),
            n == graph.minigrids.len(),
            b <= n,
            cands.len() == b,
            forall|x: int, q: usize|
                0 <= x < b ==> (#[trigger] cands@[x]@.contains(q) <==> (q < graph.minigrids@[x].len() && a[x][q as int])),
            forall|x: int, i: int, j: int|
                0 <= x < b && 0 <= i < j < cands@[x]@.len() ==> (#[trigger] cands@[x]@[i]) < (#[trigger] cands@[x]@[j]),
            any_empty ==> exists|x: int| 0 <= x < b && (#[trigger] cands@[x])@.len() == 0,
        decreases n - b,
    {
        let len = graph.minigrids[b].len();
        let mut list: Vec<usize> = Vec::new();
        let mut p: usize = 0;
        proof {
            assert(a[b as int] == active@[b as int]@);
        }
        while p < len
            invariant
                graph.wf(),
                fits(*graph, a),
                a == flags_of(active@),
                n == graph.minigrids.len(),
                b < n,
                len == graph.minigrids@[b as int].len(),
                a[b as int] == active@[b as int]@,
                p <= len,
                forall|q: usize| #[trigger] list@.contains(q) <==> (q < p && a[b as int][q as int]),
                forall|i: int| 0 <= i < list@.len() ==> (#[trigger] list@[i]) < p,
                forall|i: int, j: int| 0 <= i < j < list@.len() ==> (#[trigger] list@[i]) < (#[trigger] list@[j]),
            decreases len - p,
        {
            let ghost l0 = list@;
            if active[b][p] {
                list.push(p);
                proof {
                    assert(list@[l0.len() as int] == p);
                    assert forall|q: usize| #[trigger] list@.contains(q) implies l0.contains(q) || q == p by {
                        let i = choose|i: int| 0 <= i < list@.len() && list@[i] == q;
                        if i < l0.len() {
                            assert(l0[i] == q);
                        }
                    }
                    assert forall|q: usize| l0.contains(q) implies #[trigger] list@.contains(q) by {
                        let i = choose|i: int| 0 <= i < l0.len() && l0[i] == q;
                        assert(list@[i] == q);
                    }
                }
            }
            p = p + 1;
        }
        let ghost c0 = cands@;
        let ghost was_empty = any_empty;
        if list.len() == 0 {
            any_empty = true;
        }
        cands.push(list);
        proof {
            assert(cands@[b as int]@ == list@);
            if any_empty {
                if list@.len() == 0 {
                    assert(cands@[b as int]@.len() == 0);
                } else {
                    assert(was_empty);
                    let x = choose|x: int| 0 <= x < b && (#[trigger] c0[x])@.len() == 0;
                    assert(cands@[x] == c0[x]);
                }
            }
        }
        b = b + 1;
    }
    let mut solutions: Vec<Vec<Vec<u8>>> = Vec::new();
    if any_empty {
        proof {
            assert forall|sel: Seq<int>| #[trigger] graph.is_selection(sel) && keeps(sel, a) implies false by {
                let x = choose|x: int| 0 <= x < n && (#[trigger] cands@[x])@.len() == 0;
                assert(a[x][sel[x]]);
                assert(cands@[x]@.contains(sel[x] as usize));
            }
        }
        return solutions;
    }
    let mut current: Vec<usize> = Vec::new();
    proof {
        assert(picks(current@) =~= Seq::<int>::empty());
        assert forall|sel: Seq<int>| #[trigger] graph.is_selection(sel) implies sel.subrange(0, 0) == picks(current@) by {
            assert(sel.subrange(0, 0) =~= Seq::<int>::empty());
        }
    }
    find_solution(graph, 0, &cands, &mut current, &mut solutions, cap, Ghost(a));
    proof {
        assert forall|t1: int, t2: int|
            0 <= t1 < solutions.len() && 0 <= t2 < solutions.len() && t1 != t2 implies grid_of(
                (#[trigger] solutions@[t1])@,
            ) != grid_of((#[trigger] solutions@[t2])@) by {
            if grid_of(solutions@[t1]@) == grid_of(solutions@[t2]@) {
                let x = selection_at(*graph, solutions@, t1);
                assert(x == selection_at(*graph, solutions@, t2));
                if t1 < t2 {
                    assert(lex_lt(x, selection_at(*graph, solutions@, t2)));
                } else {
                    assert(lex_lt(selection_at(*graph, solutions@, t2), x));
                }
                lemma_lex_asym(x, x);
            }
        }
    }
    solutions
}

} // verus!
