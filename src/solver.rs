use crate::board::{filled, grid_of, is_solution, no_duplicates, shaped, Board, SolveError};
use crate::extract::{
    assemble, extract_solution, found, ints, lemma_assemble_block, lemma_lex_asym, lemma_lex_total, lemma_lex_trans,
    lex_lt, selection_at, selection_of,
};
use crate::geometry::{block_col, block_row, box_of, lemma_block_cell, lemma_cell, lemma_join, lemma_split, peers, rel_of};
use crate::graph::{relation_of, Graph, Relation};
use crate::masks::{before, Masks};
use crate::minigrid::{block_cells, conflict_at, is_candidate, lists_block, permutations_of};
use crate::node::{cols_compatible, rows_compatible, PermutationNode};
use crate::pruner::{fits, flags_of, is_stable, keeps, prune, within};
use rayon::iter::{IntoParallelIterator, ParallelIterator};
use vstd::prelude::*;

verus! {

/// Block `b` of every vertex is a filling of block `b` of `g`, and every such
/// filling is a vertex.
pub open spec fn enumerates(graph: Graph, g: Seq<Seq<u8>>) -> bool {
    &&& forall|b: int, p: int| #[trigger] graph.has_vertex(b, p) ==> is_candidate(g, graph.k as int, b, graph.perm(b, p))
    &&& forall|b: int, f: Seq<u8>|
        0 <= b < graph.k * graph.k && #[trigger] is_candidate(g, graph.k as int, b, f) ==> exists|p: int|
            #[trigger] graph.has_vertex(b, p) && graph.perm(b, p) == f
}

/// The boards of a list of solutions.
pub open spec fn boards_of(sols: Seq<Vec<Vec<u8>>>) -> Seq<Seq<Seq<u8>>> {
    sols.map_values(|s: Vec<Vec<u8>>| grid_of(s@))
}

/// A board read block by block, each block row by row: the order in which
/// solutions are reported.
pub open spec fn board_key(s: Seq<Seq<u8>>, k: int) -> Seq<int> {
    Seq::new((k * k * (k * k)) as nat, |j: int| block_cells(s, k, j / (k * k))[j % (k * k)] as int)
}

/// What a solve of `g` reports with at most `cap` boards: solutions, in
/// increasing order of their keys, and every solution whose key comes before
/// the last one's; every solution when it reports fewer than `cap`. These are
/// the first `cap` solutions in key order, or all of them.
pub open spec fn reports(g: Seq<Seq<u8>>, k: int, cap: int, sols: Seq<Seq<Seq<u8>>>) -> bool {
    &&& sols.len() <= cap
    &&& forall|t: int| 0 <= t < sols.len() ==> is_solution(#[trigger] sols[t], g, k)
    &&& forall|t1: int, t2: int|
        0 <= t1 < t2 < sols.len() ==> lex_lt(board_key(#[trigger] sols[t1], k), board_key(#[trigger] sols[t2], k))
    &&& forall|s: Seq<Seq<u8>>|
        #[trigger] is_solution(s, g, k) && (sols.len() < cap || (sols.len() > 0 && lex_lt(
            board_key(s, k),
            board_key(sols[sols.len() - 1], k),
        ))) ==> sols.contains(s)
}

/// With each block's permutations in increasing order of cells, selections in
/// lexicographic order fill boards in key order.
pub proof fn lemma_key_order(graph: Graph, x: Seq<int>, y: Seq<int>)
    requires
        graph.wf(),
        graph.sorted_perms(),
        x.len() == graph.k * graph.k,
        y.len() == graph.k * graph.k,
        forall|b: int| 0 <= b < x.len() ==> 0 <= #[trigger] x[b] < graph.minigrids@[b].len(),
        forall|b: int| 0 <= b < y.len() ==> 0 <= #[trigger] y[b] < graph.minigrids@[b].len(),
        lex_lt(x, y),
    ensures
        lex_lt(board_key(assemble(graph, x), graph.k as int), board_key(assemble(graph, y), graph.k as int)),
{
    let k = graph.k as int;
    let n = k * k;
    let d = choose|d: int|
        0 <= d < x.len() && x.len() == y.len() && x.subrange(0, d) == y.subrange(0, d) && #[trigger] x[d] < y[d];
    let p1 = graph.perm(d, x[d]);
    let p2 = graph.perm(d, y[d]);
    assert(graph.has_vertex(d, x[d]) && graph.has_vertex(d, y[d]));
    assert(lex_lt(ints(p1), ints(p2)));
    let i = choose|i: int|
        0 <= i < ints(p1).len() && ints(p1).len() == ints(p2).len() && ints(p1).subrange(0, i) == ints(p2).subrange(0, i)
            && #[trigger] ints(p1)[i] < ints(p2)[i];
    assert(graph.minigrids@[d]@[x[d]].wf(k));
    let ka = board_key(assemble(graph, x), k);
    let kb = board_key(assemble(graph, y), k);
    lemma_join(n, d, i);
    let j = d * n + i;
    lemma_assemble_block(graph, x, d);
    lemma_assemble_block(graph, y, d);
    assert forall|m: int| 0 <= m < j implies #[trigger] ka.subrange(0, j)[m] == kb.subrange(0, j)[m] by {
        lemma_split(n, m);
        let b = m / n;
        let o = m % n;
        if b > d {
            assert(m >= d * n + n) by (nonlinear_arith)
                requires
                    m == b * n + o,
                    b >= d + 1,
                    o >= 0,
                    n >= 0,
            ;
        }
        if b < d {
            assert(x.subrange(0, d)[b] == y.subrange(0, d)[b]);
            lemma_assemble_block(graph, x, b);
            lemma_assemble_block(graph, y, b);
        } else {
            assert(b == d);
            assert(ints(p1).subrange(0, i)[o] == ints(p2).subrange(0, i)[o]);
        }
    }
    assert(ka.subrange(0, j) =~= kb.subrange(0, j));
    assert(ka[j] < kb[j]);
}

/// Two boards of one shape with the same key are the same board.
pub proof fn lemma_key_injective(s1: Seq<Seq<u8>>, s2: Seq<Seq<u8>>, k: int)
    requires
        1 <= k,
        shaped(s1, k),
        shaped(s2, k),
        board_key(s1, k) == board_key(s2, k),
    ensures
        s1 == s2,
{
    let n = k * k;
    assert forall|r: int| 0 <= r < n implies #[trigger] s1[r] == s2[r] by {
        assert forall|c: int| 0 <= c < n implies #[trigger] s1[r][c] == s2[r][c] by {
            lemma_cell(k, r, c);
            let b = box_of(k, r, c);
            let i = rel_of(k, r, c);
            lemma_join(n, b, i);
            let j = b * n + i;
            assert(block_cells(s1, k, b)[i] == s1[r][c]);
            assert(block_cells(s2, k, b)[i] == s2[r][c]);
            assert(board_key(s1, k)[j] == s1[r][c] as int);
            assert(board_key(s2, k)[j] == s2[r][c] as int);
        }
        assert(s1[r] =~= s2[r]);
    }
    assert(s1 =~= s2);
}

/// Where two reports agree before position `i`, the board of the first there
/// does not come before the board of the second.
proof fn lemma_no_smaller(
    g: Seq<Seq<u8>>,
    k: int,
    cap: int,
    first: Seq<Seq<Seq<u8>>>,
    second: Seq<Seq<Seq<u8>>>,
    i: int,
)
    requires
        reports(g, k, cap, first),
        reports(g, k, cap, second),
        0 <= i < first.len(),
        i < second.len(),
        forall|m: int| 0 <= m < i ==> #[trigger] first[m] == second[m],
    ensures
        !lex_lt(board_key(first[i], k), board_key(second[i], k)),
{
    let x = first[i];
    if !lex_lt(board_key(first[i], k), board_key(second[i], k)) {
        return;
    }
    let last = second.len() - 1;
    assert(is_solution(x, g, k));
    if i < last {
        lemma_lex_trans(board_key(x, k), board_key(second[i], k), board_key(second[last], k));
    }
    assert(second.contains(x));
    let j = choose|j: int| 0 <= j < second.len() && second[j] == x;
    if j < i {
        assert(first[j] == x);
        lemma_lex_asym(board_key(x, k), board_key(x, k));
    } else if j == i {
        lemma_lex_asym(board_key(x, k), board_key(x, k));
    } else {
        assert(lex_lt(board_key(second[i], k), board_key(second[j], k)));
        lemma_lex_asym(board_key(x, k), board_key(second[i], k));
    }
}

proof fn lemma_agree_upto(
    g: Seq<Seq<u8>>,
    k: int,
    cap: int,
    first: Seq<Seq<Seq<u8>>>,
    second: Seq<Seq<Seq<u8>>>,
    i: int,
)
    requires
        1 <= k,
        reports(g, k, cap, first),
        reports(g, k, cap, second),
        0 <= i <= first.len(),
        i <= second.len(),
    ensures
        forall|m: int| 0 <= m < i ==> #[trigger] first[m] == second[m],
    decreases i,
{
    if i > 0 {
        lemma_agree_upto(g, k, cap, first, second, i - 1);
        let x = first[i - 1];
        let y = second[i - 1];
        assert(is_solution(x, g, k) && is_solution(y, g, k));
        if x != y {
            if board_key(x, k) == board_key(y, k) {
                lemma_key_injective(x, y, k);
            }
            lemma_lex_total(board_key(x, k), board_key(y, k));
            if lex_lt(board_key(x, k), board_key(y, k)) {
                lemma_no_smaller(g, k, cap, first, second, i - 1);
            } else {
                lemma_no_smaller(g, k, cap, second, first, i - 1);
            }
        }
    }
}

/// A report that is a prefix of another is all of it: a report shorter than
/// `cap` holds every solution.
proof fn lemma_no_longer(
    g: Seq<Seq<u8>>,
    k: int,
    cap: int,
    first: Seq<Seq<Seq<u8>>>,
    second: Seq<Seq<Seq<u8>>>,
)
    requires
        reports(g, k, cap, first),
        reports(g, k, cap, second),
        first.len() <= second.len(),
        forall|m: int| 0 <= m < first.len() ==> #[trigger] first[m] == second[m],
    ensures
        first.len() == second.len(),
{
    if first.len() == second.len() {
        return;
    }
    let y = second[first.len() as int];
    assert(is_solution(y, g, k));
    assert(first.contains(y));
    let j = choose|j: int| 0 <= j < first.len() && first[j] == y;
    assert(second[j] == y);
    assert(lex_lt(board_key(second[j], k), board_key(second[first.len() as int], k)));
    lemma_lex_asym(board_key(y, k), board_key(y, k));
}

/// The board a selection fills solves `g`.
pub proof fn lemma_assembled_solution(graph: Graph, g: Seq<Seq<u8>>, sel: Seq<int>)
    requires
        graph.wf(),
        enumerates(graph, g),
        graph.is_selection(sel),
    ensures
        is_solution(assemble(graph, sel), g, graph.k as int),
{
    let k = graph.k as int;
    let n = k * k;
    let s = assemble(graph, sel);
    assert forall|r: int, c: int| 0 <= r < n && 0 <= c < n implies 1 <= #[trigger] s[r][c] <= n
        && (g[r][c] != 0 ==> s[r][c] == g[r][c]) by {
        lemma_cell(k, r, c);
        let b = box_of(k, r, c);
        let i = rel_of(k, r, c);
        assert(graph.has_vertex(b, sel[b]));
        let f = graph.perm(b, sel[b]);
        assert(is_candidate(g, k, b, f));
        assert(s[r][c] == f[i]);
        assert(block_cells(g, k, b)[i] == g[r][c]);
    }
    assert forall|r: int| 0 <= r < n implies (#[trigger] s[r]).len() == n by {}
    assert forall|r1: int, c1: int, r2: int, c2: int|
        0 <= r1 < n && 0 <= c1 < n && 0 <= r2 < n && 0 <= c2 < n && peers(k, r1, c1, r2, c2) && #[trigger] s[r1][c1] != 0
        implies s[r1][c1] != #[trigger] s[r2][c2] by {
        lemma_cell(k, r1, c1);
        lemma_cell(k, r2, c2);
        let b1 = box_of(k, r1, c1);
        let b2 = box_of(k, r2, c2);
        let i1 = rel_of(k, r1, c1);
        let i2 = rel_of(k, r2, c2);
        assert(graph.has_vertex(b1, sel[b1]));
        assert(graph.has_vertex(b2, sel[b2]));
        let f1 = graph.perm(b1, sel[b1]);
        let f2 = graph.perm(b2, sel[b2]);
        assert(s[r1][c1] == f1[i1]);
        assert(s[r2][c2] == f2[i2]);
        if b1 == b2 {
            assert(is_candidate(g, k, b1, f1));
            assert(i1 != i2);
        } else if r1 == r2 {
            assert(relation_of(k, b1, b2) == Relation::Row);
            assert(graph.linked(b1, sel[b1], b2, sel[b2]));
            assert(rows_compatible(k, f1, f2));
        } else {
            assert(c1 == c2);
            assert(relation_of(k, b1, b2) == Relation::Col);
            assert(graph.linked(b1, sel[b1], b2, sel[b2]));
            assert(cols_compatible(k, f1, f2));
        }
    }
}

/// Each block of a solution of `g` is a filling of that block of `g`.
proof fn lemma_block_candidate(g: Seq<Seq<u8>>, k: int, s: Seq<Seq<u8>>, b: int)
    requires
        1 <= k,
        shaped(g, k),
        is_solution(s, g, k),
        0 <= b < k * k,
    ensures
        is_candidate(g, k, b, block_cells(s, k, b)),
{
    let n = k * k;
    let f = block_cells(s, k, b);
    assert forall|i: int| 0 <= i < n implies 1 <= #[trigger] f[i] <= n && (block_cells(g, k, b)[i] != 0
        ==> f[i] == block_cells(g, k, b)[i]) by {
        lemma_block_cell(k, b, i);
    }
    assert forall|i: int| 0 <= i < n && block_cells(g, k, b)[i] == 0 implies !(#[trigger] conflict_at(g, k, b, i)).contains(
        (f[i] - 1) as nat,
    ) by {
        lemma_block_cell(k, b, i);
        let r = block_row(k, b, i);
        let c = block_col(k, b, i);
        let x = (f[i] - 1) as nat;
        assert(f[i] == s[r][c]);
        assert(g[r][c] == 0);
        if crate::masks::row_used(g, k, r).contains(x) {
            let c2 = choose|c2: int| 0 <= c2 < n && before(r, c2, n, 0) && #[trigger] g[r][c2] == x + 1;
            assert(s[r][c2] == g[r][c2]);
            assert(peers(k, r, c2, r, c));
        } else if crate::masks::col_used(g, k, c).contains(x) {
            let r2 = choose|r2: int| 0 <= r2 < n && before(r2, c, n, 0) && #[trigger] g[r2][c] == x + 1;
            assert(s[r2][c] == g[r2][c]);
            assert(peers(k, r2, c, r, c));
        } else if crate::masks::box_used(g, k, box_of(k, r, c)).contains(x) {
            let (r2, c2) = choose|r2: int, c2: int|
                0 <= r2 < n && 0 <= c2 < n && before(r2, c2, n, 0) && box_of(k, r2, c2) == box_of(k, r, c)
                    && #[trigger] g[r2][c2] == x + 1;
            lemma_cell(k, r2, c2);
            lemma_cell(k, r, c);
            assert(s[r2][c2] == g[r2][c2]);
            assert(peers(k, r2, c2, r, c));
        }
    }
    assert forall|i: int, j: int| 0 <= i < n && 0 <= j < n && i != j implies #[trigger] f[i] != #[trigger] f[j] by {
        lemma_block_cell(k, b, i);
        lemma_block_cell(k, b, j);
        assert(peers(k, block_row(k, b, i), block_col(k, b, i), block_row(k, b, j), block_col(k, b, j)));
        assert(f[i] == s[block_row(k, b, i)][block_col(k, b, i)]);
        assert(f[j] == s[block_row(k, b, j)][block_col(k, b, j)]);
    }
}

/// Every solution of `g` is the board of some selection.
pub proof fn lemma_solution_selection(graph: Graph, g: Seq<Seq<u8>>, s: Seq<Seq<u8>>)
    requires
        graph.wf(),
        enumerates(graph, g),
        shaped(g, graph.k as int),
        is_solution(s, g, graph.k as int),
    ensures
        exists|sel: Seq<int>| #[trigger] graph.is_selection(sel) && assemble(graph, sel) == s,
{
    let k = graph.k as int;
    let n = k * k;
    let sel = Seq::new(
        n as nat,
        |b: int| choose|p: int| #[trigger] graph.has_vertex(b, p) && graph.perm(b, p) == block_cells(s, k, b),
    );
    assert forall|b: int| 0 <= b < n implies #[trigger] graph.has_vertex(b, sel[b]) && graph.perm(b, sel[b])
        == block_cells(s, k, b) by {
        lemma_block_candidate(g, k, s, b);
    }
    assert forall|a: int, b: int|
        0 <= a < sel.len() && 0 <= b < sel.len() && relation_of(k, a, b) != Relation::Not
        implies #[trigger] graph.linked(a, sel[a], b, sel[b]) by {
        assert(graph.has_vertex(a, sel[a]) && graph.has_vertex(b, sel[b]));
        let p = block_cells(s, k, a);
        let q = block_cells(s, k, b);
        if relation_of(k, a, b) == Relation::Row {
            assert forall|i: int, j: int| 0 <= i < n && 0 <= j < n && i / k == j / k implies #[trigger] p[i] != #[trigger] q[j] by {
                lemma_block_cell(k, a, i);
                lemma_block_cell(k, b, j);
                assert(peers(k, block_row(k, a, i), block_col(k, a, i), block_row(k, b, j), block_col(k, b, j)));
            }
        } else {
            assert forall|i: int, j: int| 0 <= i < n && 0 <= j < n && i % k == j % k implies #[trigger] p[i] != #[trigger] q[j] by {
                lemma_block_cell(k, a, i);
                lemma_block_cell(k, b, j);
                assert(peers(k, block_row(k, a, i), block_col(k, a, i), block_row(k, b, j), block_col(k, b, j)));
            }
        }
    }
    assert forall|b: int| 0 <= b < sel.len() implies 0 <= #[trigger] sel[b] < graph.minigrids@[b].len() by {
        assert(graph.has_vertex(b, sel[b]));
    }
    assert(graph.is_selection(sel));
    let t = assemble(graph, sel);
    assert forall|r: int| 0 <= r < n implies #[trigger] t[r] == s[r] by {
        assert forall|c: int| 0 <= c < n implies #[trigger] t[r][c] == s[r][c] by {
            lemma_cell(k, r, c);
            assert(graph.has_vertex(box_of(k, r, c), sel[box_of(k, r, c)]));
        }
        assert(t[r] =~= s[r]);
    }
    assert(t =~= s);
}

/// Relies on rayon's indexed parallel `map` and `collect` into a `Vec`, which
/// keeps the result for block `id` at position `id`.
#[verifier::external_body]
fn par_permutations(board: &Board, masks: &Masks) -> (r: Vec<Vec<PermutationNode>>)
    requires
        board.wf(),
        no_duplicates(board@, board.k as int),
        masks.describes(board@, board.k as int),
    ensures
        r.len() == board.k * board.k,
        forall|id: int| 0 <= id < r.len() ==> lists_block(board@, board.k as int, id, #[trigger] r@[id]@),
{
    (0..board.cells.len()).into_par_iter().map(|id| permutations_of(board, masks, id)).collect()
}

/// A full board without repeats solves itself, and nothing else solves it.
pub proof fn lemma_full_board_unique(g: Seq<Seq<u8>>, k: int)
    requires
        1 <= k,
        shaped(g, k),
        filled(g, k),
        no_duplicates(g, k),
    ensures
        is_solution(g, g, k),
        forall|s: Seq<Seq<u8>>| #[trigger] is_solution(s, g, k) ==> s == g,
{
    assert forall|s: Seq<Seq<u8>>| #[trigger] is_solution(s, g, k) implies s == g by {
        assert forall|r: int| 0 <= r < k * k implies #[trigger] s[r] == g[r] by {
            assert forall|c: int| 0 <= c < k * k implies #[trigger] s[r][c] == g[r][c] by {
                assert(g[r][c] != 0);
            }
            assert(s[r] =~= g[r]);
        }
        assert(s =~= g);
    }
}

/// A solve of a full board without repeats reports that board and only it, and
/// reports it whenever it may report anything.
pub proof fn lemma_full_board_reported(g: Seq<Seq<u8>>, k: int, cap: int, sols: Seq<Seq<Seq<u8>>>)
    requires
        1 <= k,
        shaped(g, k),
        filled(g, k),
        no_duplicates(g, k),
        reports(g, k, cap, sols),
    ensures
        cap >= 1 ==> sols == seq![g],
        cap < 1 ==> sols.len() == 0,
{
    lemma_full_board_unique(g, k);
    assert forall|t: int| 0 <= t < sols.len() implies #[trigger] sols[t] == g by {
        assert(is_solution(sols[t], g, k));
    }
    if cap >= 1 {
        if sols.len() < cap {
            assert(sols.contains(g));
        }
        assert(sols.len() >= 1);
        if sols.len() > 1 {
            assert(sols[0] == sols[1]);
            assert(lex_lt(board_key(sols[0], k), board_key(sols[1], k)));
            lemma_lex_asym(board_key(g, k), board_key(g, k));
        }
        assert(sols =~= seq![g]);
    }
}

/// Two solves of one board with one `cap` report the same boards in the same
/// order, whatever order their work was done in.
pub proof fn lemma_reports_agree(
    g: Seq<Seq<u8>>,
    k: int,
    cap: int,
    first: Seq<Seq<Seq<u8>>>,
    second: Seq<Seq<Seq<u8>>>,
)
    requires
        1 <= k,
        reports(g, k, cap, first),
        reports(g, k, cap, second),
    ensures
        first == second,
{
    let m = if first.len() < second.len() {
        first.len()
    } else {
        second.len()
    };
    lemma_agree_upto(g, k, cap, first, second, m as int);
    if first.len() < second.len() {
        lemma_no_longer(g, k, cap, first, second);
    } else if second.len() < first.len() {
        assert forall|i: int| 0 <= i < second.len() implies #[trigger] second[i] == first[i] by {}
        lemma_no_longer(g, k, cap, second, first);
    }
    assert(first =~= second);
}

/// What a solve found.
#[derive(Clone, Copy, Debug, PartialEq, Eq, Structural)]
pub enum Verdict {
    /// No solution.
    Unsolvable,
    /// Exactly one solution.
    Unique,
    /// More than one solution.
    Ambiguous,
}

impl Verdict {
    /// The verdict for `count` solutions found.
    pub fn of_count(count: usize) -> (r: Verdict)
        ensures
            count == 0 ==> r == Verdict::Unsolvable,
            count == 1 ==> r == Verdict::Unique,
            count > 1 ==> r == Verdict::Ambiguous,
    {
        if count == 0 {
            Verdict::Unsolvable
        } else if count == 1 {
            Verdict::Unique
        } else {
            Verdict::Ambiguous
        }
    }
}

/// A solver for one board.
#[derive(Clone, Debug)]
pub struct SudokuSolver {
    pub board: Board,
}

impl SudokuSolver {
    /// A solver for `board`.
    pub fn new(board: Board) -> (r: Self)
        ensures
            r.board == board,
    {
        SudokuSolver { board }
    }

    /// The fillings of every block, by block id, enumerated in parallel.
    pub fn generate_all_permutations(&self, masks: &Masks) -> (r: Vec<Vec<PermutationNode>>)
        requires
            self.board.wf(),
            no_duplicates(self.board@, self.board.k as int),
            masks.describes(self.board@, self.board.k as int),
        ensures
            r.len() == self.board.k * self.board.k,
            forall|id: int| 0 <= id < r.len() ==> lists_block(self.board@, self.board.k as int, id, #[trigger] r@[id]@),
    {
        par_permutations(&self.board, masks)
    }

    /// The compatibility graph over the fillings of every block.
    pub fn build_compatibility_graph(&self, masks: &Masks) -> (r: Graph)
        requires
            self.board.wf(),
            no_duplicates(self.board@, self.board.k as int),
            masks.describes(self.board@, self.board.k as int),
        ensures
            r.wf(),
            r.k == self.board.k,
            r.edges_exact(),
            r.distinct_perms(),
            r.sorted_perms(),
            enumerates(r, self.board@),
    {
        let perms = self.generate_all_permutations(masks);
        let mut graph = Graph::new(self.board.k, perms);
        let ghost g = self.board@;
        let ghost k = self.board.k as int;
        proof {
            assert forall|b: int, p: int| 0 <= b < k * k && 0 <= p < graph.minigrids@[b].len() implies (#[trigger] graph.minigrids@[b]@[p]).wf(k) by {
                assert(lists_block(g, k, b, graph.minigrids@[b]@));
            }
        }
        let ghost g0 = graph;
        graph.create_edges();
        proof {
            assert forall|b: int, p: int| #[trigger] graph.has_vertex(b, p) implies is_candidate(g, k, b, graph.perm(b, p)) by {
                assert(g0.has_vertex(b, p));
                assert(lists_block(g, k, b, g0.minigrids@[b]@));
            }
            assert forall|b: int, f: Seq<u8>|
                0 <= b < k * k && #[trigger] is_candidate(g, k, b, f) implies exists|p: int|
                    #[trigger] graph.has_vertex(b, p) && graph.perm(b, p) == f by {
                assert(lists_block(g, k, b, g0.minigrids@[b]@));
                let t = choose|t: int| 0 <= t < g0.minigrids@[b]@.len() && #[trigger] g0.minigrids@[b]@[t].cells@ == f;
                assert(g0.has_vertex(b, t));
                assert(graph.has_vertex(b, t));
            }
            assert forall|b: int, p: int, q: int|
                #[trigger] graph.has_vertex(b, p) && #[trigger] graph.has_vertex(b, q) && p != q implies graph.perm(b, p)
                    != graph.perm(b, q) by {
                assert(g0.has_vertex(b, p) && g0.has_vertex(b, q));
                assert(lists_block(g, k, b, g0.minigrids@[b]@));
                assert(g0.minigrids@[b]@[p].cells@ != g0.minigrids@[b]@[q].cells@);
            }
            assert forall|b: int, p: int, q: int|
                #[trigger] graph.has_vertex(b, p) && #[trigger] graph.has_vertex(b, q) && p < q implies lex_lt(
                    ints(graph.perm(b, p)),
                    ints(graph.perm(b, q)),
                ) by {
                assert(g0.has_vertex(b, p) && g0.has_vertex(b, q));
                assert(lists_block(g, k, b, g0.minigrids@[b]@));
            }
        }
        graph
    }

    /// Prunes the graph from every vertex active (see `prune`): the result is
    /// the greatest stable set of vertices.
    pub fn prune_graph(graph: &Graph) -> (r: Vec<Vec<bool>>)
        requires
            graph.wf(),
            graph.edges_exact(),
        ensures
            fits(*graph, flags_of(r@)),
            is_stable(*graph, flags_of(r@)),
            forall|sel: Seq<int>| #[trigger] graph.is_selection(sel) ==> keeps(sel, flags_of(r@)),
            forall|t: Seq<Seq<bool>>|
                fits(*graph, t) && #[trigger] is_stable(*graph, t) ==> within(*graph, t, flags_of(r@)),
    {
        let n = graph.minigrids.len();
        let mut active: Vec<Vec<bool>> = Vec::new();
        let mut b: usize = 0;
        while b < n
            invariant
                graph.wf(),
                n == graph.minigrids.len(),
                b <= n,
                active.len() == b,
                forall|x: int| 0 <= x < b ==> (#[trigger] active@[x]).len() == graph.minigrids@[x].len(),
                forall|x: int, y: int| 0 <= x < b && 0 <= y < active@[x].len() ==> #[trigger] active@[x]@[y],
            decreases n - b,
        {
            let len = graph.minigrids[b].len();
            let mut row: Vec<bool> = Vec::new();
            let mut p: usize = 0;
            while p < len
                invariant
                    p <= len,
                    row.len() == p,
                    forall|y: int| 0 <= y < p ==> #[trigger] row@[y],
                decreases len - p,
            {
                row.push(true);
                p = p + 1;
            }
            active.push(row);
            b = b + 1;
        }
        proof {
            let a = flags_of(active@);
            assert forall|sel: Seq<int>| #[trigger] graph.is_selection(sel) implies keeps(sel, a) by {
                assert forall|x: int| 0 <= x < sel.len() implies #[trigger] a[x][sel[x]] by {
                    assert(a[x] == active@[x]@);
                }
            }
            assert forall|t: Seq<Seq<bool>>| fits(*graph, t) && #[trigger] is_stable(*graph, t) implies within(*graph, t, a) by {
                assert forall|x: int, y: int| #[trigger] graph.has_vertex(x, y) && t[x][y] implies a[x][y] by {
                    assert(a[x] == active@[x]@);
                }
            }
        }
        prune(graph, &mut active);
        active
    }

    /// Solves the board: `DuplicateDigit` when a digit repeats in a row, a
    /// column or a block; else the first `cap` solutions in key order, or all of
    /// them when there are fewer (see `reports`).
    pub fn solve(&self, cap: usize) -> (r: Result<Vec<Vec<Vec<u8>>>, SolveError>)
        requires
            self.board.wf(),
        ensures
            r is Err <==> !no_duplicates(self.board@, self.board.k as int),
            r is Err ==> r->Err_0 == SolveError::DuplicateDigit,
            r is Ok ==> reports(self.board@, self.board.k as int, cap as int, boards_of(r->Ok_0@)),
    {
        let masks = match Masks::generate(&self.board) {
            Ok(m) => m,
            Err(e) => {
                return Err(e);
            },
        };
        let graph = self.build_compatibility_graph(&masks);
        let active = Self::prune_graph(&graph);
        let sols = extract_solution(&graph, &active, cap);
        proof {
            let g = self.board@;
            let k = self.board.k as int;
            let a = flags_of(active@);
            let bs = boards_of(sols@);
            assert forall|t: int| 0 <= t < bs.len() implies is_solution(#[trigger] bs[t], g, k) by {
                assert(found(graph, a, Seq::<int>::empty(), grid_of(sols@[t]@)));
                let sel = selection_of(graph, grid_of(sols@[t]@));
                lemma_assembled_solution(graph, g, sel);
            }
            assert forall|t1: int, t2: int|
                0 <= t1 < t2 < bs.len() implies lex_lt(board_key(#[trigger] bs[t1], k), board_key(#[trigger] bs[t2], k)) by {
                assert(found(graph, a, Seq::<int>::empty(), grid_of(sols@[t1]@)));
                assert(found(graph, a, Seq::<int>::empty(), grid_of(sols@[t2]@)));
                let x = selection_at(graph, sols@, t1);
                let y = selection_at(graph, sols@, t2);
                assert(lex_lt(x, y));
                lemma_key_order(graph, x, y);
            }
            assert forall|s: Seq<Seq<u8>>|
                #[trigger] is_solution(s, g, k) && (bs.len() < cap || (bs.len() > 0 && lex_lt(
                    board_key(s, k),
                    board_key(bs[bs.len() - 1], k),
                ))) implies bs.contains(s) by {
                lemma_solution_selection(graph, g, s);
                let sel = choose|sel: Seq<int>| #[trigger] graph.is_selection(sel) && assemble(graph, sel) == s;
                assert(keeps(sel, a));
                if bs.len() >= cap {
                    let last = bs.len() - 1;
                    assert(found(graph, a, Seq::<int>::empty(), grid_of(sols@[last]@)));
                    let z = selection_at(graph, sols@, last);
                    assert(bs[last] == assemble(graph, z));
                    if sel == z {
                        lemma_lex_asym(board_key(s, k), board_key(s, k));
                    } else {
                        lemma_lex_total(sel, z);
                        if lex_lt(z, sel) {
                            lemma_key_order(graph, z, sel);
                            lemma_lex_asym(board_key(s, k), board_key(bs[last], k));
                        }
                    }
                }
                let t = choose|t: int| 0 <= t < sols.len() && grid_of(#[trigger] sols@[t]@) == assemble(graph, sel);
                assert(bs[t] == s);
            }
        }
        Ok(sols)
    }
}

} // verus!
