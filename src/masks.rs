use crate::bitstring::{below, BitString};
use crate::board::{no_duplicates, shaped, Board, SolveError};
use crate::geometry::{box_of, lemma_cell, peers};
use crate::helper::BitMask;
use vstd::prelude::*;

verus! {

/// Cell `(r, c)` comes before cell `(i, j)` in row-major order.
pub open spec fn before(r: int, c: int, i: int, j: int) -> bool {
    r < i || (r == i && c < j)
}

/// The positions `d - 1` of the digits `d` of row `r` before cell `(i, j)`.
pub open spec fn row_seen(g: Seq<Seq<u8>>, n: int, r: int, i: int, j: int) -> Set<nat> {
    Set::new(|x: nat| exists|c: int| 0 <= c < n && before(r, c, i, j) && #[trigger] g[r][c] == x + 1)
}

/// The positions of the digits of column `c` before cell `(i, j)`.
pub open spec fn col_seen(g: Seq<Seq<u8>>, n: int, c: int, i: int, j: int) -> Set<nat> {
    Set::new(|x: nat| exists|r: int| 0 <= r < n && before(r, c, i, j) && #[trigger] g[r][c] == x + 1)
}

/// The positions of the digits of block `b` before cell `(i, j)`.
pub open spec fn box_seen(g: Seq<Seq<u8>>, k: int, b: int, i: int, j: int) -> Set<nat> {
    Set::new(
        |x: nat|
            exists|r: int, c: int|
                0 <= r < k * k && 0 <= c < k * k && before(r, c, i, j) && box_of(k, r, c) == b
                    && #[trigger] g[r][c] == x + 1,
    )
}

/// The positions of the digits used in row `r`.
pub open spec fn row_used(g: Seq<Seq<u8>>, k: int, r: int) -> Set<nat> {
    row_seen(g, k * k, r, k * k, 0)
}

/// The positions of the digits used in column `c`.
pub open spec fn col_used(g: Seq<Seq<u8>>, k: int, c: int) -> Set<nat> {
    col_seen(g, k * k, c, k * k, 0)
}

/// The positions of the digits used in block `b`.
pub open spec fn box_used(g: Seq<Seq<u8>>, k: int, b: int) -> Set<nat> {
    box_seen(g, k, b, k * k, 0)
}

/// The positions of the digits that cell `(r, c)` cannot take: all of them for a
/// given cell, else those of its row, its column and its block.
pub open spec fn conflict_of(g: Seq<Seq<u8>>, k: int, r: int, c: int) -> Set<nat> {
    if g[r][c] != 0 {
        below((k * k) as nat)
    } else {
        row_used(g, k, r).union(col_used(g, k, c)).union(box_used(g, k, box_of(k, r, c)))
    }
}

/// No two peer cells before `(i, j)` hold the same digit.
pub open spec fn no_duplicates_before(g: Seq<Seq<u8>>, k: int, i: int, j: int) -> bool {
    forall|r1: int, c1: int, r2: int, c2: int|
        0 <= r1 < k * k && 0 <= c1 < k * k && 0 <= r2 < k * k && 0 <= c2 < k * k && before(
            r1,
            c1,
            i,
            j,
        ) && before(r2, c2, i, j) && peers(k, r1, c1, r2, c2) && #[trigger] g[r1][c1] != 0
            ==> g[r1][c1] != #[trigger] g[r2][c2]
}

/// The digits used by each row, column and block of a board, and what each
/// cell therefore cannot take.
#[derive(Clone, Debug)]
pub struct Masks {
    pub boxs: Vec<BitString>,
    pub rows: Vec<BitString>,
    pub cols: Vec<BitString>,
    pub conflict: Vec<Vec<BitString>>,
}

impl Masks {
    /// The masks are those of grid `g` with blocks of side `k`.
    pub open spec fn describes(&self, g: Seq<Seq<u8>>, k: int) -> bool {
        &&& self.rows.len() == k * k
        &&& self.cols.len() == k * k
        &&& self.boxs.len() == k * k
        &&& self.conflict.len() == k * k
        &&& forall|i: int| 0 <= i < k * k ==> (#[trigger] self.rows@[i])@ == row_used(g, k, i)
        &&& forall|i: int| 0 <= i < k * k ==> (#[trigger] self.cols@[i])@ == col_used(g, k, i)
        &&& forall|i: int| 0 <= i < k * k ==> (#[trigger] self.boxs@[i])@ == box_used(g, k, i)
        &&& forall|r: int| 0 <= r < k * k ==> (#[trigger] self.conflict@[r]).len() == k * k
        &&& forall|r: int, c: int|
            0 <= r < k * k && 0 <= c < k * k ==> (#[trigger] self.conflict@[r]@[c])@
                == conflict_of(g, k, r, c)
    }

    /// The masks of `board`, or `DuplicateDigit` as soon as a digit repeats in a
    /// row, a column or a block.
    pub fn generate(board: &Board) -> (r: Result<Masks, SolveError>)
        requires
            board.wf(),
        ensures
            r is Ok <==> no_duplicates(board@, board.k as int),
            r is Ok ==> r->Ok_0.describes(board@, board.k as int),
            r is Err ==> r->Err_0 == SolveError::DuplicateDigit,
    {
        let n = board.cells.len();
        let k = board.k;
        let ghost g = board@;
        let ghost ki = k as int;
        proof {
            assert(n <= 25) by (nonlinear_arith)
                requires
                    n == k * k,
                    k <= 5,
            ;
        }
        let mut rows: Vec<BitString> = Vec::new();
        let mut cols: Vec<BitString> = Vec::new();
        let mut boxs: Vec<BitString> = Vec::new();
        let mut t: usize = 0;
        while t < n
            invariant
                t <= n,
                rows.len() == t,
                cols.len() == t,
                boxs.len() == t,
                forall|x: int| 0 <= x < t ==> (#[trigger] rows@[x])@ == Set::<nat>::empty(),
                forall|x: int| 0 <= x < t ==> (#[trigger] cols@[x])@ == Set::<nat>::empty(),
                forall|x: int| 0 <= x < t ==> (#[trigger] boxs@[x])@ == Set::<nat>::empty(),
            decreases n - t,
        {
            rows.push(BitString::new());
            cols.push(BitString::new());
            boxs.push(BitString::new());
            t = t + 1;
        }
        proof {
            assert forall|x: int| 0 <= x < n implies (#[trigger] rows@[x])@ == row_seen(g, n as int, x, 0, 0) by {
                assert(row_seen(g, n as int, x, 0, 0) =~= Set::<nat>::empty());
            }
            assert forall|x: int| 0 <= x < n implies (#[trigger] cols@[x])@ == col_seen(g, n as int, x, 0, 0) by {
                assert(col_seen(g, n as int, x, 0, 0) =~= Set::<nat>::empty());
            }
            assert forall|x: int| 0 <= x < n implies (#[trigger] boxs@[x])@ == box_seen(g, ki, x, 0, 0) by {
                assert(box_seen(g, ki, x, 0, 0) =~= Set::<nat>::empty());
            }
        }
        let mut i: usize = 0;
        while i < n
            invariant
                board.wf(),
                g == board@,
                ki == k,
                k == board.k,
                n == board.cells.len(),
                n == k * k,
                n <= 25,
                i <= n,
                rows.len() == n,
                cols.len() == n,
                boxs.len() == n,
                forall|x: int| 0 <= x < n ==> (#[trigger] rows@[x])@ == row_seen(g, n as int, x, i as int, 0),
                forall|x: int| 0 <= x < n ==> (#[trigger] cols@[x])@ == col_seen(g, n as int, x, i as int, 0),
                forall|x: int| 0 <= x < n ==> (#[trigger] boxs@[x])@ == box_seen(g, ki, x, i as int, 0),
                no_duplicates_before(g, ki, i as int, 0),
            decreases n - i,
        {
            let mut j: usize = 0;
            while j < n
                invariant
                    board.wf(),
                    g == board@,
                    ki == k,
                    k == board.k,
                    n == board.cells.len(),
                    n == k * k,
                    n <= 25,
                    i < n,
                    j <= n,
                    rows.len() == n,
                    cols.len() == n,
                    boxs.len() == n,
                    forall|x: int| 0 <= x < n ==> (#[trigger] rows@[x])@ == row_seen(g, n as int, x, i as int, j as int),
                    forall|x: int| 0 <= x < n ==> (#[trigger] cols@[x])@ == col_seen(g, n as int, x, i as int, j as int),
                    forall|x: int| 0 <= x < n ==> (#[trigger] boxs@[x])@ == box_seen(g, ki, x, i as int, j as int),
                    no_duplicates_before(g, ki, i as int, j as int),
                decreases n - j,
            {
                proof {
                    assert(g[i as int] == board.cells@[i as int]@);
                }
                let val = board.cells[i][j];
                let b = board.box_idx(i, j);
                proof {
                    lemma_cell(ki, i as int, j as int);
                    lemma_step(g, ki, i as int, j as int);
                }
                if val != 0 {
                    let v = val as usize;
                    if rows[i].is_dirty(v) || cols[j].is_dirty(v) || boxs[b].is_dirty(v) {
                        proof {
                            lemma_repeat_found(g, ki, i as int, j as int);
                        }
                        return Err(SolveError::DuplicateDigit);
                    }
                    let mut m = rows[i];
                    m.dirty_set(v);
                    rows.set(i, m);
                    let mut m = cols[j];
                    m.dirty_set(v);
                    cols.set(j, m);
                    let mut m = boxs[b];
                    m.dirty_set(v);
                    boxs.set(b, m);
                }
                proof {
                    lemma_no_duplicates_step(g, ki, i as int, j as int);
                }
                j = j + 1;
            }
            proof {
                lemma_wrap(g, ki, i as int);
            }
            i = i + 1;
        }
        proof {
            lemma_done(g, ki);
        }
        let mut conflict: Vec<Vec<BitString>> = Vec::new();
        let mut r: usize = 0;
        while r < n
            invariant
                board.wf(),
                g == board@,
                ki == k,
                k == board.k,
                n == board.cells.len(),
                n == k * k,
                n <= 25,
                r <= n,
                rows.len() == n,
                cols.len() == n,
                boxs.len() == n,
                forall|x: int| 0 <= x < n ==> (#[trigger] rows@[x])@ == row_used(g, ki, x),
                forall|x: int| 0 <= x < n ==> (#[trigger] cols@[x])@ == col_used(g, ki, x),
                forall|x: int| 0 <= x < n ==> (#[trigger] boxs@[x])@ == box_used(g, ki, x),
                conflict.len() == r,
                forall|x: int| 0 <= x < r ==> (#[trigger] conflict@[x]).len() == n,
                forall|x: int, y: int|
                    0 <= x < r && 0 <= y < n ==> (#[trigger] conflict@[x]@[y])@ == conflict_of(g, ki, x, y),
            decreases n - r,
        {
            let mut line: Vec<BitString> = Vec::new();
            let mut c: usize = 0;
            while c < n
                invariant
                    board.wf(),
                    g == board@,
                    ki == k,
                    k == board.k,
                    n == board.cells.len(),
                    n == k * k,
                    n <= 25,
                    r < n,
                    c <= n,
                    rows.len() == n,
                    cols.len() == n,
                    boxs.len() == n,
                    forall|x: int| 0 <= x < n ==> (#[trigger] rows@[x])@ == row_used(g, ki, x),
                    forall|x: int| 0 <= x < n ==> (#[trigger] cols@[x])@ == col_used(g, ki, x),
                    forall|x: int| 0 <= x < n ==> (#[trigger] boxs@[x])@ == box_used(g, ki, x),
                    line.len() == c,
                    forall|y: int| 0 <= y < c ==> (#[trigger] line@[y])@ == conflict_of(g, ki, r as int, y),
                decreases n - c,
            {
                proof {
                    assert(g[r as int] == board.cells@[r as int]@);
                }
                let b = board.box_idx(r, c);
                if board.cells[r][c] != 0 {
                    line.push(BitString { bits: BitMask::all_set(n) });
                } else {
                    line.push(rows[r].union(&cols[c]).union(&boxs[b]));
                }
                c = c + 1;
            }
            conflict.push(line);
            r = r + 1;
        }
        Ok(Masks { boxs, rows, cols, conflict })
    }
}

/// How the digit sets grow when cell `(i, j)` is read.
proof fn lemma_step(g: Seq<Seq<u8>>, k: int, i: int, j: int)
    requires
        0 < k,
        shaped(g, k),
        0 <= i < k * k,
        0 <= j < k * k,
    ensures
        forall|x: int|
            0 <= x < k * k && x != i ==> #[trigger] row_seen(g, k * k, x, i, j + 1) == row_seen(g, k * k, x, i, j),
        forall|x: int|
            0 <= x < k * k && x != j ==> #[trigger] col_seen(g, k * k, x, i, j + 1) == col_seen(g, k * k, x, i, j),
        forall|x: int|
            0 <= x < k * k && x != box_of(k, i, j) ==> #[trigger] box_seen(g, k, x, i, j + 1) == box_seen(g, k, x, i, j),
        row_seen(g, k * k, i, i, j + 1) == if g[i][j] != 0 {
            row_seen(g, k * k, i, i, j).insert((g[i][j] - 1) as nat)
        } else {
            row_seen(g, k * k, i, i, j)
        },
        col_seen(g, k * k, j, i, j + 1) == if g[i][j] != 0 {
            col_seen(g, k * k, j, i, j).insert((g[i][j] - 1) as nat)
        } else {
            col_seen(g, k * k, j, i, j)
        },
        box_seen(g, k, box_of(k, i, j), i, j + 1) == if g[i][j] != 0 {
            box_seen(g, k, box_of(k, i, j), i, j).insert((g[i][j] - 1) as nat)
        } else {
            box_seen(g, k, box_of(k, i, j), i, j)
        },
{
    let n = k * k;
    assert forall|x: int| 0 <= x < n && x != i implies #[trigger] row_seen(g, n, x, i, j + 1) == row_seen(g, n, x, i, j) by {
        assert(row_seen(g, n, x, i, j + 1) =~= row_seen(g, n, x, i, j));
    }
    assert forall|x: int| 0 <= x < n && x != j implies #[trigger] col_seen(g, n, x, i, j + 1) == col_seen(g, n, x, i, j) by {
        assert(col_seen(g, n, x, i, j + 1) =~= col_seen(g, n, x, i, j));
    }
    assert forall|x: int| 0 <= x < n && x != box_of(k, i, j) implies #[trigger] box_seen(g, k, x, i, j + 1) == box_seen(g, k, x, i, j) by {
        assert forall|y: nat| box_seen(g, k, x, i, j + 1).contains(y) implies box_seen(g, k, x, i, j).contains(y) by {
            let (r, c) = choose|r: int, c: int|
                0 <= r < k * k && 0 <= c < k * k && before(r, c, i, j + 1) && box_of(k, r, c) == x
                    && #[trigger] g[r][c] == y + 1;
            assert(before(r, c, i, j));
        }
        assert(box_seen(g, k, x, i, j + 1) =~= box_seen(g, k, x, i, j));
    }
    let y0 = (g[i][j] - 1) as nat;
    if g[i][j] != 0 {
        assert(g[i][j] == y0 + 1);
        assert(row_seen(g, n, i, i, j + 1) =~= row_seen(g, n, i, i, j).insert(y0));
        assert(col_seen(g, n, j, i, j + 1) =~= col_seen(g, n, j, i, j).insert(y0));
        assert forall|y: nat| box_seen(g, k, box_of(k, i, j), i, j + 1).contains(y)
            implies box_seen(g, k, box_of(k, i, j), i, j).insert(y0).contains(y) by {
            let (r, c) = choose|r: int, c: int|
                0 <= r < k * k && 0 <= c < k * k && before(r, c, i, j + 1) && box_of(k, r, c) == box_of(k, i, j)
                    && #[trigger] g[r][c] == y + 1;
            if !(r == i && c == j) {
                assert(before(r, c, i, j));
            }
        }
        assert(box_seen(g, k, box_of(k, i, j), i, j + 1) =~= box_seen(g, k, box_of(k, i, j), i, j).insert(y0));
    } else {
        assert(row_seen(g, n, i, i, j + 1) =~= row_seen(g, n, i, i, j));
        assert(col_seen(g, n, j, i, j + 1) =~= col_seen(g, n, j, i, j));
        assert forall|y: nat| box_seen(g, k, box_of(k, i, j), i, j + 1).contains(y)
            implies box_seen(g, k, box_of(k, i, j), i, j).contains(y) by {
            let (r, c) = choose|r: int, c: int|
                0 <= r < k * k && 0 <= c < k * k && before(r, c, i, j + 1) && box_of(k, r, c) == box_of(k, i, j)
                    && #[trigger] g[r][c] == y + 1;
            assert(before(r, c, i, j));
        }
        assert(box_seen(g, k, box_of(k, i, j), i, j + 1) =~= box_seen(g, k, box_of(k, i, j), i, j));
    }
}

/// A digit of cell `(i, j)` already seen in its row, column or block is a repeat.
proof fn lemma_repeat_found(g: Seq<Seq<u8>>, k: int, i: int, j: int)
    requires
        0 < k,
        shaped(g, k),
        0 <= i < k * k,
        0 <= j < k * k,
        g[i][j] != 0,
        row_seen(g, k * k, i, i, j).contains((g[i][j] - 1) as nat) || col_seen(g, k * k, j, i, j).contains(
            (g[i][j] - 1) as nat,
        ) || box_seen(g, k, box_of(k, i, j), i, j).contains((g[i][j] - 1) as nat),
    ensures
        !no_duplicates(g, k),
{
    let y = (g[i][j] - 1) as nat;
    lemma_cell(k, i, j);
    if row_seen(g, k * k, i, i, j).contains(y) {
        let c = choose|c: int| 0 <= c < k * k && before(i, c, i, j) && #[trigger] g[i][c] == y + 1;
        assert(peers(k, i, c, i, j));
        assert(g[i][c] == g[i][j]);
    } else if col_seen(g, k * k, j, i, j).contains(y) {
        let r = choose|r: int| 0 <= r < k * k && before(r, j, i, j) && #[trigger] g[r][j] == y + 1;
        assert(peers(k, r, j, i, j));
        assert(g[r][j] == g[i][j]);
    } else {
        let (r, c) = choose|r: int, c: int|
            0 <= r < k * k && 0 <= c < k * k && before(r, c, i, j) && box_of(k, r, c) == box_of(k, i, j)
                && #[trigger] g[r][c] == y + 1;
        lemma_cell(k, r, c);
        assert(peers(k, r, c, i, j));
        assert(g[r][c] == g[i][j]);
    }
}

/// Reading a digit not yet seen in its row, column or block keeps the grid
/// read so far free of repeats.
proof fn lemma_no_duplicates_step(g: Seq<Seq<u8>>, k: int, i: int, j: int)
    requires
        0 < k,
        shaped(g, k),
        0 <= i < k * k,
        0 <= j < k * k,
        no_duplicates_before(g, k, i, j),
        g[i][j] != 0 ==> !row_seen(g, k * k, i, i, j).contains((g[i][j] - 1) as nat),
        g[i][j] != 0 ==> !col_seen(g, k * k, j, i, j).contains((g[i][j] - 1) as nat),
        g[i][j] != 0 ==> !box_seen(g, k, box_of(k, i, j), i, j).contains((g[i][j] - 1) as nat),
    ensures
        no_duplicates_before(g, k, i, j + 1),
{
    let n = k * k;
    lemma_cell(k, i, j);
    assert forall|r1: int, c1: int, r2: int, c2: int|
        0 <= r1 < n && 0 <= c1 < n && 0 <= r2 < n && 0 <= c2 < n && before(r1, c1, i, j + 1) && before(
            r2,
            c2,
            i,
            j + 1,
        ) && peers(k, r1, c1, r2, c2) && #[trigger] g[r1][c1] != 0 implies g[r1][c1] != #[trigger] g[r2][c2] by {
        if r1 == i && c1 == j {
            if r2 != i || c2 != j {
                lemma_cell(k, r2, c2);
                assert(before(r2, c2, i, j));
                if g[r2][c2] == g[i][j] {
                    let y = (g[i][j] - 1) as nat;
                    assert(g[r2][c2] == y + 1);
                    if r2 == i {
                        assert(row_seen(g, n, i, i, j).contains(y));
                    } else if c2 == j {
                        assert(col_seen(g, n, j, i, j).contains(y));
                    } else {
                        assert(box_of(k, r2, c2) == box_of(k, i, j));
                        assert(box_seen(g, k, box_of(k, i, j), i, j).contains(y));
                    }
                }
            }
        } else if r2 == i && c2 == j {
            lemma_cell(k, r1, c1);
            assert(before(r1, c1, i, j));
            if g[r1][c1] == g[i][j] {
                let y = (g[i][j] - 1) as nat;
                assert(g[r1][c1] == y + 1);
                if r1 == i {
                    assert(row_seen(g, n, i, i, j).contains(y));
                } else if c1 == j {
                    assert(col_seen(g, n, j, i, j).contains(y));
                } else {
                    assert(box_of(k, r1, c1) == box_of(k, i, j));
                    assert(box_seen(g, k, box_of(k, i, j), i, j).contains(y));
                }
            }
        } else {
            assert(before(r1, c1, i, j));
            assert(before(r2, c2, i, j));
        }
    }
}

/// The end of row `i` is the start of row `i + 1`.
proof fn lemma_wrap(g: Seq<Seq<u8>>, k: int, i: int)
    requires
        0 < k,
        0 <= i < k * k,
        no_duplicates_before(g, k, i, k * k),
    ensures
        forall|x: int| #[trigger] row_seen(g, k * k, x, i, k * k) == row_seen(g, k * k, x, i + 1, 0),
        forall|x: int| 0 <= x < k * k ==> #[trigger] col_seen(g, k * k, x, i, k * k) == col_seen(g, k * k, x, i + 1, 0),
        forall|x: int| #[trigger] box_seen(g, k, x, i, k * k) == box_seen(g, k, x, i + 1, 0),
        no_duplicates_before(g, k, i + 1, 0),
{
    let n = k * k;
    assert forall|x: int| #[trigger] row_seen(g, n, x, i, n) == row_seen(g, n, x, i + 1, 0) by {
        assert(row_seen(g, n, x, i, n) =~= row_seen(g, n, x, i + 1, 0));
    }
    assert forall|x: int| 0 <= x < n implies #[trigger] col_seen(g, n, x, i, n) == col_seen(g, n, x, i + 1, 0) by {
        assert(col_seen(g, n, x, i, n) =~= col_seen(g, n, x, i + 1, 0));
    }
    assert forall|x: int| #[trigger] box_seen(g, k, x, i, n) == box_seen(g, k, x, i + 1, 0) by {
        assert forall|y: nat| box_seen(g, k, x, i + 1, 0).contains(y) implies box_seen(g, k, x, i, n).contains(y) by {
            let (r, c) = choose|r: int, c: int|
                0 <= r < k * k && 0 <= c < k * k && before(r, c, i + 1, 0) && box_of(k, r, c) == x
                    && #[trigger] g[r][c] == y + 1;
            assert(before(r, c, i, n));
        }
        assert forall|y: nat| box_seen(g, k, x, i, n).contains(y) implies box_seen(g, k, x, i + 1, 0).contains(y) by {
            let (r, c) = choose|r: int, c: int|
                0 <= r < k * k && 0 <= c < k * k && before(r, c, i, n) && box_of(k, r, c) == x
                    && #[trigger] g[r][c] == y + 1;
            assert(before(r, c, i + 1, 0));
        }
        assert(box_seen(g, k, x, i, n) =~= box_seen(g, k, x, i + 1, 0));
    }
    assert forall|r1: int, c1: int, r2: int, c2: int|
        0 <= r1 < n && 0 <= c1 < n && 0 <= r2 < n && 0 <= c2 < n && before(r1, c1, i + 1, 0) && before(
            r2,
            c2,
            i + 1,
            0,
        ) && peers(k, r1, c1, r2, c2) && #[trigger] g[r1][c1] != 0 implies g[r1][c1] != #[trigger] g[r2][c2] by {
        assert(before(r1, c1, i, n));
        assert(before(r2, c2, i, n));
    }
}

/// After the last row every cell has been read.
proof fn lemma_done(g: Seq<Seq<u8>>, k: int)
    requires
        0 < k,
        no_duplicates_before(g, k, k * k, 0),
    ensures
        no_duplicates(g, k),
{
    let n = k * k;
    assert forall|r1: int, c1: int, r2: int, c2: int|
        0 <= r1 < n && 0 <= c1 < n && 0 <= r2 < n && 0 <= c2 < n && peers(k, r1, c1, r2, c2)
            && #[trigger] g[r1][c1] != 0 implies g[r1][c1] != #[trigger] g[r2][c2] by {
        assert(before(r1, c1, n, 0));
        assert(before(r2, c2, n, 0));
    }
}

} // verus!
