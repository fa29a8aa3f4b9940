use crate::geometry::{box_of, lemma_cell, peers};
use vstd::prelude::*;

verus! {

/// Why a grid cannot be solved as given.
#[derive(Clone, Copy, Debug, PartialEq, Eq, Structural)]
pub enum SolveError {
    /// More than 25 rows: digits would not fit the 32-bit sets.
    TooLarge,
    /// The number of rows is not 1, 4, 9, 16 or 25.
    NotPerfectSquare,
    /// A row does not have as many cells as the grid has rows.
    RaggedRow,
    /// A cell holds a value above the grid's size.
    DigitOutOfRange,
    /// A digit occurs twice in a row, a column or a block.
    DuplicateDigit,
}

/// The sizes this library solves: perfect squares whose digits fit 32-bit sets.
pub open spec fn is_square_size(n: int) -> bool {
    n == 1 || n == 4 || n == 9 || n == 16 || n == 25
}

/// The rows of a grid, each as a sequence of values.
pub open spec fn grid_of(rows: Seq<Vec<u8>>) -> Seq<Seq<u8>> {
    rows.map_values(|row: Vec<u8>| row@)
}

/// `g` is `n` by `n` with `n == k * k`, and every value is at most `n`.
pub open spec fn shaped(g: Seq<Seq<u8>>, k: int) -> bool {
    &&& g.len() == k * k
    &&& forall|r: int| 0 <= r < k * k ==> (#[trigger] g[r]).len() == k * k
    &&& forall|r: int, c: int| 0 <= r < k * k && 0 <= c < k * k ==> #[trigger] g[r][c] <= k * k
}

/// No digit occurs twice in a row, a column or a block.
pub open spec fn no_duplicates(g: Seq<Seq<u8>>, k: int) -> bool {
    forall|r1: int, c1: int, r2: int, c2: int|
        0 <= r1 < k * k && 0 <= c1 < k * k && 0 <= r2 < k * k && 0 <= c2 < k * k && peers(
            k,
            r1,
            c1,
            r2,
            c2,
        ) && #[trigger] g[r1][c1] != 0 ==> g[r1][c1] != #[trigger] g[r2][c2]
}

/// Every cell holds a digit.
pub open spec fn filled(g: Seq<Seq<u8>>, k: int) -> bool {
    forall|r: int, c: int| 0 <= r < k * k && 0 <= c < k * k ==> #[trigger] g[r][c] != 0
}

/// `s` solves `g`: it is complete, free of duplicates, and keeps every given digit.
pub open spec fn is_solution(s: Seq<Seq<u8>>, g: Seq<Seq<u8>>, k: int) -> bool {
    &&& shaped(s, k)
    &&& filled(s, k)
    &&& no_duplicates(s, k)
    &&& forall|r: int, c: int|
        0 <= r < k * k && 0 <= c < k * k && #[trigger] g[r][c] != 0 ==> s[r][c] == g[r][c]
}

/// The square grid of a puzzle; zero marks an empty cell.
#[derive(Clone, Debug)]
pub struct Board {
    pub cells: Vec<Vec<u8>>,
    /// The side of a block; the grid has `k * k` rows.
    pub k: usize,
}

impl View for Board {
    type V = Seq<Seq<u8>>;

    open spec fn view(&self) -> Seq<Seq<u8>> {
        grid_of(self.cells@)
    }
}

impl Board {
    /// The board's size is supported and its cells are shaped by it.
    pub open spec fn wf(&self) -> bool {
        &&& 1 <= self.k <= 5
        &&& shaped(self@, self.k as int)
    }

    /// A board from its rows, when their shape is one this library solves.
    pub fn new(cells: Vec<Vec<u8>>) -> (r: Result<Board, SolveError>)
        ensures
            cells.len() > 25 <==> r == Err::<Board, SolveError>(SolveError::TooLarge),
            cells.len() <= 25 && !is_square_size(cells.len() as int) <==> r == Err::<
                Board,
                SolveError,
            >(SolveError::NotPerfectSquare),
            is_square_size(cells.len() as int) && (exists|i: int|
                0 <= i < cells.len() && #[trigger] cells@[i]@.len() != cells.len()) <==> r == Err::<
                Board,
                SolveError,
            >(SolveError::RaggedRow),
            is_square_size(cells.len() as int) && (forall|i: int|
                0 <= i < cells.len() ==> #[trigger] cells@[i]@.len() == cells.len()) && (exists|
                i: int,
                j: int,
            |
                0 <= i < cells.len() && 0 <= j < cells.len() && #[trigger] cells@[i]@[j]
                    > cells.len()) <==> r == Err::<Board, SolveError>(SolveError::DigitOutOfRange),
            r is Ok ==> r->Ok_0.wf() && r->Ok_0@ == grid_of(cells@),
            r is Ok ==> r->Ok_0.k * r->Ok_0.k == cells.len(),
    {
        let n = cells.len();
        if n > 25 {
            return Err(SolveError::TooLarge);
        }
        let k: usize = if n == 1 {
            1
        } else if n == 4 {
            2
        } else if n == 9 {
            3
        } else if n == 16 {
            4
        } else if n == 25 {
            5
        } else {
            return Err(SolveError::NotPerfectSquare);
        };
        let mut i: usize = 0;
        while i < n
            invariant
                n == cells.len(),
                n <= 25,
                is_square_size(n as int),
                k * k == n,
                1 <= k <= 5,
                0 <= i <= n,
                forall|j: int| 0 <= j < i ==> #[trigger] cells@[j]@.len() == n,
            decreases n - i,
        {
            if cells[i].len() != n {
                return Err(SolveError::RaggedRow);
            }
            i = i + 1;
        }
        let mut i: usize = 0;
        while i < n
            invariant
                n == cells.len(),
                n <= 25,
                is_square_size(n as int),
                k * k == n,
                1 <= k <= 5,
                0 <= i <= n,
                forall|j: int| 0 <= j < n ==> #[trigger] cells@[j]@.len() == n,
                forall|a: int, b: int| 0 <= a < i && 0 <= b < n ==> #[trigger] cells@[a]@[b] <= n,
            decreases n - i,
        {
            let mut j: usize = 0;
            while j < n
                invariant
                    n == cells.len(),
                    n <= 25,
                    is_square_size(n as int),
                    k * k == n,
                    1 <= k <= 5,
                    0 <= i < n,
                    0 <= j <= n,
                    forall|x: int| 0 <= x < n ==> #[trigger] cells@[x]@.len() == n,
                    forall|a: int, b: int|
                        0 <= a < i && 0 <= b < n ==> #[trigger] cells@[a]@[b] <= n,
                    forall|b: int| 0 <= b < j ==> #[trigger] cells@[i as int]@[b] <= n,
                decreases n - j,
            {
                if cells[i][j] as usize > n {
                    return Err(SolveError::DigitOutOfRange);
                }
                j = j + 1;
            }
            i = i + 1;
        }
        let b = Board { cells, k };
        proof {
            assert(shaped(b@, k as int));
        }
        Ok(b)
    }

    /// The number of rows (and of columns, and of blocks).
    pub fn size(&self) -> (r: usize)
        requires
            self.wf(),
        ensures
            r == self.k * self.k,
            r == self.cells.len(),
    {
        self.cells.len()
    }

    /// The side of a block.
    pub fn n(&self) -> (r: usize)
        requires
            self.wf(),
        ensures
            r == self.k,
            r * r == self.cells.len(),
    {
        self.k
    }

    /// The cell at row-major index `idx`.
    pub fn get_cell(&self, idx: usize) -> (r: u8)
        requires
            self.wf(),
            idx < self.cells.len() * self.cells.len(),
        ensures
            r == self@[(idx / self.cells.len()) as int][(idx % self.cells.len()) as int],
    {
        let n = self.cells.len();
        proof {
            assert(n > 0) by (nonlinear_arith)
                requires
                    n == self.k * self.k,
                    self.k >= 1,
            ;
        }
        let r = idx / n;
        let c = idx % n;
        proof {
            assert(r < n) by (nonlinear_arith)
                requires
                    idx < n * n,
                    r == idx / n,
                    n > 0,
            ;
            assert(self@[r as int] == self.cells@[r as int]@);
        }
        self.cells[r][c]
    }

    /// Whether no digit repeats in a row, a column or a block.
    pub fn is_valid(&self) -> (r: bool)
        requires
            self.wf(),
        ensures
            r == no_duplicates(self@, self.k as int),
    {
        crate::masks::Masks::generate(self).is_ok()
    }

    /// The block that holds cell `(r, c)`.
    pub fn box_idx(&self, r: usize, c: usize) -> (b: usize)
        requires
            self.wf(),
            r < self.cells.len(),
            c < self.cells.len(),
        ensures
            b == box_of(self.k as int, r as int, c as int),
            b < self.cells.len(),
    {
        proof {
            lemma_cell(self.k as int, r as int, c as int);
        }
        (r / self.k) * self.k + (c / self.k)
    }
}

} // verus!
