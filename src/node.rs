use crate::bitstring::{BitString, DirtyMask};
use crate::geometry::lemma_split;
use vstd::prelude::*;

verus! {

/// The positions of the digits in relative row `r` of a flattened block.
pub open spec fn row_digits(p: Seq<u8>, k: int, r: int) -> Set<nat> {
    Set::new(|x: nat| exists|i: int| 0 <= i < p.len() && i / k == r && #[trigger] p[i] == x + 1)
}

/// The positions of the digits in relative column `c` of a flattened block.
pub open spec fn col_digits(p: Seq<u8>, k: int, c: int) -> Set<nat> {
    Set::new(|x: nat| exists|i: int| 0 <= i < p.len() && i % k == c && #[trigger] p[i] == x + 1)
}

/// Two blocks side by side in a block-row repeat no digit in a shared row.
pub open spec fn rows_compatible(k: int, p: Seq<u8>, q: Seq<u8>) -> bool {
    forall|i: int, j: int|
        0 <= i < k * k && 0 <= j < k * k && i / k == j / k ==> #[trigger] p[i] != #[trigger] q[j]
}

/// Two blocks one above the other repeat no digit in a shared column.
pub open spec fn cols_compatible(k: int, p: Seq<u8>, q: Seq<u8>) -> bool {
    forall|i: int, j: int|
        0 <= i < k * k && 0 <= j < k * k && i % k == j % k ==> #[trigger] p[i] != #[trigger] q[j]
}

/// One complete filling of a block, with the digits of each of its rows and
/// columns, and the permutations of other blocks found compatible with it.
#[derive(Clone, Debug)]
pub struct PermutationNode {
    pub cells: Vec<u8>,
    pub row_masks: Vec<DirtyMask>,
    pub col_masks: Vec<DirtyMask>,
    /// Pairs (block id, index in that block's list).
    pub compatible: Vec<(usize, usize)>,
}

impl PermutationNode {
    /// A filling of a block of side `k` whose row and column sets are its own.
    pub open spec fn wf(&self, k: int) -> bool {
        &&& 1 <= k <= 5
        &&& self.cells.len() == k * k
        &&& forall|i: int| 0 <= i < k * k ==> 1 <= #[trigger] self.cells@[i] <= k * k
        &&& self.row_masks.len() == k
        &&& self.col_masks.len() == k
        &&& forall|r: int| 0 <= r < k ==> (#[trigger] self.row_masks@[r])@ == row_digits(self.cells@, k, r)
        &&& forall|c: int| 0 <= c < k ==> (#[trigger] self.col_masks@[c])@ == col_digits(self.cells@, k, c)
    }

    /// The node of a completely filled block of side `k`, with no edges yet.
    pub fn from_minigrid(k: usize, cells: Vec<u8>) -> (r: Self)
        requires
            1 <= k <= 5,
            cells.len() == k * k,
            forall|i: int| 0 <= i < k * k ==> 1 <= #[trigger] cells@[i] <= k * k,
        ensures
            r.wf(k as int),
            r.cells@ == cells@,
            r.compatible@ == Seq::<(usize, usize)>::empty(),
    {
        let n = cells.len();
        let ghost ki = k as int;
        proof {
            assert(n <= 25) by (nonlinear_arith)
                requires
                    n == k * k,
                    k <= 5,
            ;
        }
        let mut row_masks: Vec<DirtyMask> = Vec::new();
        let mut col_masks: Vec<DirtyMask> = Vec::new();
        let mut t: usize = 0;
        while t < k
            invariant
                t <= k,
                row_masks.len() == t,
                col_masks.len() == t,
                forall|x: int| 0 <= x < t ==> (#[trigger] row_masks@[x])@ == Set::<nat>::empty(),
                forall|x: int| 0 <= x < t ==> (#[trigger] col_masks@[x])@ == Set::<nat>::empty(),
            decreases k - t,
        {
            row_masks.push(BitString::new());
            col_masks.push(BitString::new());
            t = t + 1;
        }
        let mut i: usize = 0;
        while i < n
            invariant
                1 <= k <= 5,
                ki == k,
                n == cells.len(),
                n == k * k,
                n <= 25,
                i <= n,
                forall|x: int| 0 <= x < k * k ==> 1 <= #[trigger] cells@[x] <= k * k,
                row_masks.len() == k,
                col_masks.len() == k,
                forall|r: int|
                    0 <= r < k ==> (#[trigger] row_masks@[r])@ == row_digits(cells@.subrange(0, i as int), ki, r),
                forall|c: int|
                    0 <= c < k ==> (#[trigger] col_masks@[c])@ == col_digits(cells@.subrange(0, i as int), ki, c),
            decreases n - i,
        {
            proof {
                lemma_split(ki, i as int);
            }
            let r = i / k;
            let c = i % k;
            let d = cells[i] as usize;
            let ghost pre = cells@.subrange(0, i as int);
            let ghost post = cells@.subrange(0, i + 1);
            let mut m = row_masks[r];
            m.dirty_set(d);
            row_masks.set(r, m);
            let mut m = col_masks[c];
            m.dirty_set(d);
            col_masks.set(c, m);
            proof {
                assert forall|x: int| 0 <= x < k implies #[trigger] row_digits(post, ki, x) == if x == r {
                    row_digits(pre, ki, x).insert((d - 1) as nat)
                } else {
                    row_digits(pre, ki, x)
                } by {
                    assert(post[i as int] == d);
                    assert forall|y: nat| row_digits(pre, ki, x).contains(y) implies row_digits(post, ki, x).contains(y) by {
                        let j = choose|j: int| 0 <= j < pre.len() && j / ki == x && #[trigger] pre[j] == y + 1;
                        assert(post[j] == pre[j]);
                    }
                    if x == r {
                        assert(row_digits(post, ki, x) =~= row_digits(pre, ki, x).insert((d - 1) as nat));
                    } else {
                        assert(row_digits(post, ki, x) =~= row_digits(pre, ki, x));
                    }
                }
                assert forall|x: int| 0 <= x < k implies #[trigger] col_digits(post, ki, x) == if x == c {
                    col_digits(pre, ki, x).insert((d - 1) as nat)
                } else {
                    col_digits(pre, ki, x)
                } by {
                    assert(post[i as int] == d);
                    assert forall|y: nat| col_digits(pre, ki, x).contains(y) implies col_digits(post, ki, x).contains(y) by {
                        let j = choose|j: int| 0 <= j < pre.len() && j % ki == x && #[trigger] pre[j] == y + 1;
                        assert(post[j] == pre[j]);
                    }
                    if x == c {
                        assert(col_digits(post, ki, x) =~= col_digits(pre, ki, x).insert((d - 1) as nat));
                    } else {
                        assert(col_digits(post, ki, x) =~= col_digits(pre, ki, x));
                    }
                }
            }
            i = i + 1;
        }
        proof {
            assert(cells@.subrange(0, n as int) =~= cells@);
        }
        PermutationNode { cells, row_masks, col_masks, compatible: Vec::new() }
    }

    /// The filled cells of the block.
    pub fn cells(&self) -> (r: &Vec<u8>)
        ensures
            r@ == self.cells@,
    {
        &self.cells
    }

    /// Whether this block and `other`, side by side in a block-row, repeat no
    /// digit in any of their `k` shared rows.
    pub fn check_row_compatible(&self, other: &Self) -> (r: bool)
        requires
            exists|k: int| self.wf(k) && other.wf(k),
        ensures
            r == rows_compatible(self.row_masks.len() as int, self.cells@, other.cells@),
    {
        let k = self.row_masks.len();
        let ghost ki = k as int;
        let mut c: usize = 0;
        while c < k
            invariant
                self.wf(ki),
                other.wf(ki),
                ki == k,
                c <= k,
                forall|x: int| 0 <= x < c ==> (#[trigger] self.row_masks@[x])@.disjoint(other.row_masks@[x]@),
            decreases k - c,
        {
            if self.row_masks[c].is_conflicting(&other.row_masks[c]) {
                proof {
                    let y = choose|y: nat| self.row_masks@[c as int]@.contains(y) && other.row_masks@[c as int]@.contains(y);
                    let i = choose|i: int| 0 <= i < self.cells@.len() && i / ki == c && #[trigger] self.cells@[i] == y + 1;
                    let j = choose|j: int| 0 <= j < other.cells@.len() && j / ki == c && #[trigger] other.cells@[j] == y + 1;
                    assert(self.cells@[i] == other.cells@[j]);
                }
                return false;
            }
            c = c + 1;
        }
        proof {
            assert forall|i: int, j: int|
                0 <= i < ki * ki && 0 <= j < ki * ki && i / ki == j / ki implies #[trigger] self.cells@[i] != #[trigger] other.cells@[j] by {
                lemma_split(ki, i);
                let x = i / ki;
                let y = (self.cells@[i] - 1) as nat;
                assert(self.row_masks@[x]@.contains(y));
                if other.cells@[j] == self.cells@[i] {
                    assert(other.row_masks@[x]@.contains(y));
                }
            }
        }
        true
    }

    /// Whether this block and `other`, one above the other in a block-column,
    /// repeat no digit in any of their `k` shared columns.
    pub fn check_col_compatible(&self, other: &Self) -> (r: bool)
        requires
            exists|k: int| self.wf(k) && other.wf(k),
        ensures
            r == cols_compatible(self.col_masks.len() as int, self.cells@, other.cells@),
    {
        let k = self.col_masks.len();
        let ghost ki = k as int;
        let mut c: usize = 0;
        while c < k
            invariant
                self.wf(ki),
                other.wf(ki),
                ki == k,
                c <= k,
                forall|x: int| 0 <= x < c ==> (#[trigger] self.col_masks@[x])@.disjoint(other.col_masks@[x]@),
            decreases k - c,
        {
            if self.col_masks[c].is_conflicting(&other.col_masks[c]) {
                proof {
                    let y = choose|y: nat| self.col_masks@[c as int]@.contains(y) && other.col_masks@[c as int]@.contains(y);
                    let i = choose|i: int| 0 <= i < self.cells@.len() && i % ki == c && #[trigger] self.cells@[i] == y + 1;
                    let j = choose|j: int| 0 <= j < other.cells@.len() && j % ki == c && #[trigger] other.cells@[j] == y + 1;
                    assert(self.cells@[i] == other.cells@[j]);
                }
                return false;
            }
            c = c + 1;
        }
        proof {
            assert forall|i: int, j: int|
                0 <= i < ki * ki && 0 <= j < ki * ki && i % ki == j % ki implies #[trigger] self.cells@[i] != #[trigger] other.cells@[j] by {
                lemma_split(ki, i);
                let x = i % ki;
                let y = (self.cells@[i] - 1) as nat;
                assert(self.col_masks@[x]@.contains(y));
                if other.cells@[j] == self.cells@[i] {
                    assert(other.col_masks@[x]@.contains(y));
                }
            }
        }
        true
    }
}

} // verus!
