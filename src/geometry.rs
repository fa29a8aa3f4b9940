use vstd::arithmetic::div_mod::{lemma_fundamental_div_mod, lemma_fundamental_div_mod_converse};
use vstd::prelude::*;

verus! {

/// The block (row-major over the `k` by `k` grid of blocks) that holds cell `(r, c)`.
pub open spec fn box_of(k: int, r: int, c: int) -> int {
    (r / k) * k + c / k
}

/// The board row of relative row `i / k` of block `b`.
pub open spec fn block_row(k: int, b: int, i: int) -> int {
    (b / k) * k + i / k
}

/// The board column of relative column `i % k` of block `b`.
pub open spec fn block_col(k: int, b: int, i: int) -> int {
    (b % k) * k + i % k
}

/// The index, inside its block, of cell `(r, c)`.
pub open spec fn rel_of(k: int, r: int, c: int) -> int {
    (r % k) * k + c % k
}

/// Two distinct cells that share a row, a column or a block.
pub open spec fn peers(k: int, r1: int, c1: int, r2: int, c2: int) -> bool {
    !(r1 == r2 && c1 == c2) && (r1 == r2 || c1 == c2 || (r1 / k == r2 / k && c1 / k == c2 / k))
}

/// `x` split by `k` into a quotient and a remainder, both below `k`.
pub proof fn lemma_split(k: int, x: int)
    requires
        0 < k,
        0 <= x < k * k,
    ensures
        0 <= x / k < k,
        0 <= x % k < k,
        x == (x / k) * k + x % k,
{
    lemma_fundamental_div_mod(x, k);
    assert(x == k * (x / k) + x % k);
    assert((x / k) * k == k * (x / k)) by (nonlinear_arith);
    if x / k >= k {
        assert((x / k) * k >= k * k) by (nonlinear_arith)
            requires
                x / k >= k,
                k > 0,
        ;
    }
    if x / k < 0 {
        assert((x / k) * k < 0) by (nonlinear_arith)
            requires
                x / k < 0,
                k > 0,
        ;
    }
}

/// `q * k + p` for `q` and `p` below `k`.
pub proof fn lemma_join(k: int, q: int, p: int)
    requires
        0 < k,
        0 <= q < k,
        0 <= p < k,
    ensures
        0 <= q * k + p < k * k,
        (q * k + p) / k == q,
        (q * k + p) % k == p,
{
    assert(0 <= q * k + p < k * k) by (nonlinear_arith)
        requires
            0 <= q < k,
            0 <= p < k,
    ;
    lemma_fundamental_div_mod_converse(q * k + p, k, q, p);
}

/// Where a cell's block and its index inside that block lie.
pub proof fn lemma_cell(k: int, r: int, c: int)
    requires
        0 < k,
        0 <= r < k * k,
        0 <= c < k * k,
    ensures
        0 <= box_of(k, r, c) < k * k,
        0 <= rel_of(k, r, c) < k * k,
        box_of(k, r, c) / k == r / k,
        box_of(k, r, c) % k == c / k,
        rel_of(k, r, c) / k == r % k,
        rel_of(k, r, c) % k == c % k,
        block_row(k, box_of(k, r, c), rel_of(k, r, c)) == r,
        block_col(k, box_of(k, r, c), rel_of(k, r, c)) == c,
{
    lemma_split(k, r);
    lemma_split(k, c);
    lemma_join(k, r / k, c / k);
    lemma_join(k, r % k, c % k);
}

/// Where the cell at index `i` of block `b` lies on the board.
pub proof fn lemma_block_cell(k: int, b: int, i: int)
    requires
        0 < k,
        0 <= b < k * k,
        0 <= i < k * k,
    ensures
        0 <= block_row(k, b, i) < k * k,
        0 <= block_col(k, b, i) < k * k,
        block_row(k, b, i) / k == b / k,
        block_row(k, b, i) % k == i / k,
        block_col(k, b, i) / k == b % k,
        block_col(k, b, i) % k == i % k,
        box_of(k, block_row(k, b, i), block_col(k, b, i)) == b,
        rel_of(k, block_row(k, b, i), block_col(k, b, i)) == i,
{
    lemma_split(k, b);
    lemma_split(k, i);
    lemma_join(k, b / k, i / k);
    lemma_join(k, b % k, i % k);
}

} // verus!
