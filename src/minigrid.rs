use crate::bitstring::{below, BitString, DirtyMask, EmptyMask};
use crate::board::{no_duplicates, shaped, Board};
use crate::geometry::{block_col, block_row, box_of, lemma_block_cell, lemma_cell, peers, rel_of};
use crate::masks::{box_used, conflict_of, Masks};
use crate::extract::{ints, lemma_lex_asym, lemma_lex_total, lemma_lex_trans, lex_lt};
use crate::node::PermutationNode;
use vstd::prelude::*;
use vstd::set_lib::{lemma_int_range, lemma_len_subset, set_int_range};

verus! {

/// The cells of block `b` of grid `g`, flattened row by row.
pub open spec fn block_cells(g: Seq<Seq<u8>>, k: int, b: int) -> Seq<u8> {
    Seq::new((k * k) as nat, |i: int| g[block_row(k, b, i)][block_col(k, b, i)])
}

/// What cell `i` of block `b` cannot take.
pub open spec fn conflict_at(g: Seq<Seq<u8>>, k: int, b: int, i: int) -> Set<nat> {
    conflict_of(g, k, block_row(k, b, i), block_col(k, b, i))
}

/// A filling `f` of block `b` that keeps its given digits, uses each digit
/// `1..=k * k` once, and puts in each empty cell a digit that its row, column
/// and block do not already hold.
pub open spec fn is_candidate(g: Seq<Seq<u8>>, k: int, b: int, f: Seq<u8>) -> bool {
    &&& f.len() == k * k
    &&& forall|i: int| 0 <= i < k * k ==> 1 <= #[trigger] f[i] <= k * k
    &&& forall|i: int|
        0 <= i < k * k && #[trigger] block_cells(g, k, b)[i] != 0 ==> f[i] == block_cells(g, k, b)[i]
    &&& forall|i: int|
        0 <= i < k * k && block_cells(g, k, b)[i] == 0 ==> !(#[trigger] conflict_at(g, k, b, i)).contains(
            (f[i] - 1) as nat,
        )
    &&& forall|i: int, j: int| 0 <= i < k * k && 0 <= j < k * k && i != j ==> #[trigger] f[i] != #[trigger] f[j]
}

/// `f` keeps every non-zero value of `s`.
pub open spec fn extends(f: Seq<u8>, s: Seq<u8>) -> bool {
    forall|i: int| 0 <= i < s.len() && #[trigger] s[i] != 0 ==> f[i] == s[i]
}

/// The positions `d - 1` of the non-zero values `d` of `s`.
pub open spec fn digit_set(s: Seq<u8>) -> Set<nat> {
    Set::new(|x: nat| exists|i: int| 0 <= i < s.len() && #[trigger] s[i] == x + 1)
}

/// The indices of the zero values of `s`.
pub open spec fn zero_set(s: Seq<u8>) -> Set<int> {
    Set::new(|i: int| 0 <= i < s.len() && s[i] == 0)
}

/// A partial filling of block `b`: the given digits, and placed digits that
/// repeat nothing and that their cells may take.
pub open spec fn partial_ok(g: Seq<Seq<u8>>, k: int, b: int, s: Seq<u8>) -> bool {
    &&& s.len() == k * k
    &&& forall|i: int| 0 <= i < k * k ==> #[trigger] s[i] <= k * k
    &&& forall|i: int|
        0 <= i < k * k && #[trigger] block_cells(g, k, b)[i] != 0 ==> s[i] == block_cells(g, k, b)[i]
    &&& forall|i: int|
        0 <= i < k * k && block_cells(g, k, b)[i] == 0 && s[i] != 0 ==> !(#[trigger] conflict_at(
            g,
            k,
            b,
            i,
        )).contains((s[i] - 1) as nat)
    &&& forall|i: int, j: int|
        0 <= i < k * k && 0 <= j < k * k && i != j && #[trigger] s[i] != 0 ==> s[i] != #[trigger] s[j]
}

/// One block of a board, being filled cell by cell.
#[derive(Clone, Debug)]
pub struct Minigrid {
    pub id: usize,
    /// The side of the block.
    pub k: usize,
    /// The block's cells, row by row.
    pub cells: Vec<u8>,
    /// The cells still empty.
    pub empty: EmptyMask,
}

impl Minigrid {
    /// The block is a partial filling of block `id` of `g`, and `empty` marks its
    /// empty cells.
    pub open spec fn wf(&self, g: Seq<Seq<u8>>) -> bool {
        &&& 1 <= self.k <= 5
        &&& self.id < self.k * self.k
        &&& shaped(g, self.k as int)
        &&& partial_ok(g, self.k as int, self.id as int, self.cells@)
        &&& self.empty@ == Set::new(|i: nat| i < self.k * self.k && self.cells@[i as int] == 0)
    }

    /// Block `id` of `board` as it is given.
    pub fn new(id: usize, board: &Board) -> (r: Self)
        requires
            board.wf(),
            no_duplicates(board@, board.k as int),
            id < board.k * board.k,
        ensures
            r.wf(board@),
            r.id == id,
            r.k == board.k,
            r.cells@ == block_cells(board@, board.k as int, id as int),
    {
        let k = board.k;
        let n = board.cells.len();
        let ghost g = board@;
        let ghost ki = k as int;
        proof {
            crate::geometry::lemma_split(ki, id as int);
            assert((id % k) * k < n) by (nonlinear_arith)
                requires
                    0 <= id % k < k,
                    k >= 1,
                    n == k * k,
            ;
            assert(n <= 25) by (nonlinear_arith)
                requires
                    n == k * k,
                    k <= 5,
            ;
        }
        let start_row = (id / k) * k;
        let start_col = (id % k) * k;
        let mut cells: Vec<u8> = Vec::new();
        let mut empty = BitString::new();
        let mut i: usize = 0;
        while i < n
            invariant
                board.wf(),
                g == board@,
                ki == k,
                k == board.k,
                n == k * k,
                n <= 25,
                id < n,
                start_row == (id / k) * k,
                start_col == (id % k) * k,
                i <= n,
                cells.len() == i,
                forall|x: int| 0 <= x < i ==> #[trigger] cells@[x] == block_cells(g, ki, id as int)[x],
                empty@ == Set::new(|x: nat| x < i && cells@[x as int] == 0),
            decreases n - i,
        {
            proof {
                lemma_block_cell(ki, id as int, i as int);
                crate::geometry::lemma_split(ki, i as int);
                crate::geometry::lemma_split(ki, id as int);
                assert(start_row + i / k < n);
                assert(g[start_row + i / k] == board.cells@[start_row + i / k]@);
            }
            let value = board.cells[start_row + i / k][start_col + i % k];
            let ghost old_empty = empty@;
            empty.set_value(i, value);
            cells.push(value);
            proof {
                assert(empty@ =~= Set::new(|x: nat| x < i + 1 && cells@[x as int] == 0));
            }
            i = i + 1;
        }
        proof {
            let s = cells@;
            assert(s =~= block_cells(g, ki, id as int));
            assert forall|i: int, j: int| 0 <= i < n && 0 <= j < n && i != j && #[trigger] s[i] != 0 implies s[i] != #[trigger] s[j] by {
                lemma_block_cell(ki, id as int, i);
                lemma_block_cell(ki, id as int, j);
                let r1 = block_row(ki, id as int, i);
                let c1 = block_col(ki, id as int, i);
                let r2 = block_row(ki, id as int, j);
                let c2 = block_col(ki, id as int, j);
                assert(peers(ki, r1, c1, r2, c2));
                assert(g[r1][c1] == s[i]);
                assert(g[r2][c2] == s[j]);
            }
            assert forall|i: int| 0 <= i < n implies #[trigger] s[i] <= n by {
                lemma_block_cell(ki, id as int, i);
            }
        }
        Minigrid { id, k, cells, empty }
    }

    /// The empty cell with the fewest digits left, and the digits it cannot
    /// take; `None` when no cell is empty or some empty cell can take nothing.
    fn find_best_cell(&self, used_mask: &DirtyMask, masks: &Masks, Ghost(g): Ghost<Seq<Seq<u8>>>) -> (r:
        Option<(usize, DirtyMask)>)
        requires
            self.wf(g),
            masks.describes(g, self.k as int),
            used_mask@ == digit_set(self.cells@),
        ensures
            r matches Some((idx, f)) ==> {
                &&& idx < self.k * self.k
                &&& self.cells@[idx as int] == 0
                &&& f@ == conflict_at(g, self.k as int, self.id as int, idx as int).union(used_mask@)
                &&& f@ != below((self.k * self.k) as nat)
                &&& forall|j: int|
                    0 <= j < idx && #[trigger] self.cells@[j] == 0 ==> conflict_at(
                        g,
                        self.k as int,
                        self.id as int,
                        j,
                    ).union(used_mask@).len() < f@.len()
                &&& forall|j: int|
                    0 <= j < self.k * self.k && #[trigger] self.cells@[j] == 0 && conflict_at(
                        g,
                        self.k as int,
                        self.id as int,
                        j,
                    ).union(used_mask@) != below((self.k * self.k) as nat) ==> conflict_at(
                        g,
                        self.k as int,
                        self.id as int,
                        j,
                    ).union(used_mask@).len() <= f@.len()
            },
            r is None ==> (forall|i: int| 0 <= i < self.k * self.k ==> #[trigger] self.cells@[i] != 0) || (exists|
                i: int,
            |
                0 <= i < self.k * self.k && #[trigger] self.cells@[i] == 0 && conflict_at(
                    g,
                    self.k as int,
                    self.id as int,
                    i,
                ).union(used_mask@) == below((self.k * self.k) as nat)),
    {
        let k = self.k;
        let n = self.cells.len();
        let ghost ki = k as int;
        proof {
            assert(n <= 25) by (nonlinear_arith)
                requires
                    n == k * k,
                    k <= 5,
            ;
            crate::geometry::lemma_split(ki, self.id as int);
            assert((self.id % k) * k < n) by (nonlinear_arith)
                requires
                    0 <= self.id % k < k,
                    k >= 1,
                    n == k * k,
            ;
        }
        let start_row = (self.id / k) * k;
        let start_col = (self.id % k) * k;
        let mut best: Option<(usize, DirtyMask)> = None;
        let mut best_count: u32 = 0;
        let mut scan = self.empty;
        loop
            invariant
                self.wf(g),
                masks.describes(g, ki),
                used_mask@ == digit_set(self.cells@),
                ki == k,
                k == self.k,
                n == k * k,
                n <= 25,
                start_row == (self.id / k) * k,
                start_col == (self.id % k) * k,
                scan@.subset_of(self.empty@),
                best is None ==> scan@ == self.empty@,
                forall|j: nat, i: nat|
                    #![trigger self.empty@.contains(j), scan@.contains(i)]
                    self.empty@.contains(j) && !scan@.contains(j) && scan@.contains(i) ==> j < i,
                best matches Some((b, f)) ==> {
                    &&& b < n
                    &&& self.cells@[b as int] == 0
                    &&& f@ == conflict_at(g, ki, self.id as int, b as int).union(used_mask@)
                    &&& f@ != below(n as nat)
                    &&& best_count == f@.len()
                    &&& self.empty@.contains(b as nat)
                    &&& !scan@.contains(b as nat)
                    &&& forall|j: nat|
                        #[trigger] self.empty@.contains(j) && !scan@.contains(j) && j < b ==> conflict_at(
                            g,
                            ki,
                            self.id as int,
                            j as int,
                        ).union(used_mask@).len() < best_count
                    &&& forall|j: nat|
                        #[trigger] self.empty@.contains(j) && !scan@.contains(j) ==> conflict_at(
                            g,
                            ki,
                            self.id as int,
                            j as int,
                        ).union(used_mask@).len() <= best_count
                },
            ensures
                best is None ==> forall|i: int| 0 <= i < n ==> #[trigger] self.cells@[i] != 0,
                best matches Some((b, f)) ==> {
                    &&& b < n
                    &&& self.cells@[b as int] == 0
                    &&& f@ == conflict_at(g, ki, self.id as int, b as int).union(used_mask@)
                    &&& f@ != below(n as nat)
                    &&& forall|j: int|
                        0 <= j < b && #[trigger] self.cells@[j] == 0 ==> conflict_at(
                            g,
                            ki,
                            self.id as int,
                            j,
                        ).union(used_mask@).len() < f@.len()
                    &&& forall|j: int|
                        0 <= j < n && #[trigger] self.cells@[j] == 0 && conflict_at(
                            g,
                            ki,
                            self.id as int,
                            j,
                        ).union(used_mask@) != below(n as nat) ==> conflict_at(
                            g,
                            ki,
                            self.id as int,
                            j,
                        ).union(used_mask@).len() <= f@.len()
                },
            decreases scan.bits,
        {
            let ghost scan0 = scan@;
            match scan.next() {
                None => {
                    proof {
                        if best is None {
                            assert forall|i: int| 0 <= i < n implies #[trigger] self.cells@[i] != 0 by {
                                if self.cells@[i] == 0 {
                                    assert(self.empty@.contains(i as nat));
                                }
                            }
                        }
                        if let Some((b, f)) = best {
                            assert forall|j: int| 0 <= j < b && #[trigger] self.cells@[j] == 0 implies conflict_at(
                                g,
                                ki,
                                self.id as int,
                                j,
                            ).union(used_mask@).len() < f@.len() by {
                                assert(self.empty@.contains(j as nat));
                            }
                            assert forall|j: int|
                                0 <= j < n && #[trigger] self.cells@[j] == 0 && conflict_at(
                                    g,
                                    ki,
                                    self.id as int,
                                    j,
                                ).union(used_mask@) != below(n as nat) implies conflict_at(
                                g,
                                ki,
                                self.id as int,
                                j,
                            ).union(used_mask@).len() <= f@.len() by {
                                assert(self.empty@.contains(j as nat));
                            }
                        }
                    }
                    break;
                },
                Some(idx) => {
                    proof {
                        assert(self.empty@.contains(idx as nat));
                        assert(idx < n && self.cells@[idx as int] == 0);
                        lemma_block_cell(ki, self.id as int, idx as int);
                        crate::geometry::lemma_split(ki, idx as int);
                        assert(start_row + idx / k < n);
                        assert(start_col + idx % k < n);
                    }
                    let mut conflict = masks.conflict[start_row + idx / k][start_col + idx % k];
                    conflict.union_with(used_mask);
                    if conflict.is_all_set(n) {
                        proof {
                            assert(conflict_at(g, ki, self.id as int, idx as int).union(used_mask@) == below(n as nat));
                        }
                        return None;
                    }
                    let count = conflict.count();
                    proof {
                        assert forall|j: nat, i: nat|
                            #![trigger self.empty@.contains(j), scan@.contains(i)]
                            self.empty@.contains(j) && !scan@.contains(j) && scan@.contains(i) implies j < i by {
                            assert(scan0.contains(i));
                            if scan0.contains(j) {
                                assert(j == idx as nat);
                            }
                        }
                    }
                    if best.is_none() || count > best_count {
                        proof {
                            assert forall|j: nat|
                                #[trigger] self.empty@.contains(j) && !scan@.contains(j) && j < idx implies conflict_at(
                                    g,
                                    ki,
                                    self.id as int,
                                    j as int,
                                ).union(used_mask@).len() < count by {
                                assert(!scan0.contains(j));
                            }
                            assert forall|j: nat|
                                #[trigger] self.empty@.contains(j) && !scan@.contains(j) implies conflict_at(
                                    g,
                                    ki,
                                    self.id as int,
                                    j as int,
                                ).union(used_mask@).len() <= count by {
                                if j != idx {
                                    assert(!scan0.contains(j));
                                }
                            }
                        }
                        best_count = count;
                        best = Some((idx, conflict));
                        if count as usize + 1 == n {
                            proof {
                                assert forall|j: int|
                                    0 <= j < idx && #[trigger] self.cells@[j] == 0 implies conflict_at(
                                        g,
                                        ki,
                                        self.id as int,
                                        j,
                                    ).union(used_mask@).len() < conflict@.len() by {
                                    assert(self.empty@.contains(j as nat));
                                    if scan@.contains(j as nat) {
                                        assert(scan0.contains(j as nat));
                                    }
                                }
                                assert forall|j: int|
                                    0 <= j < n && #[trigger] self.cells@[j] == 0 && conflict_at(
                                        g,
                                        ki,
                                        self.id as int,
                                        j,
                                    ).union(used_mask@) != below(n as nat) implies conflict_at(
                                        g,
                                        ki,
                                        self.id as int,
                                        j,
                                    ).union(used_mask@).len() <= conflict@.len() by {
                                    assert(self.empty@.contains(j as nat));
                                    lemma_forbidden_below(g, ki, self.id as int, self.cells@, j);
                                    lemma_short_of_full(conflict_at(g, ki, self.id as int, j).union(used_mask@), n as nat);
                                }
                            }
                            // No empty cell can have fewer digits left.
                            break;
                        }
                    } else {
                        proof {
                            assert forall|j: nat|
                                #[trigger] self.empty@.contains(j) && !scan@.contains(j) implies conflict_at(
                                    g,
                                    ki,
                                    self.id as int,
                                    j as int,
                                ).union(used_mask@).len() <= best_count by {
                                if j != idx {
                                    assert(!scan0.contains(j));
                                }
                            }
                            if let Some((b, f)) = best {
                                assert(self.empty@.contains(b as nat) && !scan0.contains(b as nat));
                                assert(scan0.contains(idx as nat));
                                assert(b < idx);
                            }
                        }
                    }
                },
            }
        }
        best
    }

    /// Appends to `results` every filling of this block that extends its
    /// current cells, filling the most constrained empty cell first; the block
    /// is left as it was found.
    fn generate_permutations_dfs(
        &mut self,
        used_mask: &DirtyMask,
        masks: &Masks,
        results: &mut Vec<PermutationNode>,
        Ghost(g): Ghost<Seq<Seq<u8>>>,
    )
        requires
            old(self).wf(g),
            masks.describes(g, old(self).k as int),
            used_mask@ == digit_set(old(self).cells@),
        ensures
            final(self).cells@ == old(self).cells@,
            final(self).empty@ == old(self).empty@,
            final(self).id == old(self).id,
            final(self).k == old(self).k,
            final(results)@.len() >= old(results)@.len(),
            forall|t: int| 0 <= t < old(results)@.len() ==> #[trigger] final(results)@[t] == old(results)@[t],
            forall|t: int|
                old(results)@.len() <= t < final(results)@.len() ==> {
                    &&& (#[trigger] final(results)@[t]).wf(old(self).k as int)
                    &&& final(results)@[t].compatible@ == Seq::<(usize, usize)>::empty()
                    &&& is_candidate(g, old(self).k as int, old(self).id as int, final(results)@[t].cells@)
                    &&& extends(final(results)@[t].cells@, old(self).cells@)
                },
            forall|f: Seq<u8>|
                #[trigger] is_candidate(g, old(self).k as int, old(self).id as int, f) && extends(
                    f,
                    old(self).cells@,
                ) ==> exists|t: int|
                    old(results)@.len() <= t < final(results)@.len() && #[trigger] final(results)@[t].cells@ == f,
            forall|t1: int, t2: int|
                old(results)@.len() <= t1 < final(results)@.len() && old(results)@.len() <= t2 < final(results)@.len()
                    && t1 != t2 ==> (#[trigger] final(results)@[t1]).cells@ != (#[trigger] final(results)@[t2]).cells@,
        decreases zero_set(old(self).cells@).len(),
    {
        let ghost s0 = self.cells@;
        let ghost e0 = self.empty@;
        let ghost start = results@.len();
        let ghost ki = self.k as int;
        let ghost id = self.id as int;
        let k = self.k;
        let n = self.cells.len();
        proof {
            assert(n <= 25) by (nonlinear_arith)
                requires
                    n == k * k,
                    k <= 5,
            ;
        }
        match self.find_best_cell(used_mask, masks, Ghost(g)) {
            Some((idx, conflict)) => {
                let mut num: usize = 1;
                while num <= n
                    invariant
                        self.wf(g),
                        masks.describes(g, ki),
                        used_mask@ == digit_set(s0),
                        s0 == old(self).cells@,
                        self.cells@ == s0,
                        self.empty@ == e0,
                        self.id == id,
                        self.k == k,
                        ki == k,
                        n == k * k,
                        n <= 25,
                        idx < n,
                        s0[idx as int] == 0,
                        conflict@ == conflict_at(g, ki, id, idx as int).union(used_mask@),
                        1 <= num <= n + 1,
                        results@.len() >= start,
                        forall|t: int| 0 <= t < start ==> #[trigger] results@[t] == old(results)@[t],
                        forall|t: int|
                            start <= t < results@.len() ==> {
                                &&& (#[trigger] results@[t]).wf(ki)
                                &&& results@[t].compatible@ == Seq::<(usize, usize)>::empty()
                                &&& is_candidate(g, ki, id, results@[t].cells@)
                                &&& extends(results@[t].cells@, s0)
                            },
                        forall|f: Seq<u8>|
                            #[trigger] is_candidate(g, ki, id, f) && extends(f, s0) && f[idx as int] < num
                                ==> exists|t: int| start <= t < results@.len() && #[trigger] results@[t].cells@ == f,
                        forall|t: int| start <= t < results@.len() ==> (#[trigger] results@[t]).cells@[idx as int] < num,
                        forall|t1: int, t2: int|
                            start <= t1 < results@.len() && start <= t2 < results@.len() && t1 != t2
                                ==> (#[trigger] results@[t1]).cells@ != (#[trigger] results@[t2]).cells@,
                    decreases n + 1 - num,
                {
                    if !conflict.is_dirty(num) {
                        let ghost before_len = results@.len();
                        let ghost prev = results@;
                        let d = num as u8;
                        proof {
                            lemma_place(g, ki, id, s0, idx as int, d);
                        }
                        self.cells.set(idx, d);
                        self.empty.reset(idx);
                        let mut next = *used_mask;
                        next.dirty_set(num);
                        proof {
                            assert(self.empty@ =~= Set::new(|i: nat| i < k * k && self.cells@[i as int] == 0));
                            assert(self.cells@ == s0.update(idx as int, d));
                            assert(zero_set(self.cells@).len() < zero_set(s0).len());
                        }
                        self.generate_permutations_dfs(&next, masks, results, Ghost(g));
                        self.cells.set(idx, 0);
                        self.empty.set(idx);
                        proof {
                            assert(self.cells@ =~= s0);
                            assert(self.empty@ =~= e0);
                            let s1 = s0.update(idx as int, d);
                            assert forall|f: Seq<u8>|
                                #[trigger] is_candidate(g, ki, id, f) && extends(f, s0) && f[idx as int] < num + 1
                                implies exists|t: int| start <= t < results@.len() && #[trigger] results@[t].cells@ == f by {
                                if f[idx as int] < num {
                                    let t = choose|t: int| start <= t < before_len && #[trigger] prev[t].cells@ == f;
                                    assert(results@[t] == prev[t]);
                                } else {
                                    assert(f[idx as int] == num);
                                    assert(extends(f, s1));
                                }
                            }
                            assert forall|t: int| start <= t < results@.len() implies extends(#[trigger] results@[t].cells@, s0) && results@[t].cells@[idx as int] < num + 1 by {
                                if t >= before_len {
                                    assert(extends(results@[t].cells@, s1));
                                    assert(s1[idx as int] == d);
                                } else {
                                    assert(results@[t] == prev[t]);
                                }
                            }
                            assert forall|t1: int, t2: int|
                                start <= t1 < results@.len() && start <= t2 < results@.len() && t1 != t2
                                implies (#[trigger] results@[t1]).cells@ != (#[trigger] results@[t2]).cells@ by {
                                if t1 >= before_len && t2 < before_len {
                                    assert(extends(results@[t1].cells@, s1));
                                    assert(s1[idx as int] == d);
                                    assert(results@[t2] == prev[t2]);
                                    assert(results@[t1].cells@[idx as int] != results@[t2].cells@[idx as int]);
                                } else if t2 >= before_len && t1 < before_len {
                                    assert(extends(results@[t2].cells@, s1));
                                    assert(s1[idx as int] == d);
                                    assert(results@[t1] == prev[t1]);
                                    assert(results@[t1].cells@[idx as int] != results@[t2].cells@[idx as int]);
                                } else if t1 < before_len && t2 < before_len {
                                    assert(results@[t1] == prev[t1]);
                                    assert(results@[t2] == prev[t2]);
                                }
                            }
                        }
                    } else {
                        proof {
                            lemma_blocked(g, ki, id, s0, idx as int, num as int);
                        }
                    }
                    num = num + 1;
                }
                proof {
                    assert forall|f: Seq<u8>|
                        #[trigger] is_candidate(g, ki, id, f) && extends(f, s0)
                        implies exists|t: int| start <= t < results@.len() && #[trigger] results@[t].cells@ == f by {
                        assert(f[idx as int] < num);
                    }
                }
            },
            None => {
                if self.empty.is_clear() {
                    proof {
                        assert forall|i: int| 0 <= i < n implies #[trigger] s0[i] != 0 by {
                            if s0[i] == 0 {
                                assert(self.empty@.contains(i as nat));
                            }
                        }
                        lemma_filled(g, ki, id, s0);
                    }
                    let cells = self.cells.clone();
                    proof {
                        assert(cells@ =~= s0);
                    }
                    results.push(PermutationNode::from_minigrid(k, cells));
                    proof {
                        assert forall|f: Seq<u8>|
                            #[trigger] is_candidate(g, ki, id, f) && extends(f, s0)
                            implies exists|t: int| start <= t < results@.len() && #[trigger] results@[t].cells@ == f by {
                            assert(f =~= s0);
                            assert(results@[start as int].cells@ == f);
                        }
                    }
                } else {
                    proof {
                        assert(exists|x: nat| self.empty@.contains(x)) by {
                            if !(exists|x: nat| self.empty@.contains(x)) {
                                assert(self.empty@ =~= Set::<nat>::empty());
                            }
                        }
                        let x = choose|x: nat| self.empty@.contains(x);
                        assert(x < n && s0[x as int] == 0);
                        assert(!(forall|i: int| 0 <= i < n ==> #[trigger] s0[i] != 0));
                        let i = choose|i: int|
                            0 <= i < n && #[trigger] s0[i] == 0 && conflict_at(g, ki, id, i).union(used_mask@)
                                == below(n as nat);
                        lemma_dead_end(g, ki, id, s0, i);
                    }
                }
            },
        }
    }
}

/// The positions `0..n` are `n` of them.
proof fn lemma_below_len(n: nat)
    ensures
        below(n).finite(),
        below(n).len() == n,
    decreases n,
{
    if n == 0 {
        assert(below(0) =~= Set::<nat>::empty());
    } else {
        lemma_below_len((n - 1) as nat);
        assert(below(n) =~= below((n - 1) as nat).insert((n - 1) as nat));
    }
}

/// A set of positions below `n` other than all of them has fewer than `n`.
proof fn lemma_short_of_full(f: Set<nat>, n: nat)
    requires
        f.subset_of(below(n)),
        f != below(n),
    ensures
        f.len() < n,
{
    lemma_below_len(n);
    assert(exists|x: nat| below(n).contains(x) && !f.contains(x)) by {
        if !(exists|x: nat| below(n).contains(x) && !f.contains(x)) {
            assert(f =~= below(n));
        }
    }
    let x = choose|x: nat| below(n).contains(x) && !f.contains(x);
    f.lemma_subset_not_in_lt(below(n), x);
}

/// What an empty cell cannot take lies among the positions of the digits.
proof fn lemma_forbidden_below(g: Seq<Seq<u8>>, k: int, b: int, s: Seq<u8>, j: int)
    requires
        1 <= k,
        0 <= b < k * k,
        shaped(g, k),
        partial_ok(g, k, b, s),
        0 <= j < k * k,
    ensures
        conflict_at(g, k, b, j).union(digit_set(s)).subset_of(below((k * k) as nat)),
{
    let n = k * k;
    lemma_block_cell(k, b, j);
    let r = block_row(k, b, j);
    let c = block_col(k, b, j);
    assert forall|x: nat| #[trigger] conflict_at(g, k, b, j).union(digit_set(s)).contains(x) implies x < n by {
        if digit_set(s).contains(x) {
            let i = choose|i: int| 0 <= i < s.len() && #[trigger] s[i] == x + 1;
        } else if g[r][c] == 0 {
            if crate::masks::row_used(g, k, r).contains(x) {
                let c2 = choose|c2: int| 0 <= c2 < n && crate::masks::before(r, c2, n, 0) && #[trigger] g[r][c2] == x + 1;
            } else if crate::masks::col_used(g, k, c).contains(x) {
                let r2 = choose|r2: int| 0 <= r2 < n && crate::masks::before(r2, c, n, 0) && #[trigger] g[r2][c] == x + 1;
            } else {
                let (r2, c2) = choose|r2: int, c2: int|
                    0 <= r2 < n && 0 <= c2 < n && crate::masks::before(r2, c2, n, 0) && box_of(k, r2, c2)
                        == box_of(k, r, c) && #[trigger] g[r2][c2] == x + 1;
            }
        }
    }
}

/// Placing `num` in empty cell `idx`, where nothing forbids it, keeps a partial
/// filling valid and leaves exactly the fillings that put `num` there.
proof fn lemma_place(g: Seq<Seq<u8>>, k: int, b: int, s: Seq<u8>, idx: int, d: u8)
    requires
        1 <= k <= 5,
        0 <= b < k * k,
        shaped(g, k),
        partial_ok(g, k, b, s),
        0 <= idx < k * k,
        s[idx] == 0,
        1 <= d <= k * k,
        !conflict_at(g, k, b, idx).union(digit_set(s)).contains((d - 1) as nat),
    ensures
        partial_ok(g, k, b, s.update(idx, d)),
        digit_set(s.update(idx, d)) == digit_set(s).insert((d - 1) as nat),
        zero_set(s).finite(),
        zero_set(s.update(idx, d)).len() < zero_set(s).len(),
        forall|f: Seq<u8>|
            #[trigger] is_candidate(g, k, b, f) && extends(f, s) && f[idx] == d ==> extends(
                f,
                s.update(idx, d),
            ),
        forall|f: Seq<u8>|
            #[trigger] is_candidate(g, k, b, f) && extends(f, s.update(idx, d)) ==> extends(f, s)
                && f[idx] == d,
{
    let n = k * k;
    let s1 = s.update(idx, d);
    assert(block_cells(g, k, b)[idx] == 0);
    assert forall|i: int, j: int| 0 <= i < n && 0 <= j < n && i != j && #[trigger] s1[i] != 0 implies s1[i] != #[trigger] s1[j] by {
        if i == idx {
            if s1[j] == d {
                assert(s[j] == d);
                assert(digit_set(s).contains((d - 1) as nat));
            }
        } else if j == idx {
            if s1[i] == d {
                assert(s[i] == d);
                assert(digit_set(s).contains((d - 1) as nat));
            }
        } else {
            assert(s[i] != s[j]);
        }
    }
    assert(partial_ok(g, k, b, s1));
    assert forall|x: nat| digit_set(s).insert((d - 1) as nat).contains(x) implies #[trigger] digit_set(s1).contains(x) by {
        if x == (d - 1) as nat {
            assert(s1[idx] == x + 1);
        } else {
            let i = choose|i: int| 0 <= i < s.len() && #[trigger] s[i] == x + 1;
            assert(s1[i] == x + 1);
        }
    }
    assert(digit_set(s1) =~= digit_set(s).insert((d - 1) as nat));
    lemma_int_range(0, n);
    assert(zero_set(s).subset_of(set_int_range(0, n)));
    lemma_len_subset(zero_set(s), set_int_range(0, n));
    assert(zero_set(s1) =~= zero_set(s).remove(idx));
    assert(zero_set(s).contains(idx));
    assert forall|f: Seq<u8>| #[trigger] is_candidate(g, k, b, f) && extends(f, s1) implies extends(f, s) && f[idx] == d by {
        assert(s1[idx] == d);
        assert forall|i: int| 0 <= i < s.len() && #[trigger] s[i] != 0 implies f[i] == s[i] by {
            assert(s1[i] == s[i]);
        }
    }
    assert forall|f: Seq<u8>| #[trigger] is_candidate(g, k, b, f) && extends(f, s) && f[idx] == d implies extends(f, s1) by {
        assert forall|i: int| 0 <= i < s1.len() && #[trigger] s1[i] != 0 implies f[i] == s1[i] by {
            if i != idx {
                assert(s1[i] == s[i]);
            }
        }
    }
}

/// No filling that extends `s` puts in cell `idx` a digit that the cell's
/// row, column or block, or `s` itself, already holds.
proof fn lemma_blocked(g: Seq<Seq<u8>>, k: int, b: int, s: Seq<u8>, idx: int, num: int)
    requires
        partial_ok(g, k, b, s),
        0 <= idx < k * k,
        s[idx] == 0,
        1 <= num,
        conflict_at(g, k, b, idx).union(digit_set(s)).contains((num - 1) as nat),
    ensures
        forall|f: Seq<u8>| #[trigger] is_candidate(g, k, b, f) && extends(f, s) ==> f[idx] != num,
{
    assert(block_cells(g, k, b)[idx] == 0);
    assert forall|f: Seq<u8>| #[trigger] is_candidate(g, k, b, f) && extends(f, s) implies f[idx] != num by {
        if f[idx] == num {
            if !conflict_at(g, k, b, idx).contains((num - 1) as nat) {
                let j = choose|j: int| 0 <= j < s.len() && #[trigger] s[j] == (num - 1) as nat + 1;
                assert(f[j] == s[j]);
                assert(j != idx);
            }
        }
    }
}

/// A partial filling with no empty cell is the only filling that extends it.
proof fn lemma_filled(g: Seq<Seq<u8>>, k: int, b: int, s: Seq<u8>)
    requires
        partial_ok(g, k, b, s),
        forall|i: int| 0 <= i < k * k ==> #[trigger] s[i] != 0,
    ensures
        is_candidate(g, k, b, s),
        forall|f: Seq<u8>| #[trigger] is_candidate(g, k, b, f) && extends(f, s) ==> f == s,
{
    assert forall|f: Seq<u8>| #[trigger] is_candidate(g, k, b, f) && extends(f, s) implies f == s by {
        assert(f =~= s);
    }
}

/// When some empty cell can take no digit, no filling extends `s`.
proof fn lemma_dead_end(g: Seq<Seq<u8>>, k: int, b: int, s: Seq<u8>, idx: int)
    requires
        partial_ok(g, k, b, s),
        0 <= idx < k * k,
        s[idx] == 0,
        conflict_at(g, k, b, idx).union(digit_set(s)) == below((k * k) as nat),
    ensures
        forall|f: Seq<u8>| #[trigger] is_candidate(g, k, b, f) ==> !extends(f, s),
{
    assert forall|f: Seq<u8>| #[trigger] is_candidate(g, k, b, f) implies !extends(f, s) by {
        if extends(f, s) {
            let num = f[idx] as int;
            assert(below((k * k) as nat).contains((num - 1) as nat));
            lemma_blocked(g, k, b, s, idx, num);
        }
    }
}

/// The digits given in a block are those its cells hold.
proof fn lemma_box_digits(g: Seq<Seq<u8>>, k: int, b: int)
    requires
        1 <= k,
        0 <= b < k * k,
        shaped(g, k),
    ensures
        box_used(g, k, b) == digit_set(block_cells(g, k, b)),
{
    let n = k * k;
    let s = block_cells(g, k, b);
    assert forall|x: nat| box_used(g, k, b).contains(x) implies #[trigger] digit_set(s).contains(x) by {
        let (r, c) = choose|r: int, c: int|
            0 <= r < n && 0 <= c < n && crate::masks::before(r, c, n, 0) && box_of(k, r, c) == b
                && #[trigger] g[r][c] == x + 1;
        lemma_cell(k, r, c);
        let i = rel_of(k, r, c);
        assert(s[i] == g[r][c]);
    }
    assert forall|x: nat| digit_set(s).contains(x) implies #[trigger] box_used(g, k, b).contains(x) by {
        let i = choose|i: int| 0 <= i < s.len() && #[trigger] s[i] == x + 1;
        lemma_block_cell(k, b, i);
        let r = block_row(k, b, i);
        let c = block_col(k, b, i);
        assert(crate::masks::before(r, c, n, 0));
        assert(g[r][c] == x + 1);
    }
    assert(box_used(g, k, b) =~= digit_set(s));
}

/// `r` lists, with no edges yet, the fillings of block `b` of `g`: each is one,
/// and each one is there, in increasing lexicographic order of cells.
pub open spec fn lists_block(g: Seq<Seq<u8>>, k: int, b: int, r: Seq<PermutationNode>) -> bool {
    &&& forall|t1: int, t2: int|
        0 <= t1 < t2 < r.len() ==> lex_lt(ints((#[trigger] r[t1]).cells@), ints((#[trigger] r[t2]).cells@))
    &&& forall|t: int|
        0 <= t < r.len() ==> {
            &&& (#[trigger] r[t]).wf(k)
            &&& r[t].compatible@ == Seq::<(usize, usize)>::empty()
            &&& is_candidate(g, k, b, r[t].cells@)
        }
    &&& forall|f: Seq<u8>| #[trigger] is_candidate(g, k, b, f) ==> exists|t: int| 0 <= t < r.len() && #[trigger] r[t].cells@ == f
}

/// Every filling of block `id` of `board` (see `is_candidate`).
pub fn permutations_of(board: &Board, masks: &Masks, id: usize) -> (r: Vec<PermutationNode>)
    requires
        board.wf(),
        no_duplicates(board@, board.k as int),
        masks.describes(board@, board.k as int),
        id < board.k * board.k,
    ensures
        lists_block(board@, board.k as int, id as int, r@),
{
    let ghost g = board@;
    let mut mg = Minigrid::new(id, board);
    let mut results: Vec<PermutationNode> = Vec::new();
    let used_mask = masks.boxs[id];
    proof {
        lemma_box_digits(g, board.k as int, id as int);
        assert forall|f: Seq<u8>| #[trigger] is_candidate(g, board.k as int, id as int, f) implies extends(f, mg.cells@) by {
        }
    }
    mg.generate_permutations_dfs(&used_mask, masks, &mut results, Ghost(g));
    let sorted = sort_by_cells(results, Ghost((board.k * board.k) as nat));
    proof {
        let k = board.k as int;
        assert forall|t: int|
            0 <= t < sorted@.len() implies {
                &&& (#[trigger] sorted@[t]).wf(k)
                &&& sorted@[t].compatible@ == Seq::<(usize, usize)>::empty()
                &&& is_candidate(g, k, id as int, sorted@[t].cells@)
            } by {
            assert(sorted@.contains(sorted@[t]));
            let j = choose|j: int| 0 <= j < results@.len() && results@[j] == sorted@[t];
        }
        assert forall|f: Seq<u8>| #[trigger] is_candidate(g, k, id as int, f) implies exists|t: int|
            0 <= t < sorted@.len() && #[trigger] sorted@[t].cells@ == f by {
            let j = choose|j: int| 0 <= j < results@.len() && #[trigger] results@[j].cells@ == f;
            assert(results@.contains(results@[j]));
            assert(sorted@.contains(results@[j]));
            let t = choose|t: int| 0 <= t < sorted@.len() && sorted@[t] == results@[j];
            assert(sorted@[t].cells@ == f);
        }
    }
    sorted
}

/// Whether `a` comes before `b` in lexicographic order.
fn cells_less(a: &Vec<u8>, b: &Vec<u8>) -> (r: bool)
    requires
        a.len() == b.len(),
    ensures
        r == lex_lt(ints(a@), ints(b@)),
{
    let n = a.len();
    let mut i: usize = 0;
    while i < n && a[i] == b[i]
        invariant
            n == a.len(),
            n == b.len(),
            i <= n,
            forall|m: int| 0 <= m < i ==> #[trigger] a@[m] == b@[m],
        decreases n - i,
    {
        i = i + 1;
    }
    proof {
        let x = ints(a@);
        let y = ints(b@);
        assert(x.subrange(0, i as int) =~= y.subrange(0, i as int));
        if i == n {
            assert(x =~= y);
            if lex_lt(x, y) {
                lemma_lex_asym(x, y);
            }
        } else if a[i as int] > b[i as int] {
            assert(y[i as int] < x[i as int]);
            assert(lex_lt(y, x));
            lemma_lex_asym(y, x);
        } else {
            assert(x[i as int] < y[i as int]);
        }
    }
    i < n && a[i] < b[i]
}

/// The nodes are in strictly increasing lexicographic order of their cells.
pub open spec fn sorted_by_cells(s: Seq<PermutationNode>) -> bool {
    forall|i1: int, i2: int|
        0 <= i1 < i2 < s.len() ==> lex_lt(ints((#[trigger] s[i1]).cells@), ints((#[trigger] s[i2]).cells@))
}

/// Inserts `x` into the sorted `out` at its place.
fn insert_sorted(out: &mut Vec<PermutationNode>, x: PermutationNode, Ghost(len): Ghost<nat>)
    requires
        sorted_by_cells(old(out)@),
        x.cells@.len() == len,
        forall|m: int| 0 <= m < old(out)@.len() ==> (#[trigger] old(out)@[m]).cells@.len() == len,
        forall|m: int| 0 <= m < old(out)@.len() ==> (#[trigger] old(out)@[m]).cells@ != x.cells@,
    ensures
        final(out)@.len() == old(out)@.len() + 1,
        forall|e: PermutationNode| #[trigger] final(out)@.contains(e) <==> (old(out)@.contains(e) || e == x),
        sorted_by_cells(final(out)@),
{
    let mut i: usize = 0;
    while i < out.len() && cells_less(&out[i].cells, &x.cells)
        invariant
            i <= out@.len(),
            x.cells@.len() == len,
            forall|m: int| 0 <= m < out@.len() ==> (#[trigger] out@[m]).cells@.len() == len,
            forall|m: int| 0 <= m < i ==> lex_lt(ints((#[trigger] out@[m]).cells@), ints(x.cells@)),
        decreases out@.len() - i,
    {
        proof {
            assert(out@[i as int].cells@.len() == len);
        }
        i = i + 1;
    }
    let ghost o0 = out@;
    proof {
        if i < o0.len() {
            let y = o0[i as int].cells@;
            assert(y != x.cells@);
            assert(ints(y) != ints(x.cells@)) by {
                if ints(y) == ints(x.cells@) {
                    assert(y =~= x.cells@) by {
                        assert forall|m: int| 0 <= m < len implies y[m] == x.cells@[m] by {
                            assert(ints(y)[m] == ints(x.cells@)[m]);
                        }
                    }
                }
            }
            lemma_lex_total(ints(y), ints(x.cells@));
        }
    }
    out.insert(i, x);
    proof {
        assert forall|i1: int, i2: int|
            0 <= i1 < i2 < out@.len() implies lex_lt(ints((#[trigger] out@[i1]).cells@), ints((#[trigger] out@[i2]).cells@)) by {
            if i2 < i {
                assert(out@[i1] == o0[i1] && out@[i2] == o0[i2]);
            } else if i2 == i {
                assert(out@[i1] == o0[i1]);
            } else if i1 < i {
                assert(out@[i1] == o0[i1] && out@[i2] == o0[i2 - 1]);
                if i2 - 1 > i {
                    lemma_lex_trans(ints(x.cells@), ints(o0[i as int].cells@), ints(o0[i2 - 1].cells@));
                }
                lemma_lex_trans(ints(o0[i1].cells@), ints(x.cells@), ints(o0[i2 - 1].cells@));
            } else if i1 == i {
                assert(out@[i2] == o0[i2 - 1]);
                if i2 - 1 > i {
                    lemma_lex_trans(ints(x.cells@), ints(o0[i as int].cells@), ints(o0[i2 - 1].cells@));
                }
            } else {
                assert(out@[i1] == o0[i1 - 1] && out@[i2] == o0[i2 - 1]);
            }
        }
        assert forall|e: PermutationNode| #[trigger] out@.contains(e) <==> (o0.contains(e) || e == x) by {
            if out@.contains(e) {
                let m = choose|m: int| 0 <= m < out@.len() && out@[m] == e;
                if m < i {
                    assert(o0[m] == e);
                } else if m > i {
                    assert(o0[m - 1] == e);
                }
            }
            if o0.contains(e) {
                let m = choose|m: int| 0 <= m < o0.len() && o0[m] == e;
                if m < i {
                    assert(out@[m] == e);
                } else {
                    assert(out@[m + 1] == e);
                }
            }
            if e == x {
                assert(out@[i as int] == e);
            }
        }
    }
}

/// The nodes of `v` in increasing lexicographic order of their cells, which are
/// of one length and pairwise distinct.
fn sort_by_cells(v: Vec<PermutationNode>, Ghost(len): Ghost<nat>) -> (r: Vec<PermutationNode>)
    requires
        forall|i: int| 0 <= i < v@.len() ==> (#[trigger] v@[i]).cells@.len() == len,
        forall|i: int, j: int|
            0 <= i < v@.len() && 0 <= j < v@.len() && i != j ==> (#[trigger] v@[i]).cells@ != (#[trigger] v@[j]).cells@,
    ensures
        r@.len() == v@.len(),
        forall|e: PermutationNode| #[trigger] r@.contains(e) <==> v@.contains(e),
        sorted_by_cells(r@),
{
    let ghost orig = v@;
    let mut rest = v;
    let mut out: Vec<PermutationNode> = Vec::new();
    while rest.len() > 0
        invariant
            rest@ == orig.subrange(0, rest@.len() as int),
            out@.len() + rest@.len() == orig.len(),
            forall|i: int| 0 <= i < orig.len() ==> (#[trigger] orig[i]).cells@.len() == len,
            forall|i: int, j: int|
                0 <= i < orig.len() && 0 <= j < orig.len() && i != j ==> (#[trigger] orig[i]).cells@
                    != (#[trigger] orig[j]).cells@,
            forall|e: PermutationNode|
                #[trigger] out@.contains(e) <==> orig.subrange(rest@.len() as int, orig.len() as int).contains(e),
            sorted_by_cells(out@),
        decreases rest@.len(),
    {
        let ghost xi = rest@.len() - 1;
        let ghost tail = orig.subrange(rest@.len() as int, orig.len() as int);
        let x = rest.pop().unwrap();
        proof {
            assert(x == orig[xi]);
            assert forall|m: int| 0 <= m < out@.len() implies (#[trigger] out@[m]).cells@.len() == len
                && out@[m].cells@ != x.cells@ by {
                assert(out@.contains(out@[m]));
                let j = choose|j: int| 0 <= j < tail.len() && tail[j] == out@[m];
                assert(tail[j] == orig[xi + 1 + j]);
            }
        }
        let ghost o0 = out@;
        insert_sorted(&mut out, x, Ghost(len));
        proof {
            let tail2 = orig.subrange(rest@.len() as int, orig.len() as int);
            assert(tail2 =~= seq![x] + tail);
            assert forall|e: PermutationNode| #[trigger] out@.contains(e) <==> tail2.contains(e) by {
                if tail2.contains(e) {
                    let j = choose|j: int| 0 <= j < tail2.len() && tail2[j] == e;
                    if j > 0 {
                        assert(tail[j - 1] == e);
                        assert(o0.contains(e));
                    }
                }
                if tail.contains(e) {
                    let j = choose|j: int| 0 <= j < tail.len() && tail[j] == e;
                    assert(tail2[j + 1] == e);
                }
                if e == x {
                    assert(tail2[0] == e);
                }
            }
            assert(rest@ =~= orig.subrange(0, rest@.len() as int));
        }
    }
    proof {
        assert(orig.subrange(0, orig.len() as int) =~= orig);
    }
    out
}

} // verus!
