use vstd::prelude::*;
use vstd::std_specs::bits::{axiom_u32_trailing_zeros, u32_trailing_zeros};

verus! {

/// Bit `i` of the word `b`.
pub open spec fn bit_at(b: u32, i: u32) -> bool {
    (b >> i) & 1u32 == 1u32
}

/// The positions `0..n` as a set.
pub open spec fn below(n: nat) -> Set<nat> {
    Set::new(|i: nat| i < n)
}

proof fn lemma_bit_or(a: u32, b: u32, i: u32)
    by (bit_vector)
    requires
        i < 32,
    ensures
        bit_at(a | b, i) == (bit_at(a, i) || bit_at(b, i)),
{
}

proof fn lemma_bit_and(a: u32, b: u32, i: u32)
    by (bit_vector)
    requires
        i < 32,
    ensures
        bit_at(a & b, i) == (bit_at(a, i) && bit_at(b, i)),
{
}

proof fn lemma_bit_xor(a: u32, b: u32, i: u32)
    by (bit_vector)
    requires
        i < 32,
    ensures
        bit_at(a ^ b, i) == (bit_at(a, i) != bit_at(b, i)),
{
}

pub(crate) proof fn lemma_bit_single(j: u32, i: u32)
    by (bit_vector)
    requires
        i < 32,
        j < 32,
    ensures
        bit_at(1u32 << j, i) == (i == j),
        bit_at(!(1u32 << j), i) == (i != j),
{
}

proof fn lemma_bit_zero(i: u32)
    by (bit_vector)
    requires
        i < 32,
    ensures
        !bit_at(0u32, i),
{
}

pub(crate) proof fn lemma_bit_low_mask(n: u32, i: u32)
    by (bit_vector)
    requires
        i < 32,
        n < 32,
    ensures
        bit_at(((1u32 << n) - 1u32) as u32, i) == (i < n),
{
}

/// Clearing the lowest set bit `t` of `b` with `b & (b - 1)`.
proof fn lemma_clear_lowest(b: u32, t: u32, i: u32)
    by (bit_vector)
    requires
        b != 0,
        t < 32,
        i < 32,
        (b >> t) & 1u32 == 1u32,
        b << vstd::prelude::sub(32u32, t) == 0u32,
    ensures
        bit_at(b & ((b - 1u32) as u32), i) == (i != t && bit_at(b, i)),
        bit_at(b, i) ==> t <= i,
{
}

/// A non-zero word has a set bit.
proof fn lemma_nonzero_has_bit(x: u32)
    requires
        x != 0,
    ensures
        exists|i: u32| i < 32 && #[trigger] bit_at(x, i),
{
    axiom_u32_trailing_zeros(x);
    let t = u32_trailing_zeros(x);
    assert(bit_at(x, t));
}

/// A set of positions below 32, one bit each: the cell indices of a block, or
/// digits, digit `d` at position `d - 1`.
#[derive(Clone, Copy, Debug, PartialEq, Eq)]
pub struct BitString {
    pub bits: u32,
}

impl View for BitString {
    type V = Set<nat>;

    open spec fn view(&self) -> Set<nat> {
        Set::new(|i: nat| i < 32 && bit_at(self.bits, i as u32))
    }
}

/// A set of cell indices: bit `i` is set when cell `i` is empty.
pub type EmptyMask = BitString;

/// A set of digits: bit `d - 1` is set when digit `d` is present.
pub type DirtyMask = BitString;

/// The view of a word as a set of positions.
pub open spec fn positions(b: u32) -> Set<nat> {
    Set::new(|i: nat| i < 32 && bit_at(b, i as u32))
}

/// Two words with the same positions are equal.
proof fn lemma_positions_injective(a: u32, b: u32)
    requires
        positions(a) == positions(b),
    ensures
        a == b,
{
    if a != b {
        assert(a ^ b != 0) by (bit_vector)
            requires
                a != b,
        ;
        lemma_nonzero_has_bit(a ^ b);
        let i = choose|i: u32| i < 32 && #[trigger] bit_at(a ^ b, i);
        lemma_bit_xor(a, b, i);
        let j = i as nat;
        assert(j as u32 == i);
        assert(positions(a).contains(j) == bit_at(a, i));
        assert(positions(b).contains(j) == bit_at(b, i));
    }
}

impl BitString {
    /// The empty set.
    pub fn new() -> (r: Self)
        ensures
            r@ == Set::<nat>::empty(),
    {
        let r = BitString { bits: 0 };
        proof {
            assert forall|i: nat| !r@.contains(i) by {
                if i < 32 {
                    lemma_bit_zero(i as u32);
                }
            }
            assert(r@ =~= Set::<nat>::empty());
        }
        r
    }

    /// Whether exactly the positions `0..n` are set.
    pub fn is_all_set(&self, n: usize) -> (r: bool)
        requires
            n < 32,
        ensures
            r == (self@ == below(n as nat)),
    {
        proof {
            let s = n as u32;
            assert(1u32 << s >= 1u32) by (bit_vector)
                requires
                    s < 32,
            ;
        }
        let mask: u32 = (1u32 << (n as u32)) - 1;
        proof {
            assert forall|i: u32| i < 32 implies bit_at(mask, i) == (i < n) by {
                lemma_bit_low_mask(n as u32, i);
            }
            assert(positions(mask) =~= below(n as nat));
            assert(self@ == positions(self.bits));
            if self.bits != mask {
                if positions(self.bits) == positions(mask) {
                    lemma_positions_injective(self.bits, mask);
                }
            }
        }
        self.bits == mask
    }

    /// Adds position `idx`.
    pub fn set(&mut self, idx: usize)
        requires
            idx < 32,
        ensures
            final(self)@ == old(self)@.insert(idx as nat),
    {
        let ghost a = self.bits;
        self.bits = self.bits | (1u32 << (idx as u32));
        proof {
            assert forall|i: nat| #[trigger] final(self)@.contains(i) == old(self)@.insert(idx as nat).contains(i) by {
                if i < 32 {
                    lemma_bit_or(a, 1u32 << (idx as u32), i as u32);
                    lemma_bit_single(idx as u32, i as u32);
                }
            }
            assert(final(self)@ =~= old(self)@.insert(idx as nat));
        }
    }

    /// Removes position `idx`.
    pub fn reset(&mut self, idx: usize)
        requires
            idx < 32,
        ensures
            final(self)@ == old(self)@.remove(idx as nat),
    {
        let ghost a = self.bits;
        self.bits = self.bits & !(1u32 << (idx as u32));
        proof {
            assert forall|i: nat| #[trigger] final(self)@.contains(i) == old(self)@.remove(idx as nat).contains(i) by {
                if i < 32 {
                    lemma_bit_and(a, !(1u32 << (idx as u32)), i as u32);
                    lemma_bit_single(idx as u32, i as u32);
                }
            }
            assert(final(self)@ =~= old(self)@.remove(idx as nat));
        }
    }

    /// The underlying word.
    pub fn get(&self) -> (r: &u32)
        ensures
            *r == self.bits,
    {
        &self.bits
    }

    /// Removes every position.
    pub fn clear(&mut self)
        ensures
            final(self)@ == Set::<nat>::empty(),
    {
        *self = BitString::new();
    }

    /// Whether position `i` is set.
    pub fn is_set(&self, i: usize) -> (r: bool)
        requires
            i < 32,
        ensures
            r == self@.contains(i as nat),
    {
        proof {
            lemma_bit_and(self.bits, 1u32 << (i as u32), i as u32);
            lemma_bit_single(i as u32, i as u32);
            let b = self.bits;
            let s = i as u32;
            assert(((b & (1u32 << s)) != 0) == bit_at(b, s)) by (bit_vector)
                requires
                    s < 32,
            ;
        }
        (self.bits & (1u32 << (i as u32))) != 0
    }

    /// The union of two sets.
    pub fn union(&self, other: &Self) -> (r: Self)
        ensures
            r@ == self@.union(other@),
    {
        let r = BitString { bits: self.bits | other.bits };
        proof {
            assert forall|i: nat| #[trigger] r@.contains(i) == self@.union(other@).contains(i) by {
                if i < 32 {
                    lemma_bit_or(self.bits, other.bits, i as u32);
                }
            }
            assert(r@ =~= self@.union(other@));
        }
        r
    }

    /// Adds every position of `other`.
    pub fn union_with(&mut self, other: &Self)
        ensures
            final(self)@ == old(self)@.union(other@),
    {
        *self = self.union(other);
    }

    /// Whether the two sets share a position.
    pub fn is_conflicting(&self, other: &Self) -> (r: bool)
        ensures
            r == !self@.disjoint(other@),
    {
        let x = self.bits & other.bits;
        proof {
            if x != 0 {
                lemma_nonzero_has_bit(x);
                let i = choose|i: u32| i < 32 && #[trigger] bit_at(x, i);
                lemma_bit_and(self.bits, other.bits, i);
                assert(self@.contains(i as nat) && other@.contains(i as nat));
            } else {
                assert forall|i: nat| self@.contains(i) implies !other@.contains(i) by {
                    lemma_bit_and(self.bits, other.bits, i as u32);
                    lemma_bit_zero(i as u32);
                }
            }
        }
        x != 0
    }

    /// The number of positions set.
    pub fn count(&self) -> (r: u32)
        ensures
            r as int == self@.len(),
            r <= 32,
    {
        let mut c: u32 = 0;
        let mut i: u32 = 0;
        let ghost mut seen: Set<nat> = Set::empty();
        while i < 32
            invariant
                i <= 32,
                c <= i,
                seen == self@.filter(|j: nat| j < i),
                seen.finite(),
                c as int == seen.len(),
            decreases 32 - i,
        {
            let ghost old_seen = seen;
            if (self.bits >> i) & 1u32 == 1u32 {
                c = c + 1;
                proof {
                    seen = seen.insert(i as nat);
                }
            }
            i = i + 1;
            proof {
                assert(seen =~= self@.filter(|j: nat| j < i));
            }
        }
        proof {
            assert(seen =~= self@);
        }
        c
    }

    /// Removes and returns the lowest position set, or `None` when no position
    /// is set.
    pub fn next(&mut self) -> (r: Option<usize>)
        ensures
            old(self)@ == Set::<nat>::empty() ==> r is None && final(self)@ == old(self)@,
            r is Some ==> final(self).bits < old(self).bits,
            old(self)@ != Set::<nat>::empty() ==> (r matches Some(i) && {
                &&& old(self)@.contains(i as nat)
                &&& forall|j: nat| #[trigger] old(self)@.contains(j) ==> i <= j
                &&& final(self)@ == old(self)@.remove(i as nat)
            }),
    {
        if self.bits == 0 {
            proof {
                assert forall|i: nat| !old(self)@.contains(i) by {
                    if i < 32 {
                        lemma_bit_zero(i as u32);
                    }
                }
                assert(old(self)@ =~= Set::<nat>::empty());
            }
            None
        } else {
            let b = self.bits;
            let t = b.trailing_zeros();
            proof {
                axiom_u32_trailing_zeros(b);
            }
            self.bits = b & (b - 1);
            proof {
                assert(b & ((b - 1u32) as u32) < b) by (bit_vector)
                    requires
                        b != 0,
                ;
                assert(old(self)@.contains(t as nat));
                assert forall|i: nat| #[trigger] final(self)@.contains(i) == old(self)@.remove(t as nat).contains(i) by {
                    if i < 32 {
                        lemma_clear_lowest(b, t, i as u32);
                    }
                }
                assert(final(self)@ =~= old(self)@.remove(t as nat));
                assert forall|j: nat| #[trigger] old(self)@.contains(j) implies t <= j by {
                    lemma_clear_lowest(b, t, j as u32);
                }
            }
            Some(t as usize)
        }
    }

    /// Whether no position is set.
    pub fn is_clear(&self) -> (r: bool)
        ensures
            r == (self@ == Set::<nat>::empty()),
    {
        proof {
            if self.bits != 0 {
                lemma_nonzero_has_bit(self.bits);
                let i = choose|i: u32| i < 32 && #[trigger] bit_at(self.bits, i);
                assert(self@.contains(i as nat));
            } else {
                assert forall|i: nat| !self@.contains(i) by {
                    if i < 32 {
                        lemma_bit_zero(i as u32);
                    }
                }
                assert(self@ =~= Set::<nat>::empty());
            }
        }
        self.bits == 0
    }

    /// Adds the position of digit `num`.
    pub fn dirty_set(&mut self, num: usize)
        requires
            1 <= num <= 32,
        ensures
            final(self)@ == old(self)@.insert((num - 1) as nat),
    {
        self.set(num - 1)
    }

    /// Whether digit `num` is present.
    pub fn is_dirty(&self, num: usize) -> (r: bool)
        requires
            1 <= num <= 32,
        ensures
            r == self@.contains((num - 1) as nat),
    {
        self.is_set(num - 1)
    }

    /// Records cell `idx` as empty when its value is zero.
    pub fn set_value(&mut self, idx: usize, value: u8)
        requires
            idx < 32,
        ensures
            final(self)@ == if value == 0 { old(self)@.insert(idx as nat) } else { old(self)@ },
    {
        if value == 0 {
            self.set(idx);
        }
    }
}

} // verus!
