use crate::bitstring::{below, positions};
use vstd::prelude::*;

verus! {

/// Words for the digit sets of a grid.
pub struct BitMask;

impl BitMask {
    /// The word with positions `0..n` set: every digit of a grid of size `n`.
    pub fn all_set(n: usize) -> (r: u32)
        requires
            n < 32,
        ensures
            positions(r) == below(n as nat),
    {
        proof {
            let s = n as u32;
            assert(1u32 << s >= 1u32) by (bit_vector)
                requires
                    s < 32,
            ;
        }
        let r = (1u32 << (n as u32)) - 1;
        proof {
            assert forall|i: nat| #[trigger] positions(r).contains(i) == below(n as nat).contains(i) by {
                if i < 32 {
                    crate::bitstring::lemma_bit_low_mask(n as u32, i as u32);
                }
            }
            assert(positions(r) =~= below(n as nat));
        }
        r
    }

    /// The word with the single position of digit `num`.
    pub fn get(num: u8) -> (r: u32)
        requires
            1 <= num <= 32,
        ensures
            positions(r) == set![(num - 1) as nat],
    {
        let r = 1u32 << ((num - 1) as u32);
        proof {
            assert forall|i: nat| #[trigger] positions(r).contains(i) == set![(num - 1) as nat].contains(i) by {
                if i < 32 {
                    crate::bitstring::lemma_bit_single((num - 1) as u32, i as u32);
                }
            }
            assert(positions(r) =~= set![(num - 1) as nat]);
        }
        r
    }
}

} // verus!
