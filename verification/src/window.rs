//! The packed dash-range bitmask.
//!
//! Each tile stores which tiles of the surrounding 21×21 relative window its
//! dash ability can reach, as 441 bits packed row-major into seven 64-bit
//! words (the last seven bits are padding and stay clear).

use vstd::prelude::*;

verus! {

/// Tiles per axis of the relative window.
pub const WINDOW_SIZE: usize = 21;

/// Meaningful bits in a window: one per tile of the 21×21 window.
pub const WINDOW_BITS: usize = 441;

/// 64-bit words a packed window occupies.
pub const WINDOW_WORDS: usize = 7;

/// Bit `idx` of a packed word sequence.
pub open spec fn bit_at(words: Seq<u64>, idx: int) -> bool {
    (words[idx / 64] >> ((idx % 64) as u64)) & 1 == 1
}

proof fn lemma_zero_bits()
    by (bit_vector)
    ensures
        forall|k: u64| k < 64 ==> ((0u64 >> k) & 1) != 1,
{
}

proof fn lemma_or_bit(w: u64, j: u64, k: u64)
    by (bit_vector)
    requires
        j < 64,
        k < 64,
    ensures
        (((w | (1u64 << j)) >> k) & 1 == 1) == (((w >> k) & 1 == 1) || j == k),
{
}

/// A 21×21 dash-reachability window packed into seven words.
pub struct DashWindow {
    pub words: Vec<u64>,
}

impl DashWindow {
    pub open spec fn wf(self) -> bool {
        self.words.len() == WINDOW_WORDS
    }

    pub open spec fn bit(self, idx: int) -> bool {
        bit_at(self.words@, idx)
    }

    /// A window with every bit clear.
    pub fn empty() -> (w: Self)
        ensures
            w.wf(),
            forall|idx: int| 0 <= idx < 448 ==> !w.bit(idx),
    {
        let mut words: Vec<u64> = Vec::new();
        let mut i: usize = 0;
        while i < WINDOW_WORDS
            invariant
                i <= WINDOW_WORDS,
                words.len() == i,
                forall|j: int| 0 <= j < i ==> words@[j] == 0,
            decreases WINDOW_WORDS - i,
        {
            words.push(0);
            i = i + 1;
        }
        let w = DashWindow { words };
        proof {
            lemma_zero_bits();
            assert forall|idx: int| 0 <= idx < 448 implies !w.bit(idx) by {
                assert(w.words@[idx / 64] == 0);
                assert(((idx % 64) as u64) < 64);
            }
        }
        w
    }

    /// Builds a window directly from its seven packed words.
    pub fn from_words(words: Vec<u64>) -> (w: Option<Self>)
        ensures
            w is Some <==> words.len() == WINDOW_WORDS,
            w matches Some(v) ==> v.words == words,
    {
        if words.len() == WINDOW_WORDS {
            Some(DashWindow { words })
        } else {
            None
        }
    }

    pub fn get_bit(&self, idx: usize) -> (r: bool)
        requires
            self.wf(),
            idx < 448,
        ensures
            r == self.bit(idx as int),
    {
        let w = self.words[idx / 64];
        (w >> ((idx % 64) as u64)) & 1 == 1
    }

    pub fn set_bit(&mut self, idx: usize)
        requires
            old(self).wf(),
            idx < 448,
        ensures
            final(self).wf(),
            forall|k: int|
                0 <= k < 448 ==> #[trigger] final(self).bit(k) == (old(self).bit(k) || k == idx),
    {
        let i = idx / 64;
        let j = (idx % 64) as u64;
        let w = self.words[i];
        self.words[i] = w | (1u64 << j);
        proof {
            assert forall|k: int|
                0 <= k < 448 implies #[trigger] self.bit(k) == (old(self).bit(k) || k == idx) by {
                let ki = k / 64;
                let kj = (k % 64) as u64;
                assert(0 <= ki < 7);
                assert(kj < 64);
                if ki == i {
                    lemma_or_bit(old(self).words@[ki as int], j, kj);
                    assert(k == 64 * (k / 64) + k % 64);
                    assert(idx == 64 * (idx as int / 64) + idx as int % 64);
                } else {
                    assert(self.words@[ki] == old(self).words@[ki]);
                }
            }
        }
    }
}

} // verus!
