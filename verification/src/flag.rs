//! The flag of a hash at a depth of the trie: the bit, in a 32-bit bitmap, that
//! selects the child for the next five bits of the hash.
use vstd::prelude::*;
use crate::bitseq::{only_bit, lemma_only_bit};
use crate::traits::{BitWord, LogB, NthBit};

verus! {

/// The deepest level at which a flag exists: five bits per level cover the
/// 64 bits of a hash in levels `0..=12`.
pub open spec fn max_depth() -> nat {
    12
}

/// The five bits of `h` that select the child at depth `d`.
pub open spec fn hash_chunk(h: u64, d: nat) -> int {
    ((h >> ((5 * d) as u64)) & 31u64) as int
}

/// Two hashes that agree on the chunks of every level are equal.
pub proof fn lemma_chunks_determine_hash(h1: u64, h2: u64)
    requires
        forall|d: nat| d <= max_depth() ==> #[trigger] hash_chunk(h1, d) == hash_chunk(h2, d),
    ensures
        h1 == h2,
{
    assert(hash_chunk(h1, 0) == hash_chunk(h2, 0));
    assert(hash_chunk(h1, 1) == hash_chunk(h2, 1));
    assert(hash_chunk(h1, 2) == hash_chunk(h2, 2));
    assert(hash_chunk(h1, 3) == hash_chunk(h2, 3));
    assert(hash_chunk(h1, 4) == hash_chunk(h2, 4));
    assert(hash_chunk(h1, 5) == hash_chunk(h2, 5));
    assert(hash_chunk(h1, 6) == hash_chunk(h2, 6));
    assert(hash_chunk(h1, 7) == hash_chunk(h2, 7));
    assert(hash_chunk(h1, 8) == hash_chunk(h2, 8));
    assert(hash_chunk(h1, 9) == hash_chunk(h2, 9));
    assert(hash_chunk(h1, 10) == hash_chunk(h2, 10));
    assert(hash_chunk(h1, 11) == hash_chunk(h2, 11));
    assert(hash_chunk(h1, 12) == hash_chunk(h2, 12));
    lemma_chunks_bv(h1, h2);
}

proof fn lemma_chunks_bv(h1: u64, h2: u64)
    by (bit_vector)
    requires
        (h1 >> 0u64) & 31u64 == (h2 >> 0u64) & 31u64,
        (h1 >> 5u64) & 31u64 == (h2 >> 5u64) & 31u64,
        (h1 >> 10u64) & 31u64 == (h2 >> 10u64) & 31u64,
        (h1 >> 15u64) & 31u64 == (h2 >> 15u64) & 31u64,
        (h1 >> 20u64) & 31u64 == (h2 >> 20u64) & 31u64,
        (h1 >> 25u64) & 31u64 == (h2 >> 25u64) & 31u64,
        (h1 >> 30u64) & 31u64 == (h2 >> 30u64) & 31u64,
        (h1 >> 35u64) & 31u64 == (h2 >> 35u64) & 31u64,
        (h1 >> 40u64) & 31u64 == (h2 >> 40u64) & 31u64,
        (h1 >> 45u64) & 31u64 == (h2 >> 45u64) & 31u64,
        (h1 >> 50u64) & 31u64 == (h2 >> 50u64) & 31u64,
        (h1 >> 55u64) & 31u64 == (h2 >> 55u64) & 31u64,
        (h1 >> 60u64) & 31u64 == (h2 >> 60u64) & 31u64,
    ensures
        h1 == h2,
{
}

/// A chunk selects one of 32 bits.
pub proof fn lemma_hash_chunk_range(h: u64, d: nat)
    ensures
        0 <= hash_chunk(h, d) < 32,
{
    lemma_chunk_range(h, (5 * d) as u64);
}

proof fn lemma_chunk_range(h: u64, s: u64)
    by (bit_vector)
    ensures
        (h >> s) & 31u64 < 32,
{
}

/// `Flag` holds a hash, a depth, and the bit that the hash selects at that depth.
#[derive(Debug, PartialEq, Eq, Structural)]
pub struct Flag {
    hash_value: u64,
    depth: usize,
    flag: u32,
}

impl Flag {
    /// The hash the flag was made from.
    pub closed spec fn spec_hash_value(self) -> u64 {
        self.hash_value
    }

    /// The depth the flag belongs to.
    pub closed spec fn spec_depth(self) -> nat {
        self.depth as nat
    }

    /// The bit that the hash selects at the flag's depth.
    pub closed spec fn spec_flag(self) -> u32 {
        self.flag
    }

    /// A flag is its depth's bit of its hash, at a depth that has one.
    pub closed spec fn wf(self) -> bool {
        &&& self.depth <= max_depth()
        &&& self.flag.bit_seq() == only_bit(32, hash_chunk(self.hash_value, self.depth as nat))
    }

    /// The flag of a hash at depth zero.
    pub fn new(hash_value: u64) -> (r: Self)
        ensures
            r.wf(),
            r.spec_hash_value() == hash_value,
            r.spec_depth() == 0,
    {
        match Self::new_at_depth(hash_value, 0) {
            Some(f) => f,
            None => {
                proof {
                    assert(false);
                }
                Flag { hash_value, depth: 0, flag: 1 }
            },
        }
    }

    /// The flag of a hash at a depth, or `None` past the deepest level.
    pub fn new_at_depth(hash_value: u64, depth: usize) -> (r: Option<Self>)
        ensures
            r is Some <==> depth <= max_depth(),
            r matches Some(f) ==> f.wf() && f.spec_hash_value() == hash_value && f.spec_depth() == depth,
    {
        if depth > 12 {
            return None;
        }
        let shift: u64 = (depth * u32::log_b()) as u64;
        let index: u64 = (hash_value >> shift) & 0b11111;
        proof {
            lemma_chunk_range(hash_value, shift);
        }
        match u32::nth_bit(index as usize) {
            Ok(flag) => {
                proof {
                    lemma_only_bit(32, index as int);
                }
                Some(Flag { hash_value, depth, flag })
            },
            Err(_) => None,
        }
    }

    /// The hash the flag was made from.
    pub fn hash_value(&self) -> (r: u64)
        ensures
            r == self.spec_hash_value(),
    {
        self.hash_value
    }

    /// The depth the flag belongs to.
    pub fn depth(&self) -> (r: usize)
        ensures
            r == self.spec_depth(),
    {
        self.depth
    }

    /// The bit that the hash selects at the flag's depth.
    pub fn flag(&self) -> (r: u32)
        ensures
            r == self.spec_flag(),
            self.wf() ==> r.bit_seq() == only_bit(32, hash_chunk(self.spec_hash_value(), self.spec_depth())),
    {
        self.flag
    }

    /// The flag of the same hash one level deeper, or `None` past the deepest level.
    pub fn next(&self) -> (r: Option<Self>)
        requires
            self.wf(),
        ensures
            r is Some <==> self.spec_depth() + 1 <= max_depth(),
            r matches Some(f) ==> f.wf() && f.spec_hash_value() == self.spec_hash_value()
                && f.spec_depth() == self.spec_depth() + 1,
    {
        Self::new_at_depth(self.hash_value(), self.depth + 1)
    }
}

} // verus!
