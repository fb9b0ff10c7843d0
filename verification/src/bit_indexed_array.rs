//! A bit-indexed array: a bitmap and one value for each set bit, stored in the
//! order of the bits. Viewed as a map from bit positions to values.
use vstd::prelude::*;
use vstd::pervasive::VecAdditionalExecFns;
use crate::bitseq::{
    count_set, is_single, lemma_count_clear_bit, lemma_count_set_bit, lemma_count_zero,
    lemma_rank_lt_count, lemma_rank_mono, lemma_rank_onto, lemma_single, only_bit, rank, single_pos,
};
use crate::traits::{BitContains, BitIndex, BitInsert, BitRemove, BitWord, Bits, CountOnes, NthBit};

verus! {

/// `BitIndexedArray` stores one value for each set bit of its bitmap, in the
/// order of the bits, and an extra value alongside.
#[derive(Debug)]
pub struct BitIndexedArray<B: Bits, V, E> {
    bits: B,
    values: Vec<V>,
    extra: E,
}

impl<B: Bits, V, E> BitIndexedArray<B, V, E> {
    /// One value for each set bit.
    #[verifier::type_invariant]
    closed spec fn inv(self) -> bool {
        self.values@.len() == count_set(self.bits.bit_seq())
    }

    /// The bitmap.
    pub closed spec fn spec_bits(self) -> B {
        self.bits
    }

    /// The values, in the order of their bits.
    pub closed spec fn spec_values(self) -> Seq<V> {
        self.values@
    }

    /// The extra value.
    pub closed spec fn spec_extra(self) -> E {
        self.extra
    }

    /// The map from each set bit's position to its value.
    pub open spec fn entries(self) -> Map<int, V> {
        Map::new(
            |p: int| 0 <= p < self.spec_bits().bit_seq().len() && self.spec_bits().bit_seq()[p],
            |p: int| self.spec_values()[rank(self.spec_bits().bit_seq(), p) as int],
        )
    }

    /// The number of bits in the bitmap.
    pub open spec fn width(self) -> nat {
        self.spec_bits().bit_seq().len()
    }

    /// The bitmap.
    pub fn bits(&self) -> (r: B)
        ensures
            r == self.spec_bits(),
    {
        self.bits
    }

    /// The number of values.
    pub fn len(&self) -> (r: usize)
        ensures
            r == self.spec_values().len(),
            r == count_set(self.spec_bits().bit_seq()),
            r == self.entries().dom().len(),
            self.entries().dom().finite(),
    {
        proof {
            use_type_invariant(self);
            self.lemma_entries_len();
        }
        self.values.len()
    }

    /// The values, in the order of their bits.
    pub fn values(&self) -> (r: &[V])
        ensures
            r@ == self.spec_values(),
    {
        self.values.as_slice()
    }

    /// The extra value.
    pub fn extra(&self) -> (r: &E)
        ensures
            *r == self.spec_extra(),
    {
        &self.extra
    }

    /// The domain of the entries has one position per value.
    pub proof fn lemma_entries_len(self)
        requires
            self.spec_values().len() == count_set(self.spec_bits().bit_seq()),
        ensures
            self.entries().dom().finite(),
            self.entries().dom().len() == self.spec_values().len(),
    {
        let s = self.spec_bits().bit_seq();
        let dom = self.entries().dom();
        lemma_positions_len(s, s.len() as int);
        assert(s.take(s.len() as int) =~= s);
        assert(dom =~= positions(s, s.len() as int));
    }

    /// The value for a bit, or an error if the bit is not exactly one bit or is absent.
    pub fn at(&self, bit: B) -> (r: Result<&V, ()>)
        ensures
            match r {
                Ok(v) => is_single(bit.bit_seq()) && self.entries().contains_key(single_pos(bit.bit_seq()))
                    && *v == self.entries()[single_pos(bit.bit_seq())],
                Err(_) => !(is_single(bit.bit_seq()) && self.entries().contains_key(single_pos(bit.bit_seq()))),
            },
    {
        proof {
            use_type_invariant(self);
            B::lemma_bit_word(bit);
            B::lemma_bit_word(self.bits);
        }
        let index = match self.bits.bit_index(bit) {
            Ok(index) => index,
            Err(_) => return Err(()),
        };
        proof {
            lemma_single(bit.bit_seq());
            lemma_rank_lt_count(self.bits.bit_seq(), single_pos(bit.bit_seq()));
        }
        if index < self.values.len() {
            Ok(&self.values[index])
        } else {
            Err(())
        }
    }

    /// The value for the bit at a position, or an error if the position is out of range or its bit is absent.
    pub fn at_index(&self, index: usize) -> (r: Result<&V, ()>)
        ensures
            match r {
                Ok(v) => self.entries().contains_key(index as int) && *v == self.entries()[index as int],
                Err(_) => !self.entries().contains_key(index as int),
            },
    {
        proof {
            B::lemma_bit_word(self.bits);
        }
        let bit = match B::nth_bit(index) {
            Ok(bit) => bit,
            Err(_) => return Err(()),
        };
        proof {
            crate::bitseq::lemma_only_bit(B::word_width(), index as int);
        }
        self.at(bit)
    }
}

/// The positions below `n` whose bits are set.
pub open spec fn positions(s: Seq<bool>, n: int) -> Set<int> {
    Set::new(|p: int| 0 <= p < n && p < s.len() && s[p])
}

/// There are as many set positions below `n` as the rank of `n`.
pub proof fn lemma_positions_len(s: Seq<bool>, n: int)
    requires
        0 <= n <= s.len(),
    ensures
        positions(s, n).finite(),
        positions(s, n).len() == count_set(s.take(n)),
    decreases n,
{
    if n == 0 {
        assert(positions(s, 0) =~= Set::empty());
        assert(s.take(0).len() == 0);
    } else {
        lemma_positions_len(s, n - 1);
        crate::bitseq::lemma_count_take_succ(s, n - 1);
        if s[n - 1] {
            assert(positions(s, n) =~= positions(s, n - 1).insert(n - 1));
        } else {
            assert(positions(s, n) =~= positions(s, n - 1));
        }
    }
}

/// A new array from a bitmap and its values, or an error if the number of values
/// differs from the number of set bits.
pub fn new_bit_indexed_array<B: Bits, V, E>(bits: B, values: Vec<V>, extra: E) -> (r: Result<
    BitIndexedArray<B, V, E>,
    (),
>)
    ensures
        match r {
            Ok(a) => count_set(bits.bit_seq()) == values@.len() && a.spec_bits() == bits
                && a.spec_values() == values@ && a.spec_extra() == extra,
            Err(_) => count_set(bits.bit_seq()) != values@.len(),
        },
{
    if bits.count_ones_t() != values.len() {
        return Err(());
    }
    Ok(BitIndexedArray { bits, values, extra })
}

/// An empty array with the default extra value.
pub fn default_bit_indexed_array<B: Bits, V, E: Default>() -> (r: BitIndexedArray<B, V, E>)
    ensures
        r.spec_bits().bit_seq() == Seq::new(B::word_width(), |i: int| false),
        r.spec_values().len() == 0,
        r.entries() == Map::<int, V>::empty(),
        call_ensures(E::default, (), r.spec_extra()),
{
    let extra = E::default();
    let bits = B::zero_word();
    proof {
        lemma_count_zero(bits.bit_seq());
        B::lemma_bit_word(bits);
    }
    let r = BitIndexedArray { bits, values: Vec::new(), extra };
    assert(r.entries() =~= Map::<int, V>::empty());
    r
}

impl<B: Bits, V: Clone, E: Clone> Clone for BitIndexedArray<B, V, E> {
    /// A copy with the same bitmap, a clone of each value and of the extra value.
    fn clone(&self) -> (r: Self)
        ensures
            r.spec_bits() == self.spec_bits(),
            r.spec_values().len() == self.spec_values().len(),
            forall|i: int|
                0 <= i < self.spec_values().len() ==> vstd::pervasive::cloned(
                    self.spec_values()[i],
                    #[trigger] r.spec_values()[i],
                ),
            vstd::pervasive::cloned(self.spec_extra(), r.spec_extra()),
    {
        proof {
            use_type_invariant(self);
        }
        BitIndexedArray { bits: self.bits, values: self.values.clone(), extra: self.extra.clone() }
    }
}

impl<B: Bits, V: Clone, E> BitIndexedArray<B, V, E> {
    /// A new array with a value for an absent bit, or an error if the bit is not
    /// exactly one bit or is present.
    pub fn inserted(&self, bit: B, value: V, extra: E) -> (r: Result<Self, ()>)
        ensures
            match r {
                Ok(a) => {
                    &&& is_single(bit.bit_seq())
                    &&& !self.entries().contains_key(single_pos(bit.bit_seq()))
                    &&& a.entries().dom() == self.entries().dom().insert(single_pos(bit.bit_seq()))
                    &&& a.entries()[single_pos(bit.bit_seq())] == value
                    &&& forall|q: int| #[trigger]
                        self.entries().contains_key(q) ==> vstd::pervasive::cloned(
                            self.entries()[q],
                            a.entries()[q],
                        )
                    &&& a.spec_extra() == extra
                    &&& a.spec_values().len() == self.spec_values().len() + 1
                },
                Err(_) => !(is_single(bit.bit_seq()) && !self.entries().contains_key(
                    single_pos(bit.bit_seq()),
                )),
            },
    {
        proof {
            use_type_invariant(self);
            B::lemma_bit_word(bit);
            B::lemma_bit_word(self.bits);
        }
        proof {
            if is_single(bit.bit_seq()) {
                lemma_single(bit.bit_seq());
            }
        }
        let bits = match self.bits.bit_insert(bit) {
            Ok(bits) => bits,
            Err(_) => return Err(()),
        };
        let ghost s = self.bits.bit_seq();
        let ghost p = single_pos(bit.bit_seq());
        proof {
            B::lemma_bit_word(bits);
        }
        let index = match bits.bit_index(bit) {
            Ok(index) => index,
            Err(_) => return Err(()),
        };
        proof {
            lemma_count_set_bit(s, p, p);
            lemma_count_set_bit(s, p, s.len() as int);
            assert(s.take(s.len() as int) =~= s);
            assert(bits.bit_seq().take(s.len() as int) =~= bits.bit_seq());
            assert(index == rank(s, p));
            lemma_rank_mono(s, p, s.len() as int);
        }
        let mut building = self.values.clone();
        building.insert(index, value);
        let a = BitIndexedArray { bits, values: building, extra };
        proof {
            let t = bits.bit_seq();
            assert(t == s.update(p, true));
            assert(a.entries().dom() =~= self.entries().dom().insert(p));
            assert forall|q: int| #[trigger] self.entries().contains_key(q) implies vstd::pervasive::cloned(
                self.entries()[q],
                a.entries()[q],
            ) by {
                lemma_count_set_bit(s, p, q);
                lemma_rank_lt_count(s, q);
                if q < p {
                    lemma_rank_mono(s, q, p);
                } else {
                    lemma_rank_mono(s, p, q);
                }
            }
        }
        Ok(a)
    }

    /// A new array with a value for the bit at a position.
    pub fn inserted_index(&self, index: usize, value: V, extra: E) -> (r: Result<Self, ()>)
        ensures
            match r {
                Ok(a) => {
                    &&& !self.entries().contains_key(index as int)
                    &&& a.entries().dom() == self.entries().dom().insert(index as int)
                    &&& a.entries()[index as int] == value
                    &&& forall|q: int| #[trigger]
                        self.entries().contains_key(q) ==> vstd::pervasive::cloned(
                            self.entries()[q],
                            a.entries()[q],
                        )
                    &&& a.spec_extra() == extra
                },
                Err(_) => index >= self.width() || self.entries().contains_key(index as int),
            },
    {
        proof {
            B::lemma_bit_word(self.bits);
        }
        let bit = match B::nth_bit(index) {
            Ok(bit) => bit,
            Err(_) => return Err(()),
        };
        proof {
            crate::bitseq::lemma_only_bit(B::word_width(), index as int);
        }
        self.inserted(bit, value, extra)
    }

    /// A new array with the value for a present bit replaced, or an error if the
    /// bit is not exactly one bit or is absent.
    pub fn updated(&self, bit: B, value: V, extra: E) -> (r: Result<Self, ()>)
        ensures
            match r {
                Ok(a) => {
                    &&& is_single(bit.bit_seq())
                    &&& self.entries().contains_key(single_pos(bit.bit_seq()))
                    &&& a.entries().dom() == self.entries().dom()
                    &&& a.entries()[single_pos(bit.bit_seq())] == value
                    &&& forall|q: int| #[trigger]
                        self.entries().contains_key(q) && q != single_pos(bit.bit_seq())
                            ==> vstd::pervasive::cloned(self.entries()[q], a.entries()[q])
                    &&& a.spec_extra() == extra
                    &&& a.spec_values().len() == self.spec_values().len()
                },
                Err(_) => !(is_single(bit.bit_seq()) && self.entries().contains_key(
                    single_pos(bit.bit_seq()),
                )),
            },
    {
        proof {
            use_type_invariant(self);
            B::lemma_bit_word(bit);
            B::lemma_bit_word(self.bits);
        }
        proof {
            if is_single(bit.bit_seq()) {
                lemma_single(bit.bit_seq());
            }
        }
        match self.bits.bit_contains(bit) {
            Ok(true) => {},
            _ => return Err(()),
        }
        let index = match self.bits.bit_index(bit) {
            Ok(index) => index,
            Err(_) => return Err(()),
        };
        let ghost s = self.bits.bit_seq();
        let ghost p = single_pos(bit.bit_seq());
        proof {
            lemma_rank_lt_count(s, p);
        }
        let mut building = self.values.clone();
        building.set(index, value);
        let a = BitIndexedArray { bits: self.bits, values: building, extra };
        proof {
            assert(a.entries().dom() =~= self.entries().dom());
            assert forall|q: int| #[trigger]
                self.entries().contains_key(q) && q != p implies vstd::pervasive::cloned(
                self.entries()[q],
                a.entries()[q],
            ) by {
                lemma_rank_lt_count(s, q);
                crate::bitseq::lemma_rank_injective(s, p, q);
            }
        }
        Ok(a)
    }

    /// A new array with the value for the bit at a position replaced.
    pub fn updated_index(&self, index: usize, value: V, extra: E) -> (r: Result<Self, ()>)
        ensures
            match r {
                Ok(a) => {
                    &&& self.entries().contains_key(index as int)
                    &&& a.entries().dom() == self.entries().dom()
                    &&& a.entries()[index as int] == value
                    &&& forall|q: int| #[trigger]
                        self.entries().contains_key(q) && q != index ==> vstd::pervasive::cloned(
                            self.entries()[q],
                            a.entries()[q],
                        )
                    &&& a.spec_extra() == extra
                },
                Err(_) => !self.entries().contains_key(index as int),
            },
    {
        proof {
            B::lemma_bit_word(self.bits);
        }
        let bit = match B::nth_bit(index) {
            Ok(bit) => bit,
            Err(_) => return Err(()),
        };
        proof {
            crate::bitseq::lemma_only_bit(B::word_width(), index as int);
        }
        self.updated(bit, value, extra)
    }

    /// A new array without the value for a present bit, or an error if the bit is
    /// not exactly one bit or is absent.
    pub fn removed(&self, bit: B, extra: E) -> (r: Result<Self, ()>)
        ensures
            match r {
                Ok(a) => {
                    &&& is_single(bit.bit_seq())
                    &&& self.entries().contains_key(single_pos(bit.bit_seq()))
                    &&& a.entries().dom() == self.entries().dom().remove(single_pos(bit.bit_seq()))
                    &&& forall|q: int| #[trigger]
                        a.entries().contains_key(q) ==> vstd::pervasive::cloned(
                            self.entries()[q],
                            a.entries()[q],
                        )
                    &&& a.spec_extra() == extra
                    &&& a.spec_values().len() + 1 == self.spec_values().len()
                },
                Err(_) => !(is_single(bit.bit_seq()) && self.entries().contains_key(
                    single_pos(bit.bit_seq()),
                )),
            },
    {
        proof {
            use_type_invariant(self);
            B::lemma_bit_word(bit);
            B::lemma_bit_word(self.bits);
        }
        proof {
            if is_single(bit.bit_seq()) {
                lemma_single(bit.bit_seq());
            }
        }
        let bits = match self.bits.bit_remove(bit) {
            Ok(bits) => bits,
            Err(_) => return Err(()),
        };
        let index = match self.bits.bit_index(bit) {
            Ok(index) => index,
            Err(_) => return Err(()),
        };
        let ghost s = self.bits.bit_seq();
        let ghost p = single_pos(bit.bit_seq());
        proof {
            B::lemma_bit_word(bits);
            lemma_rank_lt_count(s, p);
            lemma_count_clear_bit(s, p, s.len() as int);
            assert(s.take(s.len() as int) =~= s);
            assert(bits.bit_seq().take(s.len() as int) =~= bits.bit_seq());
        }
        let mut building = self.values.clone();
        let _ = building.remove(index);
        let a = BitIndexedArray { bits, values: building, extra };
        proof {
            let t = bits.bit_seq();
            assert(t == s.update(p, false));
            assert(a.entries().dom() =~= self.entries().dom().remove(p));
            assert forall|q: int| #[trigger] a.entries().contains_key(q) implies vstd::pervasive::cloned(
                self.entries()[q],
                a.entries()[q],
            ) by {
                lemma_count_clear_bit(s, p, q);
                lemma_rank_lt_count(s, q);
                if q < p {
                    lemma_rank_mono(s, q, p);
                } else {
                    lemma_rank_mono(s, p, q);
                }
            }
        }
        Ok(a)
    }

    /// A new array without the value for the bit at a position.
    pub fn removed_index(&self, index: usize, extra: E) -> (r: Result<Self, ()>)
        ensures
            match r {
                Ok(a) => {
                    &&& self.entries().contains_key(index as int)
                    &&& a.entries().dom() == self.entries().dom().remove(index as int)
                    &&& forall|q: int| #[trigger]
                        a.entries().contains_key(q) ==> vstd::pervasive::cloned(
                            self.entries()[q],
                            a.entries()[q],
                        )
                    &&& a.spec_extra() == extra
                },
                Err(_) => !self.entries().contains_key(index as int),
            },
    {
        proof {
            B::lemma_bit_word(self.bits);
        }
        let bit = match B::nth_bit(index) {
            Ok(bit) => bit,
            Err(_) => return Err(()),
        };
        proof {
            crate::bitseq::lemma_only_bit(B::word_width(), index as int);
        }
        self.removed(bit, extra)
    }
}

} // verus!
