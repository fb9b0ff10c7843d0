//! Word-level bit operations: the flag words and bitmaps of the trie.
//!
//! Each word is viewed as a sequence of bits, least significant first
//! (`BitWord::bit_seq`); every operation is specified over that view.
use vstd::prelude::*;
use crate::bitseq::{
    count_set, is_single, lemma_count_masked, lemma_count_take_succ, lemma_single, low_bits, only_bit, rank,
    single_pos,
};

verus! {

/// `BitError` enumerates possible error conditions when bitops are used "incorrectly."
#[derive(Debug, PartialEq, Eq, Structural)]
pub enum BitError {
    /// `BitError::CountNotEqualToOne` indicates a word representing a bit contains either 2 or more bits or 0 bits.
    CountNotEqualToOne,
    /// `BitError::Found` indicates a bit that is supposed to be absent is present.
    Found,
    /// `BitError::NotFound` indicates a bit that is supposed to be present is absent.
    NotFound,
    /// `BitError::Range` indicates an index exceeding the word size was used.
    Range,
}

/// The log of the width of a word, for the widths a word can have.
pub open spec fn log_width_of(width: nat) -> nat {
    if width == 8 { 3 } else if width == 16 { 4 } else if width == 32 { 5 } else if width == 64 { 6 } else { 7 }
}

/// The view of an unsigned word as a sequence of bits.
pub trait BitWord: Sized + Copy {
    /// Bit `i` of the word, least significant first.
    spec fn bit_seq(self) -> Seq<bool>;

    /// The number the word holds.
    spec fn word_value(self) -> nat;

    /// The number of bits in the word.
    spec fn word_width() -> nat;

    proof fn lemma_bit_word(w: Self)
        ensures
            w.bit_seq().len() == Self::word_width(),
            Self::word_width() == 8 || Self::word_width() == 16 || Self::word_width() == 32
                || Self::word_width() == 64 || Self::word_width() == 128,
    ;

    /// A word is determined by its bits.
    proof fn lemma_bits_determine(a: Self, b: Self)
        requires
            a.bit_seq() == b.bit_seq(),
        ensures
            a == b,
    ;

    /// The word with no bit set.
    fn zero_word() -> (r: Self)
        ensures
            r.bit_seq() == Seq::new(Self::word_width(), |i: int| false),
            r.word_value() == 0,
    ;

    /// Equality of words.
    fn word_eq(&self, other: &Self) -> (r: bool)
        ensures
            r == (*self == *other),
    ;
}

/// `AsUsize` supports conversion to usize for values within the word's index range.
pub trait AsUsize: BitWord {
    /// Simply cast or convert the value to a usize.
    fn as_usize(&self) -> (r: usize)
        ensures
            self.word_value() <= usize::MAX ==> r == self.word_value(),
    ;
}

/// `BitContains` supports testing to see if a bit is present in the word or not.
pub trait BitContains: BitWord {
    /// Check whether the word contains the bit or return BitError::CountNotEqualToOne if the bit is invalid.
    ///
    /// e.g. `0b110110.bit_contains(0b100) == true`
    fn bit_contains(&self, bit: Self) -> (r: Result<bool, BitError>)
        ensures
            match r {
                Ok(b) => is_single(bit.bit_seq()) && b == self.bit_seq()[single_pos(bit.bit_seq())],
                Err(e) => !is_single(bit.bit_seq()) && e == BitError::CountNotEqualToOne,
            },
    ;
}

/// `BitIndex` supports counting less significant 1s in the word (1s to the right of the bit).
pub trait BitIndex: BitWord {
    /// Count less significant 1s in the word (1s to the right of the bit) or return either BitError::CountNotEqualToOne or BitError::NotFound.
    ///
    /// e.g. `0b110110.bit_index(0b100) == 1`
    fn bit_index(&self, bit: Self) -> (r: Result<usize, BitError>)
        ensures
            match r {
                Ok(n) => is_single(bit.bit_seq()) && self.bit_seq()[single_pos(bit.bit_seq())]
                    && n == rank(self.bit_seq(), single_pos(bit.bit_seq())),
                Err(e) => if !is_single(bit.bit_seq()) {
                    e == BitError::CountNotEqualToOne
                } else {
                    !self.bit_seq()[single_pos(bit.bit_seq())] && e == BitError::NotFound
                },
            },
    ;
}

/// `BitInsert` supports inserting a bit into the word.
pub trait BitInsert: BitWord {
    /// Insert the bit into the word or return either BitError::CountNotEqualToOne or BitError::Found.
    ///
    /// e.g. `0b10010.bit_insert(0b100) == 0b10110`
    fn bit_insert(&self, bit: Self) -> (r: Result<Self, BitError>)
        ensures
            match r {
                Ok(w) => is_single(bit.bit_seq()) && !self.bit_seq()[single_pos(bit.bit_seq())]
                    && w.bit_seq() == self.bit_seq().update(single_pos(bit.bit_seq()), true),
                Err(e) => if !is_single(bit.bit_seq()) {
                    e == BitError::CountNotEqualToOne
                } else {
                    self.bit_seq()[single_pos(bit.bit_seq())] && e == BitError::Found
                },
            },
    ;
}

/// `BitRemove` supports removing a bit from the word.
pub trait BitRemove: BitWord {
    /// Remove the bit from the word or return either BitError::CountNotEqualToOne or BitError::NotFound.
    ///
    /// e.g. `0b10110.bit_remove(0b100) == 0b10010`
    fn bit_remove(&self, bit: Self) -> (r: Result<Self, BitError>)
        ensures
            match r {
                Ok(w) => is_single(bit.bit_seq()) && self.bit_seq()[single_pos(bit.bit_seq())]
                    && w.bit_seq() == self.bit_seq().update(single_pos(bit.bit_seq()), false),
                Err(e) => if !is_single(bit.bit_seq()) {
                    e == BitError::CountNotEqualToOne
                } else {
                    !self.bit_seq()[single_pos(bit.bit_seq())] && e == BitError::NotFound
                },
            },
    ;
}

/// `CountOnes` supports counting 1s in the word.
pub trait CountOnes: BitWord {
    /// Count the number of 1s in the word.
    ///
    /// e.g. `0b10110.count_ones_t() == 3`
    fn count_ones_t(&self) -> (r: usize)
        ensures
            r == count_set(self.bit_seq()),
    ;
}

/// `LogB` provides log_2 of the word size.
pub trait LogB: BitWord {
    /// Get the log_2 of the word size.
    ///
    /// e.g. `u32::log_b() == 5`
    fn log_b() -> (r: usize)
        ensures
            r == log_width_of(Self::word_width()),
    ;
}

/// `MaskLogB` provides a mask of 1s equal to the log_2 of the word size.
pub trait MaskLogB: BitWord {
    /// Get the mask, length log_2 of the word size.
    ///
    /// e.g. `u32::mask_log_b() == 0b11111`
    fn mask_log_b() -> (r: Self)
        ensures
            r.bit_seq() == low_bits(Self::word_width(), log_width_of(Self::word_width()) as int),
    ;
}

/// `NthBit` provides a word with only the nth bit set to 1.
pub trait NthBit: BitWord {
    /// Get the nth bit of the given word size.
    ///
    /// e.g. `u32::nth_bit(4) == 0b10000`
    fn nth_bit(n: usize) -> (r: Result<Self, BitError>)
        ensures
            match r {
                Ok(w) => n < Self::word_width() && w.bit_seq() == only_bit(Self::word_width(), n as int),
                Err(e) => n >= Self::word_width() && e == BitError::Range,
            },
    ;
}

/// `Bits` lists the requirements on a word for it to serve as a bitmap.
pub trait Bits: AsUsize + BitContains + BitIndex + BitInsert + BitRemove + CountOnes + LogB + MaskLogB + NthBit {}

/// `Value` lists the requirements on the value type for the hash array mapped trie to function.
pub trait Value: Clone + core::fmt::Debug + Eq + PartialEq + core::hash::Hash + Send + Sync + 'static {}

impl<T: Clone + core::fmt::Debug + Eq + PartialEq + core::hash::Hash + Send + Sync + 'static> Value for T {}

/// `HashLike` provides a means to assert that two types will hash identically.
pub trait HashLike<T> {}

impl<T> HashLike<T> for T {}

/// Removing a bit from the word that inserting it gave yields the word from
/// before, and inserting a bit into the word that removing it gave does too.
pub proof fn law_insert_remove_inverse<B: BitWord>(w: B, bit: B, changed: B, restored: B)
    requires
        is_single(bit.bit_seq()),
        changed.bit_seq() == w.bit_seq().update(single_pos(bit.bit_seq()), !w.bit_seq()[single_pos(bit.bit_seq())]),
        restored.bit_seq() == changed.bit_seq().update(single_pos(bit.bit_seq()), w.bit_seq()[single_pos(bit.bit_seq())]),
    ensures
        restored == w,
{
    let p = single_pos(bit.bit_seq());
    B::lemma_bit_word(w);
    B::lemma_bit_word(bit);
    lemma_single(bit.bit_seq());
    assert(restored.bit_seq() =~= w.bit_seq());
    B::lemma_bits_determine(restored, w);
}

// ----------------------------------------------------------------------------
// u8
// ----------------------------------------------------------------------------

/// Bit-level facts about `u8` words.
proof fn lemma_u8_bits(x: u8, y: u8, i: u8, n: u8)
    by (bit_vector)
    requires
        i < 8,
        n < 8,
    ensures
        ((x | y) >> i) & 1 == 1 <==> ((x >> i) & 1 == 1 || (y >> i) & 1 == 1),
        ((x & y) >> i) & 1 == 1 <==> ((x >> i) & 1 == 1 && (y >> i) & 1 == 1),
        ((x ^ y) >> i) & 1 == 1 <==> ((x >> i) & 1 == 1) != ((y >> i) & 1 == 1),
        ((1u8 << n) >> i) & 1 == 1 <==> i == n,
        ((((1u8 << n) - 1) as u8) >> i) & 1 == 1 <==> i < n,
        ((0b111 as u8) >> i) & 1 == 1 <==> i < 3,
        (0u8 >> i) & 1 == 0,
        (x >> i) & 1 == 0 || (x >> i) & 1 == 1,
        x == 0 ==> (x >> i) & 1 == 0,
        x ^ y == 0 ==> x == y,
        (1u8 << n) >= 1,
{
}

/// Bit-level facts about halving a `u8` word.
proof fn lemma_u8_halve(x: u8, j: u8, k: u8)
    by (bit_vector)
    requires
        k == j + 1,
        j < 8 - 1,
    ensures
        x != 0 && (x & 1) != 1 ==> (x >> 1) != 0 && (x >> 1) < x,
        (x & 1) == ((x >> 0) & 1),
        ((x >> 1) >> j) & 1 == (x >> k) & 1,
        ((x >> 1) >> (8 - 1) as u8) & 1 == 0,
{
}

/// A nonzero `u8` word has a set bit.
proof fn lemma_u8_nonzero(x: u8) -> (i: u8)
    requires
        x != 0,
    ensures
        i < 8,
        (x >> i) & 1 == 1,
    decreases x,
{
    lemma_u8_halve(x, 0, 1);
    if x & 1 == 1 {
        0
    } else {
        let j = lemma_u8_nonzero(x >> 1);
        if j == (8 - 1) as u8 {
            lemma_u8_halve(x, 0, 1);
            assert(false);
        }
        lemma_u8_halve(x, j, (j + 1) as u8);
        (j + 1) as u8
    }
}

/// A `u8` word is determined by its bits.
proof fn lemma_u8_eq_from_bits(x: u8, y: u8)
    requires
        x.bit_seq() == y.bit_seq(),
    ensures
        x == y,
{
    if x ^ y != 0 {
        let k = lemma_u8_nonzero(x ^ y);
        lemma_u8_bits(x, y, k, 0);
        assert(x.bit_seq()[k as int] == ((x >> k) & 1 == 1));
        assert(y.bit_seq()[k as int] == ((y >> k) & 1 == 1));
        assert(x.bit_seq()[k as int] == y.bit_seq()[k as int]);
        assert(false);
    }
    lemma_u8_bits(x, y, 0, 0);
}

impl BitWord for u8 {
    open spec fn bit_seq(self) -> Seq<bool> {
        Seq::new(8, |i: int| (self >> (i as u8)) & 1 == 1)
    }

    open spec fn word_value(self) -> nat {
        self as nat
    }

    open spec fn word_width() -> nat {
        8
    }

    proof fn lemma_bit_word(w: Self) {
    }

    proof fn lemma_bits_determine(a: Self, b: Self) {
        lemma_u8_eq_from_bits(a, b);
    }

    fn zero_word() -> (r: Self) {
        let r: u8 = 0;
        proof {
            assert forall|i: int| 0 <= i < 8 implies !r.bit_seq()[i] by {
                lemma_u8_bits(r, r, i as u8, 0);
            }
            assert(r.bit_seq() =~= Seq::new(Self::word_width(), |i: int| false));
        }
        r
    }

    fn word_eq(&self, other: &Self) -> (r: bool) {
        *self == *other
    }
}

impl AsUsize for u8 {
    fn as_usize(&self) -> (r: usize)
        ensures
            r == *self as usize,
    {
        *self as usize
    }
}

impl CountOnes for u8 {
    fn count_ones_t(&self) -> (r: usize) {
        let x = *self;
        let mut c: usize = 0;
        let mut i: u8 = 0;
        while i < 8
            invariant
                i <= 8,
                c <= i,
                c == count_set(x.bit_seq().take(i as int)),
            decreases 8 - i,
        {
            proof {
                lemma_count_take_succ(x.bit_seq(), i as int);
                lemma_u8_bits(x, x, i, 0);
            }
            if (x >> i) & 1 == 1 {
                c = c + 1;
            }
            i = i + 1;
        }
        proof {
            assert(x.bit_seq().take(8 as int) =~= x.bit_seq());
        }
        c
    }
}

/// The position of a single-bit `u8` word, and the word as a shift.
proof fn lemma_u8_single(bit: u8)
    requires
        is_single(bit.bit_seq()),
    ensures
        0 <= single_pos(bit.bit_seq()) < 8,
        bit == 1u8 << (single_pos(bit.bit_seq()) as u8),
        bit.bit_seq() == only_bit(8, single_pos(bit.bit_seq())),
{
    let s = bit.bit_seq();
    lemma_single(s);
    let p = single_pos(s);
    let b = 1u8 << (p as u8);
    assert forall|i: int| 0 <= i < 8 implies #[trigger] s[i] == b.bit_seq()[i] by {
        lemma_u8_bits(bit, b, i as u8, p as u8);
    }
    assert(s =~= b.bit_seq());
    lemma_u8_eq_from_bits(bit, b);
    assert(s =~= only_bit(8, p));
}

/// For a single-bit `b`, `x & b` is nonzero exactly when `x` has that bit.
proof fn lemma_u8_and_single(x: u8, bit: u8)
    requires
        is_single(bit.bit_seq()),
    ensures
        ((x & bit) != 0) == x.bit_seq()[single_pos(bit.bit_seq())],
{
    lemma_u8_single(bit);
    let p = single_pos(bit.bit_seq());
    lemma_u8_bits(x, bit, p as u8, p as u8);
    if (x & bit) != 0 {
        let k = lemma_u8_nonzero(x & bit);
        lemma_u8_bits(x, bit, k, p as u8);
        assert(bit.bit_seq()[k as int]);
    } else {
        lemma_u8_bits(x & bit, bit, p as u8, p as u8);
    }
}

impl BitContains for u8 {
    fn bit_contains(&self, bit: Self) -> (r: Result<bool, BitError>) {
        if bit.count_ones_t() != 1 {
            return Err(BitError::CountNotEqualToOne);
        }
        proof {
            lemma_u8_and_single(*self, bit);
        }
        Ok((*self & bit) != 0)
    }
}

impl BitIndex for u8 {
    fn bit_index(&self, bit: Self) -> (r: Result<usize, BitError>) {
        if bit.count_ones_t() != 1 {
            return Err(BitError::CountNotEqualToOne);
        }
        proof {
            lemma_u8_and_single(*self, bit);
            lemma_u8_single(bit);
            lemma_u8_bits(bit, bit, 0, single_pos(bit.bit_seq()) as u8);
        }
        if *self & bit == 0 {
            return Err(BitError::NotFound);
        }
        let below = *self & (bit - 1);
        let r = below.count_ones_t();
        proof {
            let p = single_pos(bit.bit_seq());
            let x = *self;
            assert forall|i: int| 0 <= i < 8 implies below.bit_seq()[i] == (x.bit_seq()[i] && i < p) by {
                lemma_u8_bits(x, (bit - 1) as u8, i as u8, p as u8);
            }
            lemma_count_masked(x.bit_seq(), below.bit_seq(), p);
        }
        Ok(r)
    }
}

impl BitInsert for u8 {
    fn bit_insert(&self, bit: Self) -> (r: Result<Self, BitError>) {
        if bit.count_ones_t() != 1 {
            return Err(BitError::CountNotEqualToOne);
        }
        proof {
            lemma_u8_and_single(*self, bit);
            lemma_u8_single(bit);
        }
        if *self & bit != 0 {
            return Err(BitError::Found);
        }
        let w = *self | bit;
        proof {
            let p = single_pos(bit.bit_seq());
            let x = *self;
            assert forall|i: int| 0 <= i < 8 implies w.bit_seq()[i] == x.bit_seq().update(p, true)[i] by {
                lemma_u8_bits(x, bit, i as u8, p as u8);
            }
            assert(w.bit_seq() =~= x.bit_seq().update(p, true));
        }
        Ok(w)
    }
}

impl BitRemove for u8 {
    fn bit_remove(&self, bit: Self) -> (r: Result<Self, BitError>) {
        if bit.count_ones_t() != 1 {
            return Err(BitError::CountNotEqualToOne);
        }
        proof {
            lemma_u8_and_single(*self, bit);
            lemma_u8_single(bit);
        }
        if *self & bit == 0 {
            return Err(BitError::NotFound);
        }
        let w = *self ^ bit;
        proof {
            let p = single_pos(bit.bit_seq());
            let x = *self;
            assert forall|i: int| 0 <= i < 8 implies w.bit_seq()[i] == x.bit_seq().update(p, false)[i] by {
                lemma_u8_bits(x, bit, i as u8, p as u8);
            }
            assert(w.bit_seq() =~= x.bit_seq().update(p, false));
        }
        Ok(w)
    }
}

impl LogB for u8 {
    fn log_b() -> (r: usize) {
        3
    }
}

impl MaskLogB for u8 {
    fn mask_log_b() -> (r: Self) {
        let r: u8 = 0b111;
        proof {
            assert forall|i: int| 0 <= i < 8 implies r.bit_seq()[i] == (i < 3) by {
                lemma_u8_bits(r, r, i as u8, 0);
            }
            assert(r.bit_seq() =~= low_bits(8, log_width_of(8) as int));
        }
        r
    }
}

impl NthBit for u8 {
    fn nth_bit(n: usize) -> (r: Result<Self, BitError>) {
        if n >= 8 {
            return Err(BitError::Range);
        }
        let s = n as u8;
        let w: u8 = 1 << s;
        proof {
            assert forall|i: int| 0 <= i < 8 implies w.bit_seq()[i] == (i == n) by {
                lemma_u8_bits(w, w, i as u8, s);
            }
            assert(w.bit_seq() =~= only_bit(8, n as int));
        }
        Ok(w)
    }
}

impl Bits for u8 {}

// ----------------------------------------------------------------------------
// u16
// ----------------------------------------------------------------------------

/// Bit-level facts about `u16` words.
proof fn lemma_u16_bits(x: u16, y: u16, i: u16, n: u16)
    by (bit_vector)
    requires
        i < 16,
        n < 16,
    ensures
        ((x | y) >> i) & 1 == 1 <==> ((x >> i) & 1 == 1 || (y >> i) & 1 == 1),
        ((x & y) >> i) & 1 == 1 <==> ((x >> i) & 1 == 1 && (y >> i) & 1 == 1),
        ((x ^ y) >> i) & 1 == 1 <==> ((x >> i) & 1 == 1) != ((y >> i) & 1 == 1),
        ((1u16 << n) >> i) & 1 == 1 <==> i == n,
        ((((1u16 << n) - 1) as u16) >> i) & 1 == 1 <==> i < n,
        ((0b1111 as u16) >> i) & 1 == 1 <==> i < 4,
        (0u16 >> i) & 1 == 0,
        (x >> i) & 1 == 0 || (x >> i) & 1 == 1,
        x == 0 ==> (x >> i) & 1 == 0,
        x ^ y == 0 ==> x == y,
        (1u16 << n) >= 1,
{
}

/// Bit-level facts about halving a `u16` word.
proof fn lemma_u16_halve(x: u16, j: u16, k: u16)
    by (bit_vector)
    requires
        k == j + 1,
        j < 16 - 1,
    ensures
        x != 0 && (x & 1) != 1 ==> (x >> 1) != 0 && (x >> 1) < x,
        (x & 1) == ((x >> 0) & 1),
        ((x >> 1) >> j) & 1 == (x >> k) & 1,
        ((x >> 1) >> (16 - 1) as u16) & 1 == 0,
{
}

/// A nonzero `u16` word has a set bit.
proof fn lemma_u16_nonzero(x: u16) -> (i: u16)
    requires
        x != 0,
    ensures
        i < 16,
        (x >> i) & 1 == 1,
    decreases x,
{
    lemma_u16_halve(x, 0, 1);
    if x & 1 == 1 {
        0
    } else {
        let j = lemma_u16_nonzero(x >> 1);
        if j == (16 - 1) as u16 {
            lemma_u16_halve(x, 0, 1);
            assert(false);
        }
        lemma_u16_halve(x, j, (j + 1) as u16);
        (j + 1) as u16
    }
}

/// A `u16` word is determined by its bits.
proof fn lemma_u16_eq_from_bits(x: u16, y: u16)
    requires
        x.bit_seq() == y.bit_seq(),
    ensures
        x == y,
{
    if x ^ y != 0 {
        let k = lemma_u16_nonzero(x ^ y);
        lemma_u16_bits(x, y, k, 0);
        assert(x.bit_seq()[k as int] == ((x >> k) & 1 == 1));
        assert(y.bit_seq()[k as int] == ((y >> k) & 1 == 1));
        assert(x.bit_seq()[k as int] == y.bit_seq()[k as int]);
        assert(false);
    }
    lemma_u16_bits(x, y, 0, 0);
}

impl BitWord for u16 {
    open spec fn bit_seq(self) -> Seq<bool> {
        Seq::new(16, |i: int| (self >> (i as u16)) & 1 == 1)
    }

    open spec fn word_value(self) -> nat {
        self as nat
    }

    open spec fn word_width() -> nat {
        16
    }

    proof fn lemma_bit_word(w: Self) {
    }

    proof fn lemma_bits_determine(a: Self, b: Self) {
        lemma_u16_eq_from_bits(a, b);
    }

    fn zero_word() -> (r: Self) {
        let r: u16 = 0;
        proof {
            assert forall|i: int| 0 <= i < 16 implies !r.bit_seq()[i] by {
                lemma_u16_bits(r, r, i as u16, 0);
            }
            assert(r.bit_seq() =~= Seq::new(Self::word_width(), |i: int| false));
        }
        r
    }

    fn word_eq(&self, other: &Self) -> (r: bool) {
        *self == *other
    }
}

impl AsUsize for u16 {
    fn as_usize(&self) -> (r: usize)
        ensures
            r == *self as usize,
    {
        *self as usize
    }
}

impl CountOnes for u16 {
    fn count_ones_t(&self) -> (r: usize) {
        let x = *self;
        let mut c: usize = 0;
        let mut i: u16 = 0;
        while i < 16
            invariant
                i <= 16,
                c <= i,
                c == count_set(x.bit_seq().take(i as int)),
            decreases 16 - i,
        {
            proof {
                lemma_count_take_succ(x.bit_seq(), i as int);
                lemma_u16_bits(x, x, i, 0);
            }
            if (x >> i) & 1 == 1 {
                c = c + 1;
            }
            i = i + 1;
        }
        proof {
            assert(x.bit_seq().take(16 as int) =~= x.bit_seq());
        }
        c
    }
}

/// The position of a single-bit `u16` word, and the word as a shift.
proof fn lemma_u16_single(bit: u16)
    requires
        is_single(bit.bit_seq()),
    ensures
        0 <= single_pos(bit.bit_seq()) < 16,
        bit == 1u16 << (single_pos(bit.bit_seq()) as u16),
        bit.bit_seq() == only_bit(16, single_pos(bit.bit_seq())),
{
    let s = bit.bit_seq();
    lemma_single(s);
    let p = single_pos(s);
    let b = 1u16 << (p as u16);
    assert forall|i: int| 0 <= i < 16 implies #[trigger] s[i] == b.bit_seq()[i] by {
        lemma_u16_bits(bit, b, i as u16, p as u16);
    }
    assert(s =~= b.bit_seq());
    lemma_u16_eq_from_bits(bit, b);
    assert(s =~= only_bit(16, p));
}

/// For a single-bit `b`, `x & b` is nonzero exactly when `x` has that bit.
proof fn lemma_u16_and_single(x: u16, bit: u16)
    requires
        is_single(bit.bit_seq()),
    ensures
        ((x & bit) != 0) == x.bit_seq()[single_pos(bit.bit_seq())],
{
    lemma_u16_single(bit);
    let p = single_pos(bit.bit_seq());
    lemma_u16_bits(x, bit, p as u16, p as u16);
    if (x & bit) != 0 {
        let k = lemma_u16_nonzero(x & bit);
        lemma_u16_bits(x, bit, k, p as u16);
        assert(bit.bit_seq()[k as int]);
    } else {
        lemma_u16_bits(x & bit, bit, p as u16, p as u16);
    }
}

impl BitContains for u16 {
    fn bit_contains(&self, bit: Self) -> (r: Result<bool, BitError>) {
        if bit.count_ones_t() != 1 {
            return Err(BitError::CountNotEqualToOne);
        }
        proof {
            lemma_u16_and_single(*self, bit);
        }
        Ok((*self & bit) != 0)
    }
}

impl BitIndex for u16 {
    fn bit_index(&self, bit: Self) -> (r: Result<usize, BitError>) {
        if bit.count_ones_t() != 1 {
            return Err(BitError::CountNotEqualToOne);
        }
        proof {
            lemma_u16_and_single(*self, bit);
            lemma_u16_single(bit);
            lemma_u16_bits(bit, bit, 0, single_pos(bit.bit_seq()) as u16);
        }
        if *self & bit == 0 {
            return Err(BitError::NotFound);
        }
        let below = *self & (bit - 1);
        let r = below.count_ones_t();
        proof {
            let p = single_pos(bit.bit_seq());
            let x = *self;
            assert forall|i: int| 0 <= i < 16 implies below.bit_seq()[i] == (x.bit_seq()[i] && i < p) by {
                lemma_u16_bits(x, (bit - 1) as u16, i as u16, p as u16);
            }
            lemma_count_masked(x.bit_seq(), below.bit_seq(), p);
        }
        Ok(r)
    }
}

impl BitInsert for u16 {
    fn bit_insert(&self, bit: Self) -> (r: Result<Self, BitError>) {
        if bit.count_ones_t() != 1 {
            return Err(BitError::CountNotEqualToOne);
        }
        proof {
            lemma_u16_and_single(*self, bit);
            lemma_u16_single(bit);
        }
        if *self & bit != 0 {
            return Err(BitError::Found);
        }
        let w = *self | bit;
        proof {
            let p = single_pos(bit.bit_seq());
            let x = *self;
            assert forall|i: int| 0 <= i < 16 implies w.bit_seq()[i] == x.bit_seq().update(p, true)[i] by {
                lemma_u16_bits(x, bit, i as u16, p as u16);
            }
            assert(w.bit_seq() =~= x.bit_seq().update(p, true));
        }
        Ok(w)
    }
}

impl BitRemove for u16 {
    fn bit_remove(&self, bit: Self) -> (r: Result<Self, BitError>) {
        if bit.count_ones_t() != 1 {
            return Err(BitError::CountNotEqualToOne);
        }
        proof {
            lemma_u16_and_single(*self, bit);
            lemma_u16_single(bit);
        }
        if *self & bit == 0 {
            return Err(BitError::NotFound);
        }
        let w = *self ^ bit;
        proof {
            let p = single_pos(bit.bit_seq());
            let x = *self;
            assert forall|i: int| 0 <= i < 16 implies w.bit_seq()[i] == x.bit_seq().update(p, false)[i] by {
                lemma_u16_bits(x, bit, i as u16, p as u16);
            }
            assert(w.bit_seq() =~= x.bit_seq().update(p, false));
        }
        Ok(w)
    }
}

impl LogB for u16 {
    fn log_b() -> (r: usize) {
        4
    }
}

impl MaskLogB for u16 {
    fn mask_log_b() -> (r: Self) {
        let r: u16 = 0b1111;
        proof {
            assert forall|i: int| 0 <= i < 16 implies r.bit_seq()[i] == (i < 4) by {
                lemma_u16_bits(r, r, i as u16, 0);
            }
            assert(r.bit_seq() =~= low_bits(16, log_width_of(16) as int));
        }
        r
    }
}

impl NthBit for u16 {
    fn nth_bit(n: usize) -> (r: Result<Self, BitError>) {
        if n >= 16 {
            return Err(BitError::Range);
        }
        let s = n as u16;
        let w: u16 = 1 << s;
        proof {
            assert forall|i: int| 0 <= i < 16 implies w.bit_seq()[i] == (i == n) by {
                lemma_u16_bits(w, w, i as u16, s);
            }
            assert(w.bit_seq() =~= only_bit(16, n as int));
        }
        Ok(w)
    }
}

impl Bits for u16 {}

// ----------------------------------------------------------------------------
// u32
// ----------------------------------------------------------------------------

/// Bit-level facts about `u32` words.
proof fn lemma_u32_bits(x: u32, y: u32, i: u32, n: u32)
    by (bit_vector)
    requires
        i < 32,
        n < 32,
    ensures
        ((x | y) >> i) & 1 == 1 <==> ((x >> i) & 1 == 1 || (y >> i) & 1 == 1),
        ((x & y) >> i) & 1 == 1 <==> ((x >> i) & 1 == 1 && (y >> i) & 1 == 1),
        ((x ^ y) >> i) & 1 == 1 <==> ((x >> i) & 1 == 1) != ((y >> i) & 1 == 1),
        ((1u32 << n) >> i) & 1 == 1 <==> i == n,
        ((((1u32 << n) - 1) as u32) >> i) & 1 == 1 <==> i < n,
        ((0b11111 as u32) >> i) & 1 == 1 <==> i < 5,
        (0u32 >> i) & 1 == 0,
        (x >> i) & 1 == 0 || (x >> i) & 1 == 1,
        x == 0 ==> (x >> i) & 1 == 0,
        x ^ y == 0 ==> x == y,
        (1u32 << n) >= 1,
{
}

/// Bit-level facts about halving a `u32` word.
proof fn lemma_u32_halve(x: u32, j: u32, k: u32)
    by (bit_vector)
    requires
        k == j + 1,
        j < 32 - 1,
    ensures
        x != 0 && (x & 1) != 1 ==> (x >> 1) != 0 && (x >> 1) < x,
        (x & 1) == ((x >> 0) & 1),
        ((x >> 1) >> j) & 1 == (x >> k) & 1,
        ((x >> 1) >> (32 - 1) as u32) & 1 == 0,
{
}

/// A nonzero `u32` word has a set bit.
proof fn lemma_u32_nonzero(x: u32) -> (i: u32)
    requires
        x != 0,
    ensures
        i < 32,
        (x >> i) & 1 == 1,
    decreases x,
{
    lemma_u32_halve(x, 0, 1);
    if x & 1 == 1 {
        0
    } else {
        let j = lemma_u32_nonzero(x >> 1);
        if j == (32 - 1) as u32 {
            lemma_u32_halve(x, 0, 1);
            assert(false);
        }
        lemma_u32_halve(x, j, (j + 1) as u32);
        (j + 1) as u32
    }
}

/// A `u32` word is determined by its bits.
proof fn lemma_u32_eq_from_bits(x: u32, y: u32)
    requires
        x.bit_seq() == y.bit_seq(),
    ensures
        x == y,
{
    if x ^ y != 0 {
        let k = lemma_u32_nonzero(x ^ y);
        lemma_u32_bits(x, y, k, 0);
        assert(x.bit_seq()[k as int] == ((x >> k) & 1 == 1));
        assert(y.bit_seq()[k as int] == ((y >> k) & 1 == 1));
        assert(x.bit_seq()[k as int] == y.bit_seq()[k as int]);
        assert(false);
    }
    lemma_u32_bits(x, y, 0, 0);
}

impl BitWord for u32 {
    open spec fn bit_seq(self) -> Seq<bool> {
        Seq::new(32, |i: int| (self >> (i as u32)) & 1 == 1)
    }

    open spec fn word_value(self) -> nat {
        self as nat
    }

    open spec fn word_width() -> nat {
        32
    }

    proof fn lemma_bit_word(w: Self) {
    }

    proof fn lemma_bits_determine(a: Self, b: Self) {
        lemma_u32_eq_from_bits(a, b);
    }

    fn zero_word() -> (r: Self) {
        let r: u32 = 0;
        proof {
            assert forall|i: int| 0 <= i < 32 implies !r.bit_seq()[i] by {
                lemma_u32_bits(r, r, i as u32, 0);
            }
            assert(r.bit_seq() =~= Seq::new(Self::word_width(), |i: int| false));
        }
        r
    }

    fn word_eq(&self, other: &Self) -> (r: bool) {
        *self == *other
    }
}

impl AsUsize for u32 {
    fn as_usize(&self) -> (r: usize)
        ensures
            r == *self as usize,
    {
        *self as usize
    }
}

impl CountOnes for u32 {
    fn count_ones_t(&self) -> (r: usize) {
        let x = *self;
        let mut c: usize = 0;
        let mut i: u32 = 0;
        while i < 32
            invariant
                i <= 32,
                c <= i,
                c == count_set(x.bit_seq().take(i as int)),
            decreases 32 - i,
        {
            proof {
                lemma_count_take_succ(x.bit_seq(), i as int);
                lemma_u32_bits(x, x, i, 0);
            }
            if (x >> i) & 1 == 1 {
                c = c + 1;
            }
            i = i + 1;
        }
        proof {
            assert(x.bit_seq().take(32 as int) =~= x.bit_seq());
        }
        c
    }
}

/// The position of a single-bit `u32` word, and the word as a shift.
proof fn lemma_u32_single(bit: u32)
    requires
        is_single(bit.bit_seq()),
    ensures
        0 <= single_pos(bit.bit_seq()) < 32,
        bit == 1u32 << (single_pos(bit.bit_seq()) as u32),
        bit.bit_seq() == only_bit(32, single_pos(bit.bit_seq())),
{
    let s = bit.bit_seq();
    lemma_single(s);
    let p = single_pos(s);
    let b = 1u32 << (p as u32);
    assert forall|i: int| 0 <= i < 32 implies #[trigger] s[i] == b.bit_seq()[i] by {
        lemma_u32_bits(bit, b, i as u32, p as u32);
    }
    assert(s =~= b.bit_seq());
    lemma_u32_eq_from_bits(bit, b);
    assert(s =~= only_bit(32, p));
}

/// For a single-bit `b`, `x & b` is nonzero exactly when `x` has that bit.
proof fn lemma_u32_and_single(x: u32, bit: u32)
    requires
        is_single(bit.bit_seq()),
    ensures
        ((x & bit) != 0) == x.bit_seq()[single_pos(bit.bit_seq())],
{
    lemma_u32_single(bit);
    let p = single_pos(bit.bit_seq());
    lemma_u32_bits(x, bit, p as u32, p as u32);
    if (x & bit) != 0 {
        let k = lemma_u32_nonzero(x & bit);
        lemma_u32_bits(x, bit, k, p as u32);
        assert(bit.bit_seq()[k as int]);
    } else {
        lemma_u32_bits(x & bit, bit, p as u32, p as u32);
    }
}

impl BitContains for u32 {
    fn bit_contains(&self, bit: Self) -> (r: Result<bool, BitError>) {
        if bit.count_ones_t() != 1 {
            return Err(BitError::CountNotEqualToOne);
        }
        proof {
            lemma_u32_and_single(*self, bit);
        }
        Ok((*self & bit) != 0)
    }
}

impl BitIndex for u32 {
    fn bit_index(&self, bit: Self) -> (r: Result<usize, BitError>) {
        if bit.count_ones_t() != 1 {
            return Err(BitError::CountNotEqualToOne);
        }
        proof {
            lemma_u32_and_single(*self, bit);
            lemma_u32_single(bit);
            lemma_u32_bits(bit, bit, 0, single_pos(bit.bit_seq()) as u32);
        }
        if *self & bit == 0 {
            return Err(BitError::NotFound);
        }
        let below = *self & (bit - 1);
        let r = below.count_ones_t();
        proof {
            let p = single_pos(bit.bit_seq());
            let x = *self;
            assert forall|i: int| 0 <= i < 32 implies below.bit_seq()[i] == (x.bit_seq()[i] && i < p) by {
                lemma_u32_bits(x, (bit - 1) as u32, i as u32, p as u32);
            }
            lemma_count_masked(x.bit_seq(), below.bit_seq(), p);
        }
        Ok(r)
    }
}

impl BitInsert for u32 {
    fn bit_insert(&self, bit: Self) -> (r: Result<Self, BitError>) {
        if bit.count_ones_t() != 1 {
            return Err(BitError::CountNotEqualToOne);
        }
        proof {
            lemma_u32_and_single(*self, bit);
            lemma_u32_single(bit);
        }
        if *self & bit != 0 {
            return Err(BitError::Found);
        }
        let w = *self | bit;
        proof {
            let p = single_pos(bit.bit_seq());
            let x = *self;
            assert forall|i: int| 0 <= i < 32 implies w.bit_seq()[i] == x.bit_seq().update(p, true)[i] by {
                lemma_u32_bits(x, bit, i as u32, p as u32);
            }
            assert(w.bit_seq() =~= x.bit_seq().update(p, true));
        }
        Ok(w)
    }
}

impl BitRemove for u32 {
    fn bit_remove(&self, bit: Self) -> (r: Result<Self, BitError>) {
        if bit.count_ones_t() != 1 {
            return Err(BitError::CountNotEqualToOne);
        }
        proof {
            lemma_u32_and_single(*self, bit);
            lemma_u32_single(bit);
        }
        if *self & bit == 0 {
            return Err(BitError::NotFound);
        }
        let w = *self ^ bit;
        proof {
            let p = single_pos(bit.bit_seq());
            let x = *self;
            assert forall|i: int| 0 <= i < 32 implies w.bit_seq()[i] == x.bit_seq().update(p, false)[i] by {
                lemma_u32_bits(x, bit, i as u32, p as u32);
            }
            assert(w.bit_seq() =~= x.bit_seq().update(p, false));
        }
        Ok(w)
    }
}

impl LogB for u32 {
    fn log_b() -> (r: usize) {
        5
    }
}

impl MaskLogB for u32 {
    fn mask_log_b() -> (r: Self) {
        let r: u32 = 0b11111;
        proof {
            assert forall|i: int| 0 <= i < 32 implies r.bit_seq()[i] == (i < 5) by {
                lemma_u32_bits(r, r, i as u32, 0);
            }
            assert(r.bit_seq() =~= low_bits(32, log_width_of(32) as int));
        }
        r
    }
}

impl NthBit for u32 {
    fn nth_bit(n: usize) -> (r: Result<Self, BitError>) {
        if n >= 32 {
            return Err(BitError::Range);
        }
        let s = n as u32;
        let w: u32 = 1 << s;
        proof {
            assert forall|i: int| 0 <= i < 32 implies w.bit_seq()[i] == (i == n) by {
                lemma_u32_bits(w, w, i as u32, s);
            }
            assert(w.bit_seq() =~= only_bit(32, n as int));
        }
        Ok(w)
    }
}

impl Bits for u32 {}

// ----------------------------------------------------------------------------
// u64
// ----------------------------------------------------------------------------

/// Bit-level facts about `u64` words.
proof fn lemma_u64_bits(x: u64, y: u64, i: u64, n: u64)
    by (bit_vector)
    requires
        i < 64,
        n < 64,
    ensures
        ((x | y) >> i) & 1 == 1 <==> ((x >> i) & 1 == 1 || (y >> i) & 1 == 1),
        ((x & y) >> i) & 1 == 1 <==> ((x >> i) & 1 == 1 && (y >> i) & 1 == 1),
        ((x ^ y) >> i) & 1 == 1 <==> ((x >> i) & 1 == 1) != ((y >> i) & 1 == 1),
        ((1u64 << n) >> i) & 1 == 1 <==> i == n,
        ((((1u64 << n) - 1) as u64) >> i) & 1 == 1 <==> i < n,
        ((0b111111 as u64) >> i) & 1 == 1 <==> i < 6,
        (0u64 >> i) & 1 == 0,
        (x >> i) & 1 == 0 || (x >> i) & 1 == 1,
        x == 0 ==> (x >> i) & 1 == 0,
        x ^ y == 0 ==> x == y,
        (1u64 << n) >= 1,
{
}

/// Bit-level facts about halving a `u64` word.
proof fn lemma_u64_halve(x: u64, j: u64, k: u64)
    by (bit_vector)
    requires
        k == j + 1,
        j < 64 - 1,
    ensures
        x != 0 && (x & 1) != 1 ==> (x >> 1) != 0 && (x >> 1) < x,
        (x & 1) == ((x >> 0) & 1),
        ((x >> 1) >> j) & 1 == (x >> k) & 1,
        ((x >> 1) >> (64 - 1) as u64) & 1 == 0,
{
}

/// A nonzero `u64` word has a set bit.
proof fn lemma_u64_nonzero(x: u64) -> (i: u64)
    requires
        x != 0,
    ensures
        i < 64,
        (x >> i) & 1 == 1,
    decreases x,
{
    lemma_u64_halve(x, 0, 1);
    if x & 1 == 1 {
        0
    } else {
        let j = lemma_u64_nonzero(x >> 1);
        if j == (64 - 1) as u64 {
            lemma_u64_halve(x, 0, 1);
            assert(false);
        }
        lemma_u64_halve(x, j, (j + 1) as u64);
        (j + 1) as u64
    }
}

/// A `u64` word is determined by its bits.
proof fn lemma_u64_eq_from_bits(x: u64, y: u64)
    requires
        x.bit_seq() == y.bit_seq(),
    ensures
        x == y,
{
    if x ^ y != 0 {
        let k = lemma_u64_nonzero(x ^ y);
        lemma_u64_bits(x, y, k, 0);
        assert(x.bit_seq()[k as int] == ((x >> k) & 1 == 1));
        assert(y.bit_seq()[k as int] == ((y >> k) & 1 == 1));
        assert(x.bit_seq()[k as int] == y.bit_seq()[k as int]);
        assert(false);
    }
    lemma_u64_bits(x, y, 0, 0);
}

impl BitWord for u64 {
    open spec fn bit_seq(self) -> Seq<bool> {
        Seq::new(64, |i: int| (self >> (i as u64)) & 1 == 1)
    }

    open spec fn word_value(self) -> nat {
        self as nat
    }

    open spec fn word_width() -> nat {
        64
    }

    proof fn lemma_bit_word(w: Self) {
    }

    proof fn lemma_bits_determine(a: Self, b: Self) {
        lemma_u64_eq_from_bits(a, b);
    }

    fn zero_word() -> (r: Self) {
        let r: u64 = 0;
        proof {
            assert forall|i: int| 0 <= i < 64 implies !r.bit_seq()[i] by {
                lemma_u64_bits(r, r, i as u64, 0);
            }
            assert(r.bit_seq() =~= Seq::new(Self::word_width(), |i: int| false));
        }
        r
    }

    fn word_eq(&self, other: &Self) -> (r: bool) {
        *self == *other
    }
}

impl AsUsize for u64 {
    fn as_usize(&self) -> (r: usize)
        ensures
            r == *self as usize,
    {
        *self as usize
    }
}

impl CountOnes for u64 {
    fn count_ones_t(&self) -> (r: usize) {
        let x = *self;
        let mut c: usize = 0;
        let mut i: u64 = 0;
        while i < 64
            invariant
                i <= 64,
                c <= i,
                c == count_set(x.bit_seq().take(i as int)),
            decreases 64 - i,
        {
            proof {
                lemma_count_take_succ(x.bit_seq(), i as int);
                lemma_u64_bits(x, x, i, 0);
            }
            if (x >> i) & 1 == 1 {
                c = c + 1;
            }
            i = i + 1;
        }
        proof {
            assert(x.bit_seq().take(64 as int) =~= x.bit_seq());
        }
        c
    }
}

/// The position of a single-bit `u64` word, and the word as a shift.
proof fn lemma_u64_single(bit: u64)
    requires
        is_single(bit.bit_seq()),
    ensures
        0 <= single_pos(bit.bit_seq()) < 64,
        bit == 1u64 << (single_pos(bit.bit_seq()) as u64),
        bit.bit_seq() == only_bit(64, single_pos(bit.bit_seq())),
{
    let s = bit.bit_seq();
    lemma_single(s);
    let p = single_pos(s);
    let b = 1u64 << (p as u64);
    assert forall|i: int| 0 <= i < 64 implies #[trigger] s[i] == b.bit_seq()[i] by {
        lemma_u64_bits(bit, b, i as u64, p as u64);
    }
    assert(s =~= b.bit_seq());
    lemma_u64_eq_from_bits(bit, b);
    assert(s =~= only_bit(64, p));
}

/// For a single-bit `b`, `x & b` is nonzero exactly when `x` has that bit.
proof fn lemma_u64_and_single(x: u64, bit: u64)
    requires
        is_single(bit.bit_seq()),
    ensures
        ((x & bit) != 0) == x.bit_seq()[single_pos(bit.bit_seq())],
{
    lemma_u64_single(bit);
    let p = single_pos(bit.bit_seq());
    lemma_u64_bits(x, bit, p as u64, p as u64);
    if (x & bit) != 0 {
        let k = lemma_u64_nonzero(x & bit);
        lemma_u64_bits(x, bit, k, p as u64);
        assert(bit.bit_seq()[k as int]);
    } else {
        lemma_u64_bits(x & bit, bit, p as u64, p as u64);
    }
}

impl BitContains for u64 {
    fn bit_contains(&self, bit: Self) -> (r: Result<bool, BitError>) {
        if bit.count_ones_t() != 1 {
            return Err(BitError::CountNotEqualToOne);
        }
        proof {
            lemma_u64_and_single(*self, bit);
        }
        Ok((*self & bit) != 0)
    }
}

impl BitIndex for u64 {
    fn bit_index(&self, bit: Self) -> (r: Result<usize, BitError>) {
        if bit.count_ones_t() != 1 {
            return Err(BitError::CountNotEqualToOne);
        }
        proof {
            lemma_u64_and_single(*self, bit);
            lemma_u64_single(bit);
            lemma_u64_bits(bit, bit, 0, single_pos(bit.bit_seq()) as u64);
        }
        if *self & bit == 0 {
            return Err(BitError::NotFound);
        }
        let below = *self & (bit - 1);
        let r = below.count_ones_t();
        proof {
            let p = single_pos(bit.bit_seq());
            let x = *self;
            assert forall|i: int| 0 <= i < 64 implies below.bit_seq()[i] == (x.bit_seq()[i] && i < p) by {
                lemma_u64_bits(x, (bit - 1) as u64, i as u64, p as u64);
            }
            lemma_count_masked(x.bit_seq(), below.bit_seq(), p);
        }
        Ok(r)
    }
}

impl BitInsert for u64 {
    fn bit_insert(&self, bit: Self) -> (r: Result<Self, BitError>) {
        if bit.count_ones_t() != 1 {
            return Err(BitError::CountNotEqualToOne);
        }
        proof {
            lemma_u64_and_single(*self, bit);
            lemma_u64_single(bit);
        }
        if *self & bit != 0 {
            return Err(BitError::Found);
        }
        let w = *self | bit;
        proof {
            let p = single_pos(bit.bit_seq());
            let x = *self;
            assert forall|i: int| 0 <= i < 64 implies w.bit_seq()[i] == x.bit_seq().update(p, true)[i] by {
                lemma_u64_bits(x, bit, i as u64, p as u64);
            }
            assert(w.bit_seq() =~= x.bit_seq().update(p, true));
        }
        Ok(w)
    }
}

impl BitRemove for u64 {
    fn bit_remove(&self, bit: Self) -> (r: Result<Self, BitError>) {
        if bit.count_ones_t() != 1 {
            return Err(BitError::CountNotEqualToOne);
        }
        proof {
            lemma_u64_and_single(*self, bit);
            lemma_u64_single(bit);
        }
        if *self & bit == 0 {
            return Err(BitError::NotFound);
        }
        let w = *self ^ bit;
        proof {
            let p = single_pos(bit.bit_seq());
            let x = *self;
            assert forall|i: int| 0 <= i < 64 implies w.bit_seq()[i] == x.bit_seq().update(p, false)[i] by {
                lemma_u64_bits(x, bit, i as u64, p as u64);
            }
            assert(w.bit_seq() =~= x.bit_seq().update(p, false));
        }
        Ok(w)
    }
}

impl LogB for u64 {
    fn log_b() -> (r: usize) {
        6
    }
}

impl MaskLogB for u64 {
    fn mask_log_b() -> (r: Self) {
        let r: u64 = 0b111111;
        proof {
            assert forall|i: int| 0 <= i < 64 implies r.bit_seq()[i] == (i < 6) by {
                lemma_u64_bits(r, r, i as u64, 0);
            }
            assert(r.bit_seq() =~= low_bits(64, log_width_of(64) as int));
        }
        r
    }
}

impl NthBit for u64 {
    fn nth_bit(n: usize) -> (r: Result<Self, BitError>) {
        if n >= 64 {
            return Err(BitError::Range);
        }
        let s = n as u64;
        let w: u64 = 1 << s;
        proof {
            assert forall|i: int| 0 <= i < 64 implies w.bit_seq()[i] == (i == n) by {
                lemma_u64_bits(w, w, i as u64, s);
            }
            assert(w.bit_seq() =~= only_bit(64, n as int));
        }
        Ok(w)
    }
}

impl Bits for u64 {}

// ----------------------------------------------------------------------------
// u128
// ----------------------------------------------------------------------------

/// Bit-level facts about `u128` words.
proof fn lemma_u128_bits(x: u128, y: u128, i: u128, n: u128)
    by (bit_vector)
    requires
        i < 128,
        n < 128,
    ensures
        ((x | y) >> i) & 1 == 1 <==> ((x >> i) & 1 == 1 || (y >> i) & 1 == 1),
        ((x & y) >> i) & 1 == 1 <==> ((x >> i) & 1 == 1 && (y >> i) & 1 == 1),
        ((x ^ y) >> i) & 1 == 1 <==> ((x >> i) & 1 == 1) != ((y >> i) & 1 == 1),
        ((1u128 << n) >> i) & 1 == 1 <==> i == n,
        ((((1u128 << n) - 1) as u128) >> i) & 1 == 1 <==> i < n,
        ((0b1111111 as u128) >> i) & 1 == 1 <==> i < 7,
        (0u128 >> i) & 1 == 0,
        (x >> i) & 1 == 0 || (x >> i) & 1 == 1,
        x == 0 ==> (x >> i) & 1 == 0,
        x ^ y == 0 ==> x == y,
        (1u128 << n) >= 1,
{
}

/// Bit-level facts about halving a `u128` word.
proof fn lemma_u128_halve(x: u128, j: u128, k: u128)
    by (bit_vector)
    requires
        k == j + 1,
        j < 128 - 1,
    ensures
        x != 0 && (x & 1) != 1 ==> (x >> 1) != 0 && (x >> 1) < x,
        (x & 1) == ((x >> 0) & 1),
        ((x >> 1) >> j) & 1 == (x >> k) & 1,
        ((x >> 1) >> (128 - 1) as u128) & 1 == 0,
{
}

/// A nonzero `u128` word has a set bit.
proof fn lemma_u128_nonzero(x: u128) -> (i: u128)
    requires
        x != 0,
    ensures
        i < 128,
        (x >> i) & 1 == 1,
    decreases x,
{
    lemma_u128_halve(x, 0, 1);
    if x & 1 == 1 {
        0
    } else {
        let j = lemma_u128_nonzero(x >> 1);
        if j == (128 - 1) as u128 {
            lemma_u128_halve(x, 0, 1);
            assert(false);
        }
        lemma_u128_halve(x, j, (j + 1) as u128);
        (j + 1) as u128
    }
}

/// A `u128` word is determined by its bits.
proof fn lemma_u128_eq_from_bits(x: u128, y: u128)
    requires
        x.bit_seq() == y.bit_seq(),
    ensures
        x == y,
{
    if x ^ y != 0 {
        let k = lemma_u128_nonzero(x ^ y);
        lemma_u128_bits(x, y, k, 0);
        assert(x.bit_seq()[k as int] == ((x >> k) & 1 == 1));
        assert(y.bit_seq()[k as int] == ((y >> k) & 1 == 1));
        assert(x.bit_seq()[k as int] == y.bit_seq()[k as int]);
        assert(false);
    }
    lemma_u128_bits(x, y, 0, 0);
}

impl BitWord for u128 {
    open spec fn bit_seq(self) -> Seq<bool> {
        Seq::new(128, |i: int| (self >> (i as u128)) & 1 == 1)
    }

    open spec fn word_value(self) -> nat {
        self as nat
    }

    open spec fn word_width() -> nat {
        128
    }

    proof fn lemma_bit_word(w: Self) {
    }

    proof fn lemma_bits_determine(a: Self, b: Self) {
        lemma_u128_eq_from_bits(a, b);
    }

    fn zero_word() -> (r: Self) {
        let r: u128 = 0;
        proof {
            assert forall|i: int| 0 <= i < 128 implies !r.bit_seq()[i] by {
                lemma_u128_bits(r, r, i as u128, 0);
            }
            assert(r.bit_seq() =~= Seq::new(Self::word_width(), |i: int| false));
        }
        r
    }

    fn word_eq(&self, other: &Self) -> (r: bool) {
        *self == *other
    }
}

impl AsUsize for u128 {
    fn as_usize(&self) -> (r: usize)
        ensures
            r == *self as usize,
    {
        *self as usize
    }
}

impl CountOnes for u128 {
    fn count_ones_t(&self) -> (r: usize) {
        let x = *self;
        let mut c: usize = 0;
        let mut i: u128 = 0;
        while i < 128
            invariant
                i <= 128,
                c <= i,
                c == count_set(x.bit_seq().take(i as int)),
            decreases 128 - i,
        {
            proof {
                lemma_count_take_succ(x.bit_seq(), i as int);
                lemma_u128_bits(x, x, i, 0);
            }
            if (x >> i) & 1 == 1 {
                c = c + 1;
            }
            i = i + 1;
        }
        proof {
            assert(x.bit_seq().take(128 as int) =~= x.bit_seq());
        }
        c
    }
}

/// The position of a single-bit `u128` word, and the word as a shift.
proof fn lemma_u128_single(bit: u128)
    requires
        is_single(bit.bit_seq()),
    ensures
        0 <= single_pos(bit.bit_seq()) < 128,
        bit == 1u128 << (single_pos(bit.bit_seq()) as u128),
        bit.bit_seq() == only_bit(128, single_pos(bit.bit_seq())),
{
    let s = bit.bit_seq();
    lemma_single(s);
    let p = single_pos(s);
    let b = 1u128 << (p as u128);
    assert forall|i: int| 0 <= i < 128 implies #[trigger] s[i] == b.bit_seq()[i] by {
        lemma_u128_bits(bit, b, i as u128, p as u128);
    }
    assert(s =~= b.bit_seq());
    lemma_u128_eq_from_bits(bit, b);
    assert(s =~= only_bit(128, p));
}

/// For a single-bit `b`, `x & b` is nonzero exactly when `x` has that bit.
proof fn lemma_u128_and_single(x: u128, bit: u128)
    requires
        is_single(bit.bit_seq()),
    ensures
        ((x & bit) != 0) == x.bit_seq()[single_pos(bit.bit_seq())],
{
    lemma_u128_single(bit);
    let p = single_pos(bit.bit_seq());
    lemma_u128_bits(x, bit, p as u128, p as u128);
    if (x & bit) != 0 {
        let k = lemma_u128_nonzero(x & bit);
        lemma_u128_bits(x, bit, k, p as u128);
        assert(bit.bit_seq()[k as int]);
    } else {
        lemma_u128_bits(x & bit, bit, p as u128, p as u128);
    }
}

impl BitContains for u128 {
    fn bit_contains(&self, bit: Self) -> (r: Result<bool, BitError>) {
        if bit.count_ones_t() != 1 {
            return Err(BitError::CountNotEqualToOne);
        }
        proof {
            lemma_u128_and_single(*self, bit);
        }
        Ok((*self & bit) != 0)
    }
}

impl BitIndex for u128 {
    fn bit_index(&self, bit: Self) -> (r: Result<usize, BitError>) {
        if bit.count_ones_t() != 1 {
            return Err(BitError::CountNotEqualToOne);
        }
        proof {
            lemma_u128_and_single(*self, bit);
            lemma_u128_single(bit);
            lemma_u128_bits(bit, bit, 0, single_pos(bit.bit_seq()) as u128);
        }
        if *self & bit == 0 {
            return Err(BitError::NotFound);
        }
        let below = *self & (bit - 1);
        let r = below.count_ones_t();
        proof {
            let p = single_pos(bit.bit_seq());
            let x = *self;
            assert forall|i: int| 0 <= i < 128 implies below.bit_seq()[i] == (x.bit_seq()[i] && i < p) by {
                lemma_u128_bits(x, (bit - 1) as u128, i as u128, p as u128);
            }
            lemma_count_masked(x.bit_seq(), below.bit_seq(), p);
        }
        Ok(r)
    }
}

impl BitInsert for u128 {
    fn bit_insert(&self, bit: Self) -> (r: Result<Self, BitError>) {
        if bit.count_ones_t() != 1 {
            return Err(BitError::CountNotEqualToOne);
        }
        proof {
            lemma_u128_and_single(*self, bit);
            lemma_u128_single(bit);
        }
        if *self & bit != 0 {
            return Err(BitError::Found);
        }
        let w = *self | bit;
        proof {
            let p = single_pos(bit.bit_seq());
            let x = *self;
            assert forall|i: int| 0 <= i < 128 implies w.bit_seq()[i] == x.bit_seq().update(p, true)[i] by {
                lemma_u128_bits(x, bit, i as u128, p as u128);
            }
            assert(w.bit_seq() =~= x.bit_seq().update(p, true));
        }
        Ok(w)
    }
}

impl BitRemove for u128 {
    fn bit_remove(&self, bit: Self) -> (r: Result<Self, BitError>) {
        if bit.count_ones_t() != 1 {
            return Err(BitError::CountNotEqualToOne);
        }
        proof {
            lemma_u128_and_single(*self, bit);
            lemma_u128_single(bit);
        }
        if *self & bit == 0 {
            return Err(BitError::NotFound);
        }
        let w = *self ^ bit;
        proof {
            let p = single_pos(bit.bit_seq());
            let x = *self;
            assert forall|i: int| 0 <= i < 128 implies w.bit_seq()[i] == x.bit_seq().update(p, false)[i] by {
                lemma_u128_bits(x, bit, i as u128, p as u128);
            }
            assert(w.bit_seq() =~= x.bit_seq().update(p, false));
        }
        Ok(w)
    }
}

impl LogB for u128 {
    fn log_b() -> (r: usize) {
        7
    }
}

impl MaskLogB for u128 {
    fn mask_log_b() -> (r: Self) {
        let r: u128 = 0b1111111;
        proof {
            assert forall|i: int| 0 <= i < 128 implies r.bit_seq()[i] == (i < 7) by {
                lemma_u128_bits(r, r, i as u128, 0);
            }
            assert(r.bit_seq() =~= low_bits(128, log_width_of(128) as int));
        }
        r
    }
}

impl NthBit for u128 {
    fn nth_bit(n: usize) -> (r: Result<Self, BitError>) {
        if n >= 128 {
            return Err(BitError::Range);
        }
        let s = n as u128;
        let w: u128 = 1 << s;
        proof {
            assert forall|i: int| 0 <= i < 128 implies w.bit_seq()[i] == (i == n) by {
                lemma_u128_bits(w, w, i as u128, s);
            }
            assert(w.bit_seq() =~= only_bit(128, n as int));
        }
        Ok(w)
    }
}

impl Bits for u128 {}

// ----------------------------------------------------------------------------
// usize
// ----------------------------------------------------------------------------

/// Bit-level facts about `usize` words.
proof fn lemma_usize_bits(x: usize, y: usize, i: usize, n: usize)
    by (bit_vector)
    requires
        i < usize::BITS,
        n < usize::BITS,
    ensures
        ((x | y) >> i) & 1 == 1 <==> ((x >> i) & 1 == 1 || (y >> i) & 1 == 1),
        ((x & y) >> i) & 1 == 1 <==> ((x >> i) & 1 == 1 && (y >> i) & 1 == 1),
        ((x ^ y) >> i) & 1 == 1 <==> ((x >> i) & 1 == 1) != ((y >> i) & 1 == 1),
        ((1usize << n) >> i) & 1 == 1 <==> i == n,
        ((((1usize << n) - 1) as usize) >> i) & 1 == 1 <==> i < n,
        usize::BITS == 64 ==> (((63usize >> i) & 1 == 1) <==> i < 6),
        usize::BITS == 32 ==> (((31usize >> i) & 1 == 1) <==> i < 5),
        (0usize >> i) & 1 == 0,
        (x >> i) & 1 == 0 || (x >> i) & 1 == 1,
        x == 0 ==> (x >> i) & 1 == 0,
        x ^ y == 0 ==> x == y,
        (1usize << n) >= 1,
{
}

/// Bit-level facts about halving a `usize` word.
proof fn lemma_usize_halve(x: usize, j: usize, k: usize)
    by (bit_vector)
    requires
        k == j + 1,
        j < usize::BITS - 1,
    ensures
        x != 0 && (x & 1) != 1 ==> (x >> 1) != 0 && (x >> 1) < x,
        (x & 1) == ((x >> 0) & 1),
        ((x >> 1) >> j) & 1 == (x >> k) & 1,
        ((x >> 1) >> (usize::BITS - 1) as usize) & 1 == 0,
{
}

/// A nonzero `usize` word has a set bit.
proof fn lemma_usize_nonzero(x: usize) -> (i: usize)
    requires
        x != 0,
    ensures
        i < usize::BITS,
        (x >> i) & 1 == 1,
    decreases x,
{
    lemma_usize_halve(x, 0, 1);
    if x & 1 == 1 {
        0
    } else {
        let j = lemma_usize_nonzero(x >> 1);
        if j == (usize::BITS - 1) as usize {
            lemma_usize_halve(x, 0, 1);
            assert(false);
        }
        lemma_usize_halve(x, j, (j + 1) as usize);
        (j + 1) as usize
    }
}

/// A `usize` word is determined by its bits.
proof fn lemma_usize_eq_from_bits(x: usize, y: usize)
    requires
        x.bit_seq() == y.bit_seq(),
    ensures
        x == y,
{
    if x ^ y != 0 {
        let k = lemma_usize_nonzero(x ^ y);
        lemma_usize_bits(x, y, k, 0);
        assert(x.bit_seq()[k as int] == ((x >> k) & 1 == 1));
        assert(y.bit_seq()[k as int] == ((y >> k) & 1 == 1));
        assert(x.bit_seq()[k as int] == y.bit_seq()[k as int]);
        assert(false);
    }
    lemma_usize_bits(x, y, 0, 0);
}

impl BitWord for usize {
    open spec fn bit_seq(self) -> Seq<bool> {
        Seq::new((usize::BITS as nat), |i: int| (self >> (i as usize)) & 1 == 1)
    }

    open spec fn word_value(self) -> nat {
        self as nat
    }

    open spec fn word_width() -> nat {
        (usize::BITS as nat)
    }

    proof fn lemma_bit_word(w: Self) {
    }

    proof fn lemma_bits_determine(a: Self, b: Self) {
        lemma_usize_eq_from_bits(a, b);
    }

    fn zero_word() -> (r: Self) {
        let r: usize = 0;
        proof {
            assert forall|i: int| 0 <= i < usize::BITS implies !r.bit_seq()[i] by {
                lemma_usize_bits(r, r, i as usize, 0);
            }
            assert(r.bit_seq() =~= Seq::new(Self::word_width(), |i: int| false));
        }
        r
    }

    fn word_eq(&self, other: &Self) -> (r: bool) {
        *self == *other
    }
}

impl AsUsize for usize {
    fn as_usize(&self) -> (r: usize)
        ensures
            r == *self as usize,
    {
        *self as usize
    }
}

impl CountOnes for usize {
    fn count_ones_t(&self) -> (r: usize) {
        let x = *self;
        let mut c: usize = 0;
        let mut i: usize = 0;
        while i < usize::BITS as usize
            invariant
                i <= usize::BITS,
                c <= i,
                c == count_set(x.bit_seq().take(i as int)),
            decreases usize::BITS - i,
        {
            proof {
                lemma_count_take_succ(x.bit_seq(), i as int);
                lemma_usize_bits(x, x, i, 0);
            }
            if (x >> i) & 1 == 1 {
                c = c + 1;
            }
            i = i + 1;
        }
        proof {
            assert(x.bit_seq().take(usize::BITS as int) =~= x.bit_seq());
        }
        c
    }
}

/// The position of a single-bit `usize` word, and the word as a shift.
proof fn lemma_usize_single(bit: usize)
    requires
        is_single(bit.bit_seq()),
    ensures
        0 <= single_pos(bit.bit_seq()) < usize::BITS,
        bit == 1usize << (single_pos(bit.bit_seq()) as usize),
        bit.bit_seq() == only_bit((usize::BITS as nat), single_pos(bit.bit_seq())),
{
    let s = bit.bit_seq();
    lemma_single(s);
    let p = single_pos(s);
    let b = 1usize << (p as usize);
    assert forall|i: int| 0 <= i < usize::BITS implies #[trigger] s[i] == b.bit_seq()[i] by {
        lemma_usize_bits(bit, b, i as usize, p as usize);
    }
    assert(s =~= b.bit_seq());
    lemma_usize_eq_from_bits(bit, b);
    assert(s =~= only_bit((usize::BITS as nat), p));
}

/// For a single-bit `b`, `x & b` is nonzero exactly when `x` has that bit.
proof fn lemma_usize_and_single(x: usize, bit: usize)
    requires
        is_single(bit.bit_seq()),
    ensures
        ((x & bit) != 0) == x.bit_seq()[single_pos(bit.bit_seq())],
{
    lemma_usize_single(bit);
    let p = single_pos(bit.bit_seq());
    lemma_usize_bits(x, bit, p as usize, p as usize);
    if (x & bit) != 0 {
        let k = lemma_usize_nonzero(x & bit);
        lemma_usize_bits(x, bit, k, p as usize);
        assert(bit.bit_seq()[k as int]);
    } else {
        lemma_usize_bits(x & bit, bit, p as usize, p as usize);
    }
}

impl BitContains for usize {
    fn bit_contains(&self, bit: Self) -> (r: Result<bool, BitError>) {
        if bit.count_ones_t() != 1 {
            return Err(BitError::CountNotEqualToOne);
        }
        proof {
            lemma_usize_and_single(*self, bit);
        }
        Ok((*self & bit) != 0)
    }
}

impl BitIndex for usize {
    fn bit_index(&self, bit: Self) -> (r: Result<usize, BitError>) {
        if bit.count_ones_t() != 1 {
            return Err(BitError::CountNotEqualToOne);
        }
        proof {
            lemma_usize_and_single(*self, bit);
            lemma_usize_single(bit);
            lemma_usize_bits(bit, bit, 0, single_pos(bit.bit_seq()) as usize);
        }
        if *self & bit == 0 {
            return Err(BitError::NotFound);
        }
        let below = *self & (bit - 1);
        let r = below.count_ones_t();
        proof {
            let p = single_pos(bit.bit_seq());
            let x = *self;
            assert forall|i: int| 0 <= i < usize::BITS implies below.bit_seq()[i] == (x.bit_seq()[i] && i < p) by {
                lemma_usize_bits(x, (bit - 1) as usize, i as usize, p as usize);
            }
            lemma_count_masked(x.bit_seq(), below.bit_seq(), p);
        }
        Ok(r)
    }
}

impl BitInsert for usize {
    fn bit_insert(&self, bit: Self) -> (r: Result<Self, BitError>) {
        if bit.count_ones_t() != 1 {
            return Err(BitError::CountNotEqualToOne);
        }
        proof {
            lemma_usize_and_single(*self, bit);
            lemma_usize_single(bit);
        }
        if *self & bit != 0 {
            return Err(BitError::Found);
        }
        let w = *self | bit;
        proof {
            let p = single_pos(bit.bit_seq());
            let x = *self;
            assert forall|i: int| 0 <= i < usize::BITS implies w.bit_seq()[i] == x.bit_seq().update(p, true)[i] by {
                lemma_usize_bits(x, bit, i as usize, p as usize);
            }
            assert(w.bit_seq() =~= x.bit_seq().update(p, true));
        }
        Ok(w)
    }
}

impl BitRemove for usize {
    fn bit_remove(&self, bit: Self) -> (r: Result<Self, BitError>) {
        if bit.count_ones_t() != 1 {
            return Err(BitError::CountNotEqualToOne);
        }
        proof {
            lemma_usize_and_single(*self, bit);
            lemma_usize_single(bit);
        }
        if *self & bit == 0 {
            return Err(BitError::NotFound);
        }
        let w = *self ^ bit;
        proof {
            let p = single_pos(bit.bit_seq());
            let x = *self;
            assert forall|i: int| 0 <= i < usize::BITS implies w.bit_seq()[i] == x.bit_seq().update(p, false)[i] by {
                lemma_usize_bits(x, bit, i as usize, p as usize);
            }
            assert(w.bit_seq() =~= x.bit_seq().update(p, false));
        }
        Ok(w)
    }
}

impl LogB for usize {
    fn log_b() -> (r: usize) {
        if usize::BITS == 64 {
            6
        } else {
            5
        }
    }
}

impl MaskLogB for usize {
    fn mask_log_b() -> (r: Self) {
        let r: usize = if usize::BITS == 64 {
            0b111111
        } else {
            0b11111
        };
        proof {
            assert forall|i: int| 0 <= i < usize::BITS implies r.bit_seq()[i] == (i < log_width_of(usize::BITS as nat)) by {
                lemma_usize_bits(r, r, i as usize, 0);
            }
            assert(r.bit_seq() =~= low_bits((usize::BITS as nat), log_width_of((usize::BITS as nat)) as int));
        }
        r
    }
}

impl NthBit for usize {
    fn nth_bit(n: usize) -> (r: Result<Self, BitError>) {
        if n >= usize::BITS as usize {
            return Err(BitError::Range);
        }
        let s = n as usize;
        let w: usize = 1 << s;
        proof {
            assert forall|i: int| 0 <= i < usize::BITS implies w.bit_seq()[i] == (i == n) by {
                lemma_usize_bits(w, w, i as usize, s);
            }
            assert(w.bit_seq() =~= only_bit((usize::BITS as nat), n as int));
        }
        Ok(w)
    }
}

impl Bits for usize {}

} // verus!
