//! Words viewed as sequences of bits (least significant first), and the
//! counting facts that the bit operations and the bit-indexed arrays rest on.
use vstd::prelude::*;

verus! {

/// Number of set bits in `s`.
pub open spec fn count_set(s: Seq<bool>) -> nat
    decreases s.len(),
{
    if s.len() == 0 {
        0
    } else {
        count_set(s.drop_last()) + (if s.last() { 1nat } else { 0nat })
    }
}

/// Number of set bits strictly below position `p`: the place of the value
/// stored for bit `p` in a bit-indexed array.
pub open spec fn rank(s: Seq<bool>, p: int) -> nat {
    count_set(s.take(p))
}

/// Exactly one bit is set.
pub open spec fn is_single(s: Seq<bool>) -> bool {
    count_set(s) == 1
}

/// The position of a set bit (the only one, for a single-bit word).
pub open spec fn single_pos(s: Seq<bool>) -> int {
    choose|p: int| 0 <= p < s.len() && s[p]
}

/// The sequence of `n` bits in which only bit `p` is set.
pub open spec fn only_bit(n: nat, p: int) -> Seq<bool> {
    Seq::new(n, |i: int| i == p)
}

/// The sequence of `n` bits in which exactly the bits below `p` are set.
pub open spec fn low_bits(n: nat, p: int) -> Seq<bool> {
    Seq::new(n, |i: int| i < p)
}

pub proof fn lemma_count_set_le(s: Seq<bool>)
    ensures
        count_set(s) <= s.len(),
    decreases s.len(),
{
    if s.len() > 0 {
        lemma_count_set_le(s.drop_last());
    }
}

/// No bit set means a count of zero, and conversely.
pub proof fn lemma_count_zero(s: Seq<bool>)
    ensures
        count_set(s) == 0 <==> (forall|i: int| 0 <= i < s.len() ==> !s[i]),
    decreases s.len(),
{
    if s.len() > 0 {
        lemma_count_zero(s.drop_last());
        if count_set(s) == 0 {
            assert forall|i: int| 0 <= i < s.len() implies !s[i] by {
                if i < s.len() - 1 {
                    assert(s.drop_last()[i] == s[i]);
                }
            }
        }
        if forall|i: int| 0 <= i < s.len() ==> !s[i] {
            assert forall|i: int| 0 <= i < s.drop_last().len() implies !s.drop_last()[i] by {
                assert(s.drop_last()[i] == s[i]);
            }
        }
    }
}

/// Counting a prefix: one more position adds its bit.
pub proof fn lemma_count_take_succ(s: Seq<bool>, p: int)
    requires
        0 <= p < s.len(),
    ensures
        count_set(s.take(p + 1)) == count_set(s.take(p)) + (if s[p] { 1nat } else { 0nat }),
{
    assert(s.take(p + 1).drop_last() =~= s.take(p));
}

/// The count over the whole word splits at any position.
pub proof fn lemma_count_split(s: Seq<bool>, p: int)
    requires
        0 <= p <= s.len(),
    ensures
        count_set(s) == count_set(s.take(p)) + count_set(s.skip(p)),
    decreases s.len() - p,
{
    if p == s.len() {
        assert(s.take(p) =~= s);
        assert(s.skip(p).len() == 0);
    } else {
        lemma_count_split(s, p + 1);
        lemma_count_take_succ(s, p);
        let t = s.skip(p);
        assert(t.len() > 0);
        lemma_count_front(t);
        assert(t.drop_first() =~= s.skip(p + 1));
    }
}

/// Counting from the front: the first bit plus the rest.
pub proof fn lemma_count_front(s: Seq<bool>)
    requires
        s.len() > 0,
    ensures
        count_set(s) == (if s[0] { 1nat } else { 0nat }) + count_set(s.drop_first()),
    decreases s.len(),
{
    if s.len() == 1 {
        assert(s.drop_last().len() == 0);
        assert(s.drop_first().len() == 0);
        assert(count_set(s.drop_last()) == 0);
        assert(count_set(s.drop_first()) == 0);
        assert(s.last() == s[0]);
    } else {
        lemma_count_front(s.drop_last());
        assert(s.drop_last()[0] == s[0]);
        assert(s.drop_last().drop_first() =~= s.drop_first().drop_last());
        assert(s.drop_first().last() == s.last());
        assert(count_set(s.drop_first()) == count_set(s.drop_first().drop_last()) + (if s.drop_first().last() { 1nat } else { 0nat }));
    }
}

/// Keeping only the bits below `p` counts the bits below `p`.
pub proof fn lemma_count_masked(s: Seq<bool>, t: Seq<bool>, p: int)
    requires
        0 <= p <= s.len(),
        s.len() == t.len(),
        forall|i: int| 0 <= i < s.len() ==> t[i] == (s[i] && i < p),
    ensures
        count_set(t) == count_set(s.take(p)),
{
    lemma_count_split(t, p);
    assert(t.take(p) =~= s.take(p));
    lemma_count_zero(t.skip(p));
}

/// Setting a clear bit adds one to the count and one to the rank of every
/// position above it.
pub proof fn lemma_count_set_bit(s: Seq<bool>, p: int, q: int)
    requires
        0 <= p < s.len(),
        0 <= q <= s.len(),
        !s[p],
    ensures
        count_set(s.update(p, true)) == count_set(s) + 1,
        count_set(s.update(p, true).take(q)) == count_set(s.take(q)) + (if p < q { 1nat } else { 0nat }),
{
    let u = s.update(p, true);
    lemma_count_split(s, p);
    lemma_count_split(u, p);
    assert(u.take(p) =~= s.take(p));
    lemma_count_front(s.skip(p));
    lemma_count_front(u.skip(p));
    assert(u.skip(p).drop_first() =~= s.skip(p).drop_first());
    if p < q {
        let sq = s.take(q);
        let uq = u.take(q);
        lemma_count_split(sq, p);
        lemma_count_split(uq, p);
        assert(uq.take(p) =~= sq.take(p));
        assert(sq.take(p) =~= s.take(p));
        lemma_count_front(sq.skip(p));
        lemma_count_front(uq.skip(p));
        assert(uq.skip(p).drop_first() =~= sq.skip(p).drop_first());
    } else {
        assert(u.take(q) =~= s.take(q));
    }
}

/// Clearing a set bit takes one from the count and one from the rank of every
/// position above it.
pub proof fn lemma_count_clear_bit(s: Seq<bool>, p: int, q: int)
    requires
        0 <= p < s.len(),
        0 <= q <= s.len(),
        s[p],
    ensures
        count_set(s.update(p, false)) + 1 == count_set(s),
        count_set(s.update(p, false).take(q)) + (if p < q { 1nat } else { 0nat }) == count_set(s.take(q)),
{
    let u = s.update(p, false);
    assert(u.update(p, true) =~= s);
    lemma_count_set_bit(u, p, q);
}

/// Ranks grow with the position, strictly across a set bit.
pub proof fn lemma_rank_mono(s: Seq<bool>, p: int, q: int)
    requires
        0 <= p <= q <= s.len(),
    ensures
        count_set(s.take(p)) <= count_set(s.take(q)),
        p < q && s[p] ==> count_set(s.take(p)) < count_set(s.take(q)),
    decreases q - p,
{
    if p < q {
        lemma_rank_mono(s, p + 1, q);
        lemma_count_take_succ(s, p);
    }
}

/// The rank of a set bit lies below the count.
pub proof fn lemma_rank_lt_count(s: Seq<bool>, p: int)
    requires
        0 <= p < s.len(),
        s[p],
    ensures
        count_set(s.take(p)) < count_set(s),
{
    lemma_rank_mono(s, p, s.len() as int);
    assert(s.take(s.len() as int) =~= s);
}

/// Distinct set bits have distinct ranks.
pub proof fn lemma_rank_injective(s: Seq<bool>, p: int, q: int)
    requires
        0 <= p < s.len(),
        0 <= q < s.len(),
        s[p],
        s[q],
        p != q,
    ensures
        count_set(s.take(p)) != count_set(s.take(q)),
{
    if p < q {
        lemma_rank_mono(s, p, q);
    } else {
        lemma_rank_mono(s, q, p);
    }
}

/// Every index below the count is the rank of some set bit.
pub proof fn lemma_rank_onto(s: Seq<bool>, n: int) -> (p: int)
    requires
        0 <= n < count_set(s),
    ensures
        0 <= p < s.len(),
        s[p],
        count_set(s.take(p)) == n,
    decreases s.len(),
{
    let t = s.drop_last();
    if n < count_set(t) {
        let p = lemma_rank_onto(t, n);
        assert(t.take(p) =~= s.take(p));
        p
    } else {
        let p = s.len() - 1;
        assert(s.take(p) =~= t);
        p
    }
}

/// A word with exactly one set bit: its position and the absence of others.
pub proof fn lemma_single(s: Seq<bool>)
    requires
        is_single(s),
    ensures
        0 <= single_pos(s) < s.len(),
        s[single_pos(s)],
        forall|i: int| 0 <= i < s.len() && i != single_pos(s) ==> !s[i],
{
    if forall|i: int| 0 <= i < s.len() ==> !s[i] {
        lemma_count_zero(s);
    }
    let w = choose|i: int| 0 <= i < s.len() && s[i];
    assert(0 <= w < s.len() && s[w]);
    let p = single_pos(s);
    assert forall|i: int| 0 <= i < s.len() && i != p implies !s[i] by {
        if s[i] {
            lemma_rank_injective(s, i, p);
            let (lo, hi) = if i < p { (i, p) } else { (p, i) };
            lemma_rank_mono(s, lo, hi);
            lemma_rank_lt_count(s, hi);
        }
    }
}

/// A sequence with only bit `p` set is single, at `p`.
pub proof fn lemma_only_bit(n: nat, p: int)
    requires
        0 <= p < n,
    ensures
        is_single(only_bit(n, p)),
        single_pos(only_bit(n, p)) == p,
{
    let s = only_bit(n, p);
    lemma_count_split(s, p);
    assert(s.take(p) =~= Seq::new(p as nat, |i: int| false));
    lemma_count_zero(s.take(p));
    lemma_count_front(s.skip(p));
    lemma_count_zero(s.skip(p).drop_first());
    lemma_single(s);
}

/// The rank of a position in a sequence with only bit `p` set.
pub proof fn lemma_only_bit_rank(n: nat, p: int, q: int)
    requires
        0 <= p < n,
        0 <= q <= n,
    ensures
        count_set(only_bit(n, p).take(q)) == (if p < q { 1nat } else { 0nat }),
{
    let s = only_bit(n, p);
    let z = Seq::new(n, |i: int| false);
    lemma_count_zero(z);
    lemma_count_zero(z.take(q));
    assert(z.update(p, true) =~= s);
    lemma_count_set_bit(z, p, q);
}

/// Clearing a bit that was set gives back the word from before, and setting a
/// bit that was cleared does too.
pub proof fn law_set_clear_bit(s: Seq<bool>, p: int)
    requires
        0 <= p < s.len(),
    ensures
        !s[p] ==> s.update(p, true).update(p, false) == s,
        s[p] ==> s.update(p, false).update(p, true) == s,
{
    assert(!s[p] ==> s.update(p, true).update(p, false) =~= s);
    assert(s[p] ==> s.update(p, false).update(p, true) =~= s);
}

} // verus!
