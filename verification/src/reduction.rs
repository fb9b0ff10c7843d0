//! How the secondary values of the operations run on the entries of a trie are
//! reduced to one value: a binary tree whose leaves are those values, or
//! values that stand for no entry, and whose inner nodes are results of the
//! reduce operation. The shape of the tree follows the trie's, so contracts
//! speak of some such tree.
use vstd::prelude::*;

verus! {

/// How a reduced value came about.
pub enum Reduction<K, R> {
    /// The secondary value that the operation run on the entry for a key gave.
    Entry(K, R),
    /// A value that stands for no entry, such as a default value.
    Other(R),
    /// The value that the reduce operation gave on the values of both sides.
    Both(Box<Reduction<K, R>>, Box<Reduction<K, R>>, R),
}

impl<K, R> Reduction<K, R> {
    /// The reduced value.
    pub open spec fn value(self) -> R {
        match self {
            Reduction::Entry(_, r) => r,
            Reduction::Other(r) => r,
            Reduction::Both(_, _, r) => r,
        }
    }

    /// The entries' keys and values, left to right.
    pub open spec fn entries(self) -> Seq<(K, R)>
        decreases self,
    {
        match self {
            Reduction::Entry(k, r) => seq![(k, r)],
            Reduction::Other(_) => Seq::empty(),
            Reduction::Both(a, b, _) => a.entries() + b.entries(),
        }
    }

    /// The values that stand for no entry, left to right.
    pub open spec fn others(self) -> Seq<R>
        decreases self,
    {
        match self {
            Reduction::Entry(_, _) => Seq::empty(),
            Reduction::Other(r) => seq![r],
            Reduction::Both(a, b, _) => a.others() + b.others(),
        }
    }

    /// Each inner node holds a value that `reduce_op` may give on the values
    /// of its sides.
    pub open spec fn combines<RO: Fn(&R, &R) -> R>(self, reduce_op: RO) -> bool
        decreases self,
    {
        match self {
            Reduction::Both(a, b, r) => a.combines(reduce_op) && b.combines(reduce_op) && reduce_op.ensures(
                (&a.value(), &b.value()),
                r,
            ),
            _ => true,
        }
    }
}

/// The keys of `entries`, in order.
pub open spec fn reduced_keys<K, R>(entries: Seq<(K, R)>) -> Seq<K> {
    entries.map_values(|e: (K, R)| e.0)
}

/// `t` is a reduction by `reduce_op` of values for the keys `keys`: each key
/// of `keys` has exactly one entry, and no other key has one; each entry's
/// value is one that `entry_ok` allows for its key; and each other value is
/// one that `other_ok` allows.
pub open spec fn reduction_fits<K, R, RO: Fn(&R, &R) -> R>(
    t: Reduction<K, R>,
    reduce_op: RO,
    keys: Set<K>,
    entry_ok: spec_fn(K, R) -> bool,
    other_ok: spec_fn(R) -> bool,
) -> bool {
    &&& t.combines(reduce_op)
    &&& reduced_keys(t.entries()).no_duplicates()
    &&& forall|i: int| #![trigger t.entries()[i]]
        0 <= i < t.entries().len() ==> keys.contains(t.entries()[i].0) && entry_ok(t.entries()[i].0, t.entries()[i].1)
    &&& forall|i: int| 0 <= i < t.others().len() ==> other_ok(#[trigger] t.others()[i])
    &&& forall|k: K| #[trigger] keys.contains(k) ==> reduced_keys(t.entries()).contains(k)
}

/// A single entry fits its own key.
pub proof fn lemma_fits_entry<K, R, RO: Fn(&R, &R) -> R>(
    k: K,
    y: R,
    reduce_op: RO,
    entry_ok: spec_fn(K, R) -> bool,
    other_ok: spec_fn(R) -> bool,
)
    requires
        entry_ok(k, y),
    ensures
        reduction_fits(Reduction::Entry(k, y), reduce_op, set![k], entry_ok, other_ok),
{
    let t = Reduction::<K, R>::Entry(k, y);
    assert(reduced_keys(t.entries()) =~= seq![k]);
    assert(reduced_keys(t.entries())[0] == k);
}

/// A value that stands for no entry fits no key.
pub proof fn lemma_fits_other<K, R, RO: Fn(&R, &R) -> R>(
    y: R,
    reduce_op: RO,
    entry_ok: spec_fn(K, R) -> bool,
    other_ok: spec_fn(R) -> bool,
)
    requires
        other_ok(y),
    ensures
        reduction_fits(Reduction::<K, R>::Other(y), reduce_op, Set::empty(), entry_ok, other_ok),
{
    let t = Reduction::<K, R>::Other(y);
    assert(reduced_keys(t.entries()) =~= Seq::<K>::empty());
    assert(t.others() =~= seq![y]);
}

/// Two reductions of values for disjoint sets of keys, combined by the reduce
/// operation, are a reduction of values for the union of the sets.
pub proof fn lemma_fits_both<K, R, RO: Fn(&R, &R) -> R>(
    a: Reduction<K, R>,
    b: Reduction<K, R>,
    v: R,
    reduce_op: RO,
    ka: Set<K>,
    kb: Set<K>,
    entry_ok: spec_fn(K, R) -> bool,
    other_ok: spec_fn(R) -> bool,
)
    requires
        reduction_fits(a, reduce_op, ka, entry_ok, other_ok),
        reduction_fits(b, reduce_op, kb, entry_ok, other_ok),
        ka.disjoint(kb),
        reduce_op.ensures((&a.value(), &b.value()), v),
    ensures
        reduction_fits(Reduction::Both(Box::new(a), Box::new(b), v), reduce_op, ka.union(kb), entry_ok, other_ok),
{
    let t = Reduction::Both(Box::new(a), Box::new(b), v);
    let ea = a.entries();
    let eb = b.entries();
    assert(t.entries() == ea + eb);
    assert(t.others() == a.others() + b.others());
    assert(reduced_keys(ea + eb) =~= reduced_keys(ea) + reduced_keys(eb));
    assert forall|i: int, j: int| 0 <= i < j < reduced_keys(ea + eb).len() implies reduced_keys(ea + eb)[i] != reduced_keys(
        ea + eb,
    )[j] by {
        if j < ea.len() {
            assert(reduced_keys(ea)[i] == ea[i].0);
            assert(reduced_keys(ea)[j] == ea[j].0);
        } else if i >= ea.len() {
            assert(reduced_keys(eb)[i - ea.len()] == eb[i - ea.len()].0);
            assert(reduced_keys(eb)[j - ea.len()] == eb[j - ea.len()].0);
        } else {
            assert(ea[i] == t.entries()[i]);
            assert(eb[j - ea.len()] == t.entries()[j]);
            assert(ka.contains(ea[i].0));
            assert(kb.contains(eb[j - ea.len()].0));
        }
    }
    assert forall|i: int| #![trigger t.entries()[i]] 0 <= i < t.entries().len() implies ka.union(kb).contains(
        t.entries()[i].0,
    ) && entry_ok(t.entries()[i].0, t.entries()[i].1) by {
        if i < ea.len() {
            assert(t.entries()[i] == ea[i]);
        } else {
            assert(t.entries()[i] == eb[i - ea.len()]);
        }
    }
    assert forall|i: int| 0 <= i < t.others().len() implies other_ok(#[trigger] t.others()[i]) by {
        if i < a.others().len() {
            assert(t.others()[i] == a.others()[i]);
        } else {
            assert(t.others()[i] == b.others()[i - a.others().len()]);
        }
    }
    assert forall|k: K| #[trigger] ka.union(kb).contains(k) implies reduced_keys(t.entries()).contains(k) by {
        if ka.contains(k) {
            let i = choose|i: int| 0 <= i < reduced_keys(ea).len() && reduced_keys(ea)[i] == k;
            assert(reduced_keys(ea + eb)[i] == k);
        } else {
            let i = choose|i: int| 0 <= i < reduced_keys(eb).len() && reduced_keys(eb)[i] == k;
            assert(reduced_keys(ea + eb)[ea.len() + i] == k);
        }
    }
}

/// A reduction stays one under weaker conditions on the entries' values and
/// on the other values, for the same keys.
pub proof fn lemma_fits_weaken<K, R, RO: Fn(&R, &R) -> R>(
    t: Reduction<K, R>,
    reduce_op: RO,
    k1: Set<K>,
    k2: Set<K>,
    e1: spec_fn(K, R) -> bool,
    e2: spec_fn(K, R) -> bool,
    o1: spec_fn(R) -> bool,
    o2: spec_fn(R) -> bool,
)
    requires
        reduction_fits(t, reduce_op, k1, e1, o1),
        k1 == k2,
        forall|k: K, y: R| k1.contains(k) && #[trigger] e1(k, y) ==> #[trigger] e2(k, y),
        forall|y: R| #[trigger] o1(y) ==> o2(y),
    ensures
        reduction_fits(t, reduce_op, k2, e2, o2),
{
    assert forall|i: int| #![trigger t.entries()[i]] 0 <= i < t.entries().len() implies k2.contains(t.entries()[i].0)
        && e2(t.entries()[i].0, t.entries()[i].1) by {
        assert(k1.contains(t.entries()[i].0));
        assert(e1(t.entries()[i].0, t.entries()[i].1));
    }
    assert forall|i: int| 0 <= i < t.others().len() implies o2(#[trigger] t.others()[i]) by {
        assert(o1(t.others()[i]));
    }
}

/// A reduction with one more entry, for a key it did not hold, combined by
/// the reduce operation.
pub proof fn lemma_fits_add_entry<K, R, RO: Fn(&R, &R) -> R>(
    t: Reduction<K, R>,
    reduce_op: RO,
    keys: Set<K>,
    k: K,
    y: R,
    v: R,
    entry_ok: spec_fn(K, R) -> bool,
    other_ok: spec_fn(R) -> bool,
) -> (t2: Reduction<K, R>)
    requires
        reduction_fits(t, reduce_op, keys, entry_ok, other_ok),
        !keys.contains(k),
        entry_ok(k, y),
        reduce_op.ensures((&t.value(), &y), v),
    ensures
        reduction_fits(t2, reduce_op, keys.insert(k), entry_ok, other_ok),
        t2.value() == v,
{
    lemma_fits_entry(k, y, reduce_op, entry_ok, other_ok);
    lemma_fits_both(t, Reduction::Entry(k, y), v, reduce_op, keys, set![k], entry_ok, other_ok);
    assert(keys.union(set![k]) =~= keys.insert(k));
    Reduction::Both(Box::new(t), Box::new(Reduction::Entry(k, y)), v)
}

/// A reduction by addition whose entries all hold 1 and whose other values
/// all hold 0 holds the number of its entries.
pub proof fn lemma_reduction_counts<K, RO: Fn(&u64, &u64) -> u64>(t: Reduction<K, u64>, reduce_op: RO)
    requires
        t.combines(reduce_op),
        forall|a: &u64, b: &u64, c: u64| #[trigger] reduce_op.ensures((a, b), c) ==> c == *a + *b,
        forall|i: int| 0 <= i < t.entries().len() ==> #[trigger] t.entries()[i].1 == 1,
        forall|i: int| 0 <= i < t.others().len() ==> #[trigger] t.others()[i] == 0,
    ensures
        t.value() == t.entries().len(),
    decreases t,
{
    if t is Both {
        let a = *t->Both_0;
        let b = *t->Both_1;
        let v = t->Both_2;
        assert forall|i: int| 0 <= i < a.entries().len() implies #[trigger] a.entries()[i].1 == 1 by {
            assert(t.entries()[i] == a.entries()[i]);
        }
        assert forall|i: int| 0 <= i < a.others().len() implies #[trigger] a.others()[i] == 0 by {
            assert(t.others()[i] == a.others()[i]);
        }
        assert forall|i: int| 0 <= i < b.entries().len() implies #[trigger] b.entries()[i].1 == 1 by {
            assert(t.entries()[a.entries().len() + i] == b.entries()[i]);
        }
        assert forall|i: int| 0 <= i < b.others().len() implies #[trigger] b.others()[i] == 0 by {
            assert(t.others()[a.others().len() + i] == b.others()[i]);
        }
        lemma_reduction_counts(a, reduce_op);
        lemma_reduction_counts(b, reduce_op);
        assert(reduce_op.ensures((&a.value(), &b.value()), v));
    } else if t is Other {
        assert(t.others()[0] == t->Other_0);
    } else {
        assert(t.entries()[0] == (t->Entry_0, t->Entry_1));
        assert(t.entries()[0].1 == 1);
    }
}

/// A reduction of values for the keys `keys` has exactly as many entries as
/// `keys` has keys.
pub proof fn lemma_reduction_len<K, R, RO: Fn(&R, &R) -> R>(
    t: Reduction<K, R>,
    reduce_op: RO,
    keys: Set<K>,
    entry_ok: spec_fn(K, R) -> bool,
    other_ok: spec_fn(R) -> bool,
)
    requires
        reduction_fits(t, reduce_op, keys, entry_ok, other_ok),
    ensures
        t.entries().len() == keys.len(),
{
    let ks = reduced_keys(t.entries());
    assert(ks.to_set() =~= keys) by {
        assert forall|k: K| #[trigger] ks.to_set().contains(k) implies keys.contains(k) by {
            let i = choose|i: int| 0 <= i < ks.len() && ks[i] == k;
            assert(t.entries()[i].0 == k);
        }
    }
    ks.unique_seq_to_set();
}

} // verus!
