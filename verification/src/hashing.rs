//! Keys, hashers, and the FNV-1a hash that the default maps and sets use.
use vstd::prelude::*;

verus! {

/// The FNV-1a offset basis: the state of a fresh 64-bit FNV hasher.
pub open spec fn fnv_offset_basis() -> u64 {
    0xcbf29ce484222325
}

/// The 64-bit FNV prime.
pub open spec fn fnv_prime() -> nat {
    0x100000001b3
}

/// One FNV-1a step: xor in the byte, then multiply by the prime modulo 2^64.
pub open spec fn fnv_step(h: u64, b: u8) -> u64 {
    (((h ^ (b as u64)) as nat * fnv_prime()) % 0x1_0000_0000_0000_0000nat) as u64
}

/// The 64-bit FNV-1a hash of a byte sequence.
pub open spec fn fnv1a(bytes: Seq<u8>) -> u64
    decreases bytes.len(),
{
    if bytes.len() == 0 {
        fnv_offset_basis()
    } else {
        fnv_step(fnv1a(bytes.drop_last()), bytes.last())
    }
}

/// Hashes `bytes` with `fnv::FnvHasher`: a fresh (default) hasher, one call of
/// `Hasher::write` with the bytes, then `Hasher::finish`.
///
/// Trusted: the contract states that the result is the 64-bit FNV-1a hash of
/// the bytes, which is what the crate's `Default`, `write` and `finish` compute
/// (offset basis `0xcbf29ce484222325`, then for each byte an xor and a wrapping
/// multiplication by `0x100000001b3`).
#[verifier::external_body]
pub(crate) fn fnv_hash(bytes: &[u8]) -> (h: u64)
    ensures
        h == fnv1a(bytes@),
{
    let mut hasher = fnv::FnvHasher::default();
    std::hash::Hasher::write(&mut hasher, bytes);
    std::hash::Hasher::finish(&hasher)
}

/// The `n` low bytes of `x`, least significant first.
pub open spec fn le_bytes(x: u64, n: nat) -> Seq<u8> {
    Seq::new(n, |i: int| (x >> ((8 * i) as u64)) as u8)
}

/// The `n` low bytes of `x`, least significant first.
pub fn le_bytes_of(x: u64, n: usize) -> (r: Vec<u8>)
    requires
        n <= 8,
    ensures
        r@ == le_bytes(x, n as nat),
{
    let mut r: Vec<u8> = Vec::new();
    let mut i: usize = 0;
    while i < n
        invariant
            i <= n <= 8,
            r@ =~= le_bytes(x, i as nat),
        decreases n - i,
    {
        let shift: u64 = 8 * (i as u64);
        r.push((x >> shift) as u8);
        i = i + 1;
    }
    r
}

/// `Key` lists what the hash array mapped trie needs of a key: equality, a copy,
/// and the bytes that are hashed.
pub trait Key: Sized {
    /// The bytes of the key that a hasher reads.
    spec fn key_bytes(self) -> Seq<u8>;

    /// Key equality.
    fn key_eq(&self, other: &Self) -> (r: bool)
        ensures
            r == (*self == *other),
    ;

    /// A copy of the key.
    fn key_clone(&self) -> (r: Self)
        ensures
            r == *self,
    ;

    /// The bytes of the key that a hasher reads.
    fn hash_bytes(&self) -> (r: Vec<u8>)
        ensures
            r@ == self.key_bytes(),
    ;
}

/// `HasherBv` provides a generalization of the Hasher trait to support different word sizes for the hash values.
pub trait HasherBv<B, V> {
    /// The hash of a value.
    spec fn hash_of(value: V) -> B;

    /// Hash a value.
    fn hash(value: &V) -> (r: B)
        ensures
            r == Self::hash_of(*value),
    ;
}

/// The FNV hasher of the `fnv` crate, as a type that the maps and sets are
/// parameterized by.
#[verifier::external_type_specification]
#[verifier::external_body]
pub struct ExFnvHasher(fnv::FnvHasher);

impl<K: Key> HasherBv<u64, K> for fnv::FnvHasher {
    open spec fn hash_of(value: K) -> u64 {
        fnv1a(value.key_bytes())
    }

    fn hash(value: &K) -> (r: u64) {
        let bytes = value.hash_bytes();
        fnv_hash(bytes.as_slice())
    }
}

impl Key for u8 {
    open spec fn key_bytes(self) -> Seq<u8> {
        le_bytes(self as u64, 1)
    }

    fn key_eq(&self, other: &Self) -> (r: bool) {
        *self == *other
    }

    fn key_clone(&self) -> (r: Self) {
        *self
    }

    fn hash_bytes(&self) -> (r: Vec<u8>) {
        le_bytes_of(*self as u64, 1)
    }
}

impl Key for u16 {
    open spec fn key_bytes(self) -> Seq<u8> {
        le_bytes(self as u64, 2)
    }

    fn key_eq(&self, other: &Self) -> (r: bool) {
        *self == *other
    }

    fn key_clone(&self) -> (r: Self) {
        *self
    }

    fn hash_bytes(&self) -> (r: Vec<u8>) {
        le_bytes_of(*self as u64, 2)
    }
}

impl Key for u32 {
    open spec fn key_bytes(self) -> Seq<u8> {
        le_bytes(self as u64, 4)
    }

    fn key_eq(&self, other: &Self) -> (r: bool) {
        *self == *other
    }

    fn key_clone(&self) -> (r: Self) {
        *self
    }

    fn hash_bytes(&self) -> (r: Vec<u8>) {
        le_bytes_of(*self as u64, 4)
    }
}

impl Key for u64 {
    open spec fn key_bytes(self) -> Seq<u8> {
        le_bytes(self, 8)
    }

    fn key_eq(&self, other: &Self) -> (r: bool) {
        *self == *other
    }

    fn key_clone(&self) -> (r: Self) {
        *self
    }

    fn hash_bytes(&self) -> (r: Vec<u8>) {
        le_bytes_of(*self, 8)
    }
}

impl Key for usize {
    open spec fn key_bytes(self) -> Seq<u8> {
        le_bytes(self as u64, (usize::BITS / 8) as nat)
    }

    fn key_eq(&self, other: &Self) -> (r: bool) {
        *self == *other
    }

    fn key_clone(&self) -> (r: Self) {
        *self
    }

    fn hash_bytes(&self) -> (r: Vec<u8>) {
        le_bytes_of(*self as u64, (usize::BITS / 8) as usize)
    }
}

impl Key for i8 {
    open spec fn key_bytes(self) -> Seq<u8> {
        le_bytes(self as u8 as u64, 1)
    }

    fn key_eq(&self, other: &Self) -> (r: bool) {
        *self == *other
    }

    fn key_clone(&self) -> (r: Self) {
        *self
    }

    fn hash_bytes(&self) -> (r: Vec<u8>) {
        le_bytes_of(*self as u8 as u64, 1)
    }
}

impl Key for i16 {
    open spec fn key_bytes(self) -> Seq<u8> {
        le_bytes(self as u16 as u64, 2)
    }

    fn key_eq(&self, other: &Self) -> (r: bool) {
        *self == *other
    }

    fn key_clone(&self) -> (r: Self) {
        *self
    }

    fn hash_bytes(&self) -> (r: Vec<u8>) {
        le_bytes_of(*self as u16 as u64, 2)
    }
}

impl Key for i32 {
    open spec fn key_bytes(self) -> Seq<u8> {
        le_bytes(self as u32 as u64, 4)
    }

    fn key_eq(&self, other: &Self) -> (r: bool) {
        *self == *other
    }

    fn key_clone(&self) -> (r: Self) {
        *self
    }

    fn hash_bytes(&self) -> (r: Vec<u8>) {
        le_bytes_of(*self as u32 as u64, 4)
    }
}

impl Key for i64 {
    open spec fn key_bytes(self) -> Seq<u8> {
        le_bytes(self as u64, 8)
    }

    fn key_eq(&self, other: &Self) -> (r: bool) {
        *self == *other
    }

    fn key_clone(&self) -> (r: Self) {
        *self
    }

    fn hash_bytes(&self) -> (r: Vec<u8>) {
        le_bytes_of(*self as u64, 8)
    }
}

} // verus!
