//! Hashing abstraction of the table.
//!
//! Keys are hashed through a pluggable, deterministic hash-builder
//! capability.  The contracts of the table engine are stated over the *view*
//! of a key, so a builder's specification function takes the key's view: two
//! keys with equal views always hash alike, which the lookup proofs rely on.

use vstd::prelude::*;

verus! {

use vstd::string::StrSliceExecFns;
use vstd::wrapping::u64_specs;

/// A key usable with the default hasher builder: it can decide equality of
/// views, and it offers one default hash, again a function of the view.
pub trait IndexKey: View + Sized {
    /// The default hash of a key with this view.
    spec fn key_hash_spec(v: <Self as View>::V) -> u64;

    /// Executable form of `key_hash_spec`.
    fn key_hash(&self) -> (h: u64)
        ensures
            h == Self::key_hash_spec(self@),
    ;

    /// Equality of views, decided at runtime.
    fn key_eq(&self, other: &Self) -> (b: bool)
        ensures
            b == (self@ == other@),
    ;
}

/// A hash-builder capability: hashes any key of type `K`, deterministically,
/// as a function of the key's view.
pub trait BuildIndexHasher<K: View>: Sized {
    /// The hash assigned to a key with the given view.
    spec fn hash_spec(&self, key: <K as View>::V) -> u64;

    /// Executable form of `hash_spec`.
    fn hash(&self, key: &K) -> (h: u64)
        ensures
            h == self.hash_spec(key@),
    ;
}

/// Hashes `key` under `builder`.
pub fn make_hash<K: View, S: BuildIndexHasher<K>>(builder: &S, key: &K) -> (h: u64)
    ensures
        h == builder.hash_spec(key@),
{
    builder.hash(key)
}

/// The default hash-builder: delegates to the key's own default hash.
#[derive(Clone, Copy)]
pub struct IndexHasherBuilder;

impl<K: IndexKey> BuildIndexHasher<K> for IndexHasherBuilder {
    open spec fn hash_spec(&self, key: <K as View>::V) -> u64 {
        K::key_hash_spec(key)
    }

    fn hash(&self, key: &K) -> (h: u64) {
        key.key_hash()
    }
}

/// A 64-bit bit-mixing finisher, the default hash of the integer key types.
pub open spec fn mix64(x: u64) -> u64 {
    let a = u64_specs::wrapping_mul(x ^ (x >> 30u64), 0xbf58476d1ce4e5b9u64);
    let b = u64_specs::wrapping_mul(a ^ (a >> 27u64), 0x94d049bb133111ebu64);
    b ^ (b >> 31u64)
}

/// Executable form of `mix64`.
pub fn mix64_exec(x: u64) -> (h: u64)
    ensures
        h == mix64(x),
{
    let a = (x ^ (x >> 30u64)).wrapping_mul(0xbf58476d1ce4e5b9u64);
    let b = (a ^ (a >> 27u64)).wrapping_mul(0x94d049bb133111ebu64);
    b ^ (b >> 31u64)
}

/// The FNV-1a offset basis.
pub open spec fn fnv_offset() -> u64 {
    0xcbf29ce484222325u64
}

/// The FNV-1a prime.
pub open spec fn fnv_prime() -> u64 {
    0x100000001b3u64
}

/// FNV-1a over a sequence of characters, the default hash of string keys.
pub open spec fn fnv1a_chars(s: Seq<char>) -> u64
    decreases s.len(),
{
    if s.len() == 0 {
        fnv_offset()
    } else {
        u64_specs::wrapping_mul(fnv1a_chars(s.drop_last()) ^ (s.last() as u64), fnv_prime())
    }
}

impl IndexKey for u64 {
    open spec fn key_hash_spec(v: u64) -> u64 {
        mix64(v)
    }

    fn key_hash(&self) -> (h: u64) {
        mix64_exec(*self)
    }

    fn key_eq(&self, other: &Self) -> (b: bool) {
        *self == *other
    }
}

impl IndexKey for u32 {
    open spec fn key_hash_spec(v: u32) -> u64 {
        mix64(v as u64)
    }

    fn key_hash(&self) -> (h: u64) {
        mix64_exec(*self as u64)
    }

    fn key_eq(&self, other: &Self) -> (b: bool) {
        *self == *other
    }
}

impl IndexKey for usize {
    open spec fn key_hash_spec(v: usize) -> u64 {
        mix64(v as u64)
    }

    fn key_hash(&self) -> (h: u64) {
        mix64_exec(*self as u64)
    }

    fn key_eq(&self, other: &Self) -> (b: bool) {
        *self == *other
    }
}

impl IndexKey for i64 {
    open spec fn key_hash_spec(v: i64) -> u64 {
        mix64(v as u64)
    }

    fn key_hash(&self) -> (h: u64) {
        mix64_exec(*self as u64)
    }

    fn key_eq(&self, other: &Self) -> (b: bool) {
        *self == *other
    }
}

impl IndexKey for String {
    open spec fn key_hash_spec(v: Seq<char>) -> u64 {
        fnv1a_chars(v)
    }

    fn key_hash(&self) -> (h: u64) {
        let s: &str = self.as_str();
        let n: usize = s.unicode_len();
        let mut h: u64 = 0xcbf29ce484222325u64;
        let mut i: usize = 0;
        while i < n
            invariant
                i <= n,
                n == s@.len(),
                s@ == self@,
                h == fnv1a_chars(s@.subrange(0, i as int)),
            decreases n - i,
        {
            let c: char = s.get_char(i);
            h = (h ^ (c as u64)).wrapping_mul(0x100000001b3u64);
            proof {
                let pre = s@.subrange(0, (i + 1) as int);
                assert(pre.drop_last() =~= s@.subrange(0, i as int));
                assert(pre.last() == s@[i as int]);
            }
            i = i + 1;
        }
        proof {
            assert(s@.subrange(0, n as int) =~= s@);
        }
        h
    }

    fn key_eq(&self, other: &Self) -> (b: bool) {
        self.eq(other)
    }
}

} // verus!
