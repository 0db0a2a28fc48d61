//! Keys that the table can hold: a hash that depends only on the key's
//! identity, and an equality that compares identities.
use core::hash::Hasher;
use vstd::prelude::*;

verus! {

/// What `FxHasher` yields after one `write_u64` of `x` on a fresh hasher.
pub uninterp spec fn fx_word(x: u64) -> u64;

/// What `FxHasher` yields after hashing the text `s` as a `str` on a fresh hasher.
pub uninterp spec fn fx_text(s: Seq<char>) -> u64;

/// Relies on `rustc_hash::FxHasher` (`default`, `write_u64`, `finish`): the
/// hasher keeps no state but the running word, so the result depends on `x` alone.
#[verifier::external_body]
fn fx_hash_word(x: u64) -> (r: u64)
    ensures
        r == fx_word(x),
{
    let mut hasher = rustc_hash::FxHasher::default();
    hasher.write_u64(x);
    hasher.finish()
}

/// Relies on `rustc_hash::FxHasher` fed through `str`'s `Hash` impl (its
/// bytes, then a terminator): the result depends on the characters alone.
#[verifier::external_body]
fn fx_hash_text(s: &str) -> (r: u64)
    ensures
        r == fx_text(s@),
{
    let mut hasher = rustc_hash::FxHasher::default();
    core::hash::Hash::hash(s, &mut hasher);
    hasher.finish()
}

/// Relies on `str`'s `PartialEq`: two strings are equal exactly when they
/// hold the same characters.
#[verifier::external_body]
fn text_eq(a: &str, b: &str) -> (r: bool)
    ensures
        r == (a@ == b@),
{
    a == b
}

/// A key of a `HashMap`.
///
/// Each key has an identity; keys with the same identity name the same entry
/// and must hash the same, which the contract of `hash_key` makes a matter of
/// the identity alone.
pub trait HashKey: Sized {
    /// The value that tells keys apart.
    type Identity;

    /// The identity of this key.
    spec fn identity(&self) -> Self::Identity;

    /// The hash of every key with identity `id`.
    spec fn hash_of(id: Self::Identity) -> u32;

    /// Hashes the key.
    fn hash_key(&self) -> (r: u32)
        ensures
            r == Self::hash_of(self.identity()),
    ;

    /// Whether two keys have the same identity.
    fn key_eq(&self, other: &Self) -> (r: bool)
        ensures
            r == (self.identity() == other.identity()),
    ;
}

impl HashKey for u32 {
    type Identity = u32;

    open spec fn identity(&self) -> u32 {
        *self
    }

    open spec fn hash_of(id: u32) -> u32 {
        fx_word(id as u64) as u32
    }

    fn hash_key(&self) -> (r: u32) {
        fx_hash_word(*self as u64) as u32
    }

    fn key_eq(&self, other: &Self) -> (r: bool) {
        *self == *other
    }
}

impl HashKey for i32 {
    type Identity = i32;

    open spec fn identity(&self) -> i32 {
        *self
    }

    open spec fn hash_of(id: i32) -> u32 {
        fx_word(id as u64) as u32
    }

    fn hash_key(&self) -> (r: u32) {
        fx_hash_word(*self as u64) as u32
    }

    fn key_eq(&self, other: &Self) -> (r: bool) {
        *self == *other
    }
}

impl HashKey for u8 {
    type Identity = u8;

    open spec fn identity(&self) -> u8 {
        *self
    }

    open spec fn hash_of(id: u8) -> u32 {
        fx_word(id as u64) as u32
    }

    fn hash_key(&self) -> (r: u32) {
        fx_hash_word(*self as u64) as u32
    }

    fn key_eq(&self, other: &Self) -> (r: bool) {
        *self == *other
    }
}

impl HashKey for u16 {
    type Identity = u16;

    open spec fn identity(&self) -> u16 {
        *self
    }

    open spec fn hash_of(id: u16) -> u32 {
        fx_word(id as u64) as u32
    }

    fn hash_key(&self) -> (r: u32) {
        fx_hash_word(*self as u64) as u32
    }

    fn key_eq(&self, other: &Self) -> (r: bool) {
        *self == *other
    }
}

impl HashKey for u64 {
    type Identity = u64;

    open spec fn identity(&self) -> u64 {
        *self
    }

    open spec fn hash_of(id: u64) -> u32 {
        fx_word(id as u64) as u32
    }

    fn hash_key(&self) -> (r: u32) {
        fx_hash_word(*self as u64) as u32
    }

    fn key_eq(&self, other: &Self) -> (r: bool) {
        *self == *other
    }
}

impl HashKey for usize {
    type Identity = usize;

    open spec fn identity(&self) -> usize {
        *self
    }

    open spec fn hash_of(id: usize) -> u32 {
        fx_word(id as u64) as u32
    }

    fn hash_key(&self) -> (r: u32) {
        fx_hash_word(*self as u64) as u32
    }

    fn key_eq(&self, other: &Self) -> (r: bool) {
        *self == *other
    }
}

impl HashKey for i8 {
    type Identity = i8;

    open spec fn identity(&self) -> i8 {
        *self
    }

    open spec fn hash_of(id: i8) -> u32 {
        fx_word(id as u64) as u32
    }

    fn hash_key(&self) -> (r: u32) {
        fx_hash_word(*self as u64) as u32
    }

    fn key_eq(&self, other: &Self) -> (r: bool) {
        *self == *other
    }
}

impl HashKey for i16 {
    type Identity = i16;

    open spec fn identity(&self) -> i16 {
        *self
    }

    open spec fn hash_of(id: i16) -> u32 {
        fx_word(id as u64) as u32
    }

    fn hash_key(&self) -> (r: u32) {
        fx_hash_word(*self as u64) as u32
    }

    fn key_eq(&self, other: &Self) -> (r: bool) {
        *self == *other
    }
}

impl HashKey for i64 {
    type Identity = i64;

    open spec fn identity(&self) -> i64 {
        *self
    }

    open spec fn hash_of(id: i64) -> u32 {
        fx_word(id as u64) as u32
    }

    fn hash_key(&self) -> (r: u32) {
        fx_hash_word(*self as u64) as u32
    }

    fn key_eq(&self, other: &Self) -> (r: bool) {
        *self == *other
    }
}

impl HashKey for isize {
    type Identity = isize;

    open spec fn identity(&self) -> isize {
        *self
    }

    open spec fn hash_of(id: isize) -> u32 {
        fx_word(id as u64) as u32
    }

    fn hash_key(&self) -> (r: u32) {
        fx_hash_word(*self as u64) as u32
    }

    fn key_eq(&self, other: &Self) -> (r: bool) {
        *self == *other
    }
}

impl<'a> HashKey for &'a str {
    type Identity = Seq<char>;

    open spec fn identity(&self) -> Seq<char> {
        (*self)@
    }

    open spec fn hash_of(id: Seq<char>) -> u32 {
        fx_text(id) as u32
    }

    fn hash_key(&self) -> (r: u32) {
        fx_hash_text(*self) as u32
    }

    fn key_eq(&self, other: &Self) -> (r: bool) {
        text_eq(*self, *other)
    }
}

impl HashKey for String {
    type Identity = Seq<char>;

    open spec fn identity(&self) -> Seq<char> {
        self@
    }

    open spec fn hash_of(id: Seq<char>) -> u32 {
        fx_text(id) as u32
    }

    fn hash_key(&self) -> (r: u32) {
        fx_hash_text(self.as_str()) as u32
    }

    fn key_eq(&self, other: &Self) -> (r: bool) {
        *self == *other
    }
}

} // verus!
