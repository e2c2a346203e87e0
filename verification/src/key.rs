//! The lookup key under which the sets file a value.

use vstd::prelude::*;

verus! {

/// A value that the sets can file under a 64-bit lookup key.
///
/// The key is the element's identity: two values with the same key are the
/// same element to a set, whatever else they carry. Inserting the second
/// replaces what the first stored and keeps its place.
pub trait LookupKey {
    /// The key that `self` is filed under.
    spec fn lookup_key(&self) -> u64;

    /// Computes the key that `self` is filed under.
    fn key(&self) -> (k: u64)
        ensures
            k == self.lookup_key(),
    ;
}

impl LookupKey for u8 {
    open spec fn lookup_key(&self) -> u64 {
        *self as u64
    }

    fn key(&self) -> (k: u64) {
        *self as u64
    }
}

impl LookupKey for u16 {
    open spec fn lookup_key(&self) -> u64 {
        *self as u64
    }

    fn key(&self) -> (k: u64) {
        *self as u64
    }
}

impl LookupKey for u32 {
    open spec fn lookup_key(&self) -> u64 {
        *self as u64
    }

    fn key(&self) -> (k: u64) {
        *self as u64
    }
}

impl LookupKey for u64 {
    open spec fn lookup_key(&self) -> u64 {
        *self
    }

    fn key(&self) -> (k: u64) {
        *self
    }
}

impl LookupKey for usize {
    open spec fn lookup_key(&self) -> u64 {
        *self as u64
    }

    fn key(&self) -> (k: u64) {
        *self as u64
    }
}

/// The amount added to a signed value to bring its whole range into `u64`.
pub const SIGNED_BIAS: i128 = 0x8000_0000_0000_0000;

impl LookupKey for i8 {
    open spec fn lookup_key(&self) -> u64 {
        (*self + SIGNED_BIAS) as u64
    }

    fn key(&self) -> (k: u64) {
        (*self as i128 + SIGNED_BIAS) as u64
    }
}

impl LookupKey for i16 {
    open spec fn lookup_key(&self) -> u64 {
        (*self + SIGNED_BIAS) as u64
    }

    fn key(&self) -> (k: u64) {
        (*self as i128 + SIGNED_BIAS) as u64
    }
}

impl LookupKey for i32 {
    open spec fn lookup_key(&self) -> u64 {
        (*self + SIGNED_BIAS) as u64
    }

    fn key(&self) -> (k: u64) {
        (*self as i128 + SIGNED_BIAS) as u64
    }
}

impl LookupKey for i64 {
    open spec fn lookup_key(&self) -> u64 {
        (*self + SIGNED_BIAS) as u64
    }

    fn key(&self) -> (k: u64) {
        (*self as i128 + SIGNED_BIAS) as u64
    }
}

impl LookupKey for isize {
    open spec fn lookup_key(&self) -> u64 {
        (*self + SIGNED_BIAS) as u64
    }

    fn key(&self) -> (k: u64) {
        (*self as i128 + SIGNED_BIAS) as u64
    }
}

/// Whether the lookup key tells every two values of `T` apart, so that a set
/// of `T` never takes two distinct values for one element.
pub open spec fn keys_tell_apart<T: LookupKey>() -> bool {
    forall|a: T, b: T| #[trigger] a.lookup_key() == #[trigger] b.lookup_key() ==> a == b
}

/// The lookup keys of the integers tell every two values apart.
pub proof fn lemma_integer_keys()
    ensures
        keys_tell_apart::<u8>(),
        keys_tell_apart::<u16>(),
        keys_tell_apart::<u32>(),
        keys_tell_apart::<u64>(),
        keys_tell_apart::<usize>(),
        keys_tell_apart::<i8>(),
        keys_tell_apart::<i16>(),
        keys_tell_apart::<i32>(),
        keys_tell_apart::<i64>(),
        keys_tell_apart::<isize>(),
{
}

} // verus!
