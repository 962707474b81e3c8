//! The hashing capability that table keys supply, and its two stock
//! implementations.

use vstd::prelude::*;
use vstd::arithmetic::div_mod::{lemma_add_mod_noop, lemma_mod_bound, lemma_small_mod};
use vstd::laws_eq::obeys_concrete_eq;
use vstd::utf8::encode_utf8;

verus! {

/// A digest of which nothing is stated but that it depends on the key alone.
pub closed spec fn unspecified_digest<K: ?Sized>(key: &K) -> usize {
    let digest_of: spec_fn(&K) -> usize = arbitrary();
    digest_of(key)
}

/// A key that can be reduced to a non-negative digest.
///
/// The digest is a function of the key alone: `hash` returns `spec_hash`,
/// so two calls on the same key always agree.
pub trait Hashable {
    /// The digest of this key. An implementation states it; one that does
    /// not leaves the digest unspecified, though still fixed for each key.
    open spec fn spec_hash(&self) -> usize {
        unspecified_digest(self)
    }

    fn hash(&self) -> (digest: usize)
        ensures
            digest == self.spec_hash(),
    ;
}

/// The number of values an index-width word can take.
pub open spec fn word_range() -> int {
    usize::MAX + 1
}

/// The seed of the byte-string digest.
pub const DJB2_SEED: usize = 5381;

/// The multiplier of the byte-string digest.
pub const DJB2_FACTOR: usize = 33;

/// The digest of a byte string: starting from the seed, each byte in turn
/// replaces the digest `h` by `h * 33 + byte`, reduced to index width.
pub open spec fn djb2(bytes: Seq<u8>) -> usize
    decreases bytes.len(),
{
    if bytes.len() == 0 {
        DJB2_SEED
    } else {
        ((djb2(bytes.drop_last()) * DJB2_FACTOR + bytes.last()) % word_range()) as usize
    }
}

/// One step of the byte-string digest, computed with wrapping arithmetic.
fn djb2_step(digest: usize, byte: u8) -> (next: usize)
    ensures
        next == (digest * DJB2_FACTOR + byte) % word_range(),
{
    let scaled = digest.wrapping_mul(DJB2_FACTOR);
    let next = scaled.wrapping_add(byte as usize);
    proof {
        let range = word_range();
        let product = digest * DJB2_FACTOR;
        assert(scaled == product % range);
        lemma_mod_bound(product, range);
        assert(next == (scaled + byte) % range) by {
            if scaled + byte > usize::MAX {
                lemma_small_mod((scaled + byte - range) as nat, range as nat);
                vstd::arithmetic::div_mod::lemma_mod_sub_multiples_vanish(scaled + byte, range);
            } else {
                lemma_small_mod((scaled + byte) as nat, range as nat);
            }
        }
        lemma_add_mod_noop(product, byte as int, range);
        lemma_small_mod(byte as nat, range as nat);
    }
    next
}

impl Hashable for String {
    /// The djb2 digest of the string's UTF-8 bytes.
    open spec fn spec_hash(&self) -> usize {
        djb2(encode_utf8(self@))
    }

    fn hash(&self) -> (digest: usize) {
        let bytes = self.as_str().as_bytes();
        let mut result: usize = DJB2_SEED;
        let mut position: usize = 0;
        while position < bytes.len()
            invariant
                position <= bytes@.len(),
                result == djb2(bytes@.take(position as int)),
            decreases bytes@.len() - position,
        {
            proof {
                let prefix = bytes@.take(position + 1);
                assert(prefix.drop_last() == bytes@.take(position as int));
                assert(prefix.last() == bytes@[position as int]);
            }
            result = djb2_step(result, bytes[position]);
            position += 1;
        }
        proof {
            assert(bytes@.take(position as int) == bytes@);
        }
        result
    }
}

/// The two's-complement reading of a signed integer at index width:
/// a non-negative value is kept, a negative one is raised by the word range.
pub open spec fn reinterpret(value: i32) -> usize {
    if value >= 0 {
        value as usize
    } else {
        (value + word_range()) as usize
    }
}

impl Hashable for i32 {
    /// The integer's own bit pattern, read as an unsigned word.
    open spec fn spec_hash(&self) -> usize {
        reinterpret(*self)
    }

    fn hash(&self) -> (digest: usize) {
        let value: i32 = *self;
        #[verifier::truncate]
        let digest = value as usize;
        proof {
            if value < 0 {
                if usize::BITS == 64 {
                    assert(digest as int == value + 0x1_0000_0000_0000_0000) by (bit_vector)
                        requires
                            value < 0,
                            digest == value as usize,
                            usize::BITS == 64,
                    ;
                } else {
                    assert(digest as int == value + 0x1_0000_0000) by (bit_vector)
                        requires
                            value < 0,
                            digest == value as usize,
                            usize::BITS == 32,
                    ;
                }
            }
        }
        digest
    }
}

/// Integers are the same exactly when `==` says so, which is what a table
/// asks of its keys.
pub proof fn lemma_integer_keys()
    ensures
        obeys_concrete_eq::<i32>(),
{
    reveal(obeys_concrete_eq);
}

/// Distinct integers have distinct digests.
pub proof fn lemma_integer_digests_differ(first: i32, second: i32)
    requires
        first != second,
    ensures
        first.spec_hash() != second.spec_hash(),
{
}

} // verus!
