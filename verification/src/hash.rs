//! The hash primitive: a 32-byte digest and the two-child combine.

use vstd::prelude::*;

verus! {

/// Number of bytes in a digest.
pub const HASH_SIZE: usize = 32;

/// The digest that `blake3::hash` computes for an input, as a function of
/// the input bytes alone.
pub uninterp spec fn blake3_digest(input: Seq<u8>) -> Seq<u8>;

/// Calls `blake3::hash` and copies the 32 output bytes out of the result.
/// The contract claims only that the output is the digest of the input: the
/// same bytes always give the same 32 bytes.
#[verifier::external_body]
fn blake3_hash(input: &[u8]) -> (out: [u8; 32])
    ensures
        out@ == blake3_digest(input@),
{
    *blake3::hash(input).as_bytes()
}

/// A 32-byte digest.
#[derive(Clone, Copy, Debug)]
pub struct Hash {
    pub value: [u8; 32],
}

impl View for Hash {
    type V = Seq<u8>;

    open spec fn view(&self) -> Seq<u8> {
        self.value@
    }
}

/// Digest of the concatenation `left ∥ right`.
pub open spec fn spec_combine(left: Seq<u8>, right: Seq<u8>) -> Seq<u8> {
    blake3_digest(left + right)
}

impl Hash {
    /// Wraps 32 raw bytes as a digest.
    pub fn new(value: [u8; 32]) -> (h: Hash)
        ensures
            h.value == value,
    {
        Hash { value }
    }

    /// The digest whose bytes are the 32 bytes of `bytes` from `at` on, where
    /// `bytes` reaches that far.
    pub fn from_slice(bytes: &[u8], at: usize) -> (h: Option<Hash>)
        ensures
            match h {
                Some(h) => at + 32 <= bytes@.len() && h@ == bytes@.subrange(at as int, at + 32),
                None => at + 32 > bytes@.len(),
            },
    {
        if bytes.len() < 32 || at > bytes.len() - 32 {
            return None;
        }
        let total = bytes.len();
        let mut value = [0u8; 32];
        let mut k: usize = 0;
        while k < 32
            invariant
                k <= 32,
                at + 32 <= total == bytes@.len(),
                value@.len() == 32,
                forall|x: int| 0 <= x < k ==> value@[x] == bytes@[at + x],
            decreases 32 - k,
        {
            value[k] = bytes[at + k];
            k += 1;
        }
        assert(value@ =~= bytes@.subrange(at as int, at + 32));
        Some(Hash { value })
    }

    /// Appends the 32 bytes of the digest to `out`.
    pub fn put(&self, out: &mut Vec<u8>)
        ensures
            final(out)@ == old(out)@ + self@,
            self@.len() == 32,
    {
        let mut k: usize = 0;
        while k < 32
            invariant
                k <= 32,
                self@.len() == 32,
                out@ == old(out)@ + self@.subrange(0, k as int),
            decreases 32 - k,
        {
            out.push(self.value[k]);
            assert(self@.subrange(0, k + 1) =~= self@.subrange(0, k as int).push(self@[k as int]));
            k += 1;
        }
        assert(self@.subrange(0, 32) =~= self@);
    }

    /// Hashes `data`.
    pub fn from_bytes(data: &[u8]) -> (h: Hash)
        ensures
            h@ == blake3_digest(data@),
    {
        Hash { value: blake3_hash(data) }
    }

    /// The digest of a parent whose children are `self` on the left and
    /// `right` on the right.
    pub fn combine(&self, right: &Hash) -> (h: Hash)
        ensures
            h@ == spec_combine(self@, right@),
    {
        let mut buffer: Vec<u8> = Vec::with_capacity(64);
        let mut k: usize = 0;
        while k < 32
            invariant
                k <= 32,
                buffer@ == self@.subrange(0, k as int),
            decreases 32 - k,
        {
            buffer.push(self.value[k]);
            k += 1;
        }
        k = 0;
        while k < 32
            invariant
                k <= 32,
                buffer@ == self@ + right@.subrange(0, k as int),
            decreases 32 - k,
        {
            buffer.push(right.value[k]);
            k += 1;
        }
        assert(right@.subrange(0, 32) == right@);
        Hash { value: blake3_hash(buffer.as_slice()) }
    }

    /// Whether two digests hold the same bytes.
    pub fn same(&self, other: &Hash) -> (r: bool)
        ensures
            r == (self@ == other@),
    {
        let mut k: usize = 0;
        while k < 32
            invariant
                k <= 32,
                self@.subrange(0, k as int) == other@.subrange(0, k as int),
            decreases 32 - k,
        {
            if self.value[k] != other.value[k] {
                return false;
            }
            assert(self@.subrange(0, k + 1) == self@.subrange(0, k as int).push(self@[k as int]));
            assert(other@.subrange(0, k + 1) == other@.subrange(0, k as int).push(other@[k as int]));
            k += 1;
        }
        assert(self@.subrange(0, 32) == self@);
        assert(other@.subrange(0, 32) == other@);
        true
    }
}

} // verus!
