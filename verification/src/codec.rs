//! Fixed-width little-endian integers and length-prefixed bytes, the only
//! encodings that stored records use.

use byteorder::ByteOrder;
use vstd::bytes::{
    lemma_auto_spec_u32_to_from_le_bytes, lemma_auto_spec_u64_to_from_le_bytes,
    spec_u32_from_le_bytes, spec_u32_to_le_bytes, spec_u64_from_le_bytes, spec_u64_to_le_bytes,
};
use vstd::prelude::*;
use vstd::slice::slice_subrange;

verus! {

/// Calls `byteorder::LittleEndian::read_u64`, which reads the first eight
/// bytes of `buf` as a little-endian integer and panics on a shorter slice.
#[verifier::external_body]
fn le_read_u64(buf: &[u8]) -> (n: u64)
    requires
        buf@.len() >= 8,
    ensures
        n == spec_u64_from_le_bytes(buf@.subrange(0, 8)),
{
    byteorder::LittleEndian::read_u64(buf)
}

/// Calls `byteorder::LittleEndian::read_u32`, which reads the first four
/// bytes of `buf` as a little-endian integer and panics on a shorter slice.
#[verifier::external_body]
fn le_read_u32(buf: &[u8]) -> (n: u32)
    requires
        buf@.len() >= 4,
    ensures
        n == spec_u32_from_le_bytes(buf@.subrange(0, 4)),
{
    byteorder::LittleEndian::read_u32(buf)
}

/// Calls `byteorder::LittleEndian::write_u64` on a fresh eight-byte buffer,
/// which it fills with the little-endian bytes of `n`.
#[verifier::external_body]
fn le_write_u64(n: u64) -> (out: Vec<u8>)
    ensures
        out@ == spec_u64_to_le_bytes(n),
{
    let mut buf = vec![0u8; 8];
    byteorder::LittleEndian::write_u64(&mut buf, n);
    buf
}

/// Calls `byteorder::LittleEndian::write_u32` on a fresh four-byte buffer,
/// which it fills with the little-endian bytes of `n`.
#[verifier::external_body]
fn le_write_u32(n: u32) -> (out: Vec<u8>)
    ensures
        out@ == spec_u32_to_le_bytes(n),
{
    let mut buf = vec![0u8; 4];
    byteorder::LittleEndian::write_u32(&mut buf, n);
    buf
}

/// Appends every byte of `bytes` to `out`.
pub fn put_bytes(out: &mut Vec<u8>, bytes: &[u8])
    ensures
        final(out)@ == old(out)@ + bytes@,
{
    let mut k: usize = 0;
    while k < bytes.len()
        invariant
            k <= bytes@.len(),
            out@ == old(out)@ + bytes@.subrange(0, k as int),
        decreases bytes@.len() - k,
    {
        out.push(bytes[k]);
        k += 1;
    }
    assert(bytes@.subrange(0, bytes@.len() as int) == bytes@);
}

/// Appends one byte.
pub fn put_u8(out: &mut Vec<u8>, n: u8)
    ensures
        final(out)@ == old(out)@.push(n),
{
    out.push(n);
}

/// Appends the four little-endian bytes of `n`.
pub fn put_u32(out: &mut Vec<u8>, n: u32)
    ensures
        final(out)@ == old(out)@ + spec_u32_to_le_bytes(n),
        final(out)@.len() == old(out)@.len() + 4,
{
    proof {
        lemma_auto_spec_u32_to_from_le_bytes();
    }
    let bytes = le_write_u32(n);
    put_bytes(out, bytes.as_slice());
}

/// Appends the eight little-endian bytes of `n`.
pub fn put_u64(out: &mut Vec<u8>, n: u64)
    ensures
        final(out)@ == old(out)@ + spec_u64_to_le_bytes(n),
        final(out)@.len() == old(out)@.len() + 8,
{
    proof {
        lemma_auto_spec_u64_to_from_le_bytes();
    }
    let bytes = le_write_u64(n);
    put_bytes(out, bytes.as_slice());
}

/// The byte at `at`, if `bytes` reaches that far.
pub fn get_u8(bytes: &[u8], at: usize) -> (r: Option<u8>)
    ensures
        r == if at < bytes@.len() {
            Some(bytes@[at as int])
        } else {
            None
        },
{
    if at < bytes.len() {
        Some(bytes[at])
    } else {
        None
    }
}

/// The little-endian integer in the four bytes from `at`, if `bytes`
/// reaches that far.
pub fn get_u32(bytes: &[u8], at: usize) -> (r: Option<u32>)
    ensures
        r == if at + 4 <= bytes@.len() {
            Some(spec_u32_from_le_bytes(bytes@.subrange(at as int, at + 4)))
        } else {
            None
        },
{
    if bytes.len() < 4 || at > bytes.len() - 4 {
        return None;
    }
    let part = slice_subrange(bytes, at, at + 4);
    assert(part@.subrange(0, 4) == part@);
    Some(le_read_u32(part))
}

/// The little-endian integer in the eight bytes from `at`, if `bytes`
/// reaches that far.
pub fn get_u64(bytes: &[u8], at: usize) -> (r: Option<u64>)
    ensures
        r == if at + 8 <= bytes@.len() {
            Some(spec_u64_from_le_bytes(bytes@.subrange(at as int, at + 8)))
        } else {
            None
        },
{
    if bytes.len() < 8 || at > bytes.len() - 8 {
        return None;
    }
    let part = slice_subrange(bytes, at, at + 8);
    assert(part@.subrange(0, 8) == part@);
    Some(le_read_u64(part))
}

/// A copy of the `len` bytes from `at`, if `bytes` reaches that far.
pub fn get_bytes(bytes: &[u8], at: usize, len: usize) -> (r: Option<Vec<u8>>)
    ensures
        at + len <= bytes@.len() ==> (r matches Some(v) && v@ == bytes@.subrange(
            at as int,
            at + len,
        )),
        at + len > bytes@.len() ==> r is None,
{
    if bytes.len() < len || at > bytes.len() - len {
        return None;
    }
    let mut out: Vec<u8> = Vec::new();
    put_bytes(&mut out, slice_subrange(bytes, at, at + len));
    assert(out@ == bytes@.subrange(at as int, at + len));
    Some(out)
}

/// A copy of a byte vector.
pub fn copy_bytes(bytes: &Vec<u8>) -> (out: Vec<u8>)
    ensures
        out@ == bytes@,
{
    let mut out: Vec<u8> = Vec::new();
    put_bytes(&mut out, bytes.as_slice());
    out
}

} // verus!
