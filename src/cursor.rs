use vstd::prelude::*;
use vstd::bytes::{spec_u32_from_le_bytes, spec_u32_to_le_bytes, spec_u64_from_le_bytes, spec_u64_to_le_bytes};
use crate::error::Error;

verus! {

/// The little-endian `u32` stored at `i` in `s`.
pub open spec fn u32_at(s: Seq<u8>, i: int) -> u32 {
    spec_u32_from_le_bytes(s.subrange(i, i + 4))
}

/// The little-endian `u64` stored at `i` in `s`.
pub open spec fn u64_at(s: Seq<u8>, i: int) -> u64 {
    spec_u64_from_le_bytes(s.subrange(i, i + 8))
}

/// The four little-endian bytes of `v`.
pub open spec fn le32(v: u32) -> Seq<u8> {
    spec_u32_to_le_bytes(v)
}

/// The eight little-endian bytes of `v`.
pub open spec fn le64(v: u64) -> Seq<u8> {
    spec_u64_to_le_bytes(v)
}

/// Reads the byte at `pos`.
pub fn read_u8(data: &[u8], pos: usize) -> (r: Result<u8, Error>)
    ensures
        pos < data@.len() ==> r == Ok::<u8, Error>(data@[pos as int]),
        pos >= data@.len() ==> r == Err::<u8, Error>(Error::MalformedArchive(pos as u64)),
{
    if pos < data.len() {
        Ok(data[pos])
    } else {
        Err(Error::MalformedArchive(pos as u64))
    }
}

/// Reads a little-endian `u32` at `pos`.
pub fn read_u32_le(data: &[u8], pos: usize) -> (r: Result<u32, Error>)
    ensures
        pos + 4 <= data@.len() ==> r == Ok::<u32, Error>(u32_at(data@, pos as int)),
        pos + 4 > data@.len() ==> r == Err::<u32, Error>(Error::MalformedArchive(pos as u64)),
{
    if pos <= data.len() && data.len() - pos >= 4 {
        let s = vstd::slice::slice_subrange(data, pos, pos + 4);
        Ok(vstd::bytes::u32_from_le_bytes(s))
    } else {
        Err(Error::MalformedArchive(pos as u64))
    }
}

/// Reads a little-endian `u64` at `pos`.
pub fn read_u64_le(data: &[u8], pos: usize) -> (r: Result<u64, Error>)
    ensures
        pos + 8 <= data@.len() ==> r == Ok::<u64, Error>(u64_at(data@, pos as int)),
        pos + 8 > data@.len() ==> r == Err::<u64, Error>(Error::MalformedArchive(pos as u64)),
{
    if pos <= data.len() && data.len() - pos >= 8 {
        let s = vstd::slice::slice_subrange(data, pos, pos + 8);
        Ok(vstd::bytes::u64_from_le_bytes(s))
    } else {
        Err(Error::MalformedArchive(pos as u64))
    }
}

/// Copies the `n` bytes that start at `pos`.
pub fn read_bytes(data: &[u8], pos: usize, n: usize) -> (r: Result<Vec<u8>, Error>)
    ensures
        pos + n <= data@.len() ==> r is Ok && r->Ok_0@ == data@.subrange(pos as int, pos + n),
        pos + n > data@.len() ==> r == Err::<Vec<u8>, Error>(Error::MalformedArchive(pos as u64)),
{
    if pos <= data.len() && data.len() - pos >= n {
        let s = vstd::slice::slice_subrange(data, pos, pos + n);
        Ok(vstd::slice::slice_to_vec(s))
    } else {
        Err(Error::MalformedArchive(pos as u64))
    }
}

/// Appends the bytes of `src` to `out`.
pub fn append_bytes(out: &mut Vec<u8>, src: &[u8])
    ensures
        final(out)@ == old(out)@ + src@,
{
    let mut i: usize = 0;
    while i < src.len()
        invariant
            i <= src@.len(),
            out@ == old(out)@ + src@.subrange(0, i as int),
        decreases src@.len() - i,
    {
        out.push(src[i]);
        i = i + 1;
        assert(src@.subrange(0, i as int) == src@.subrange(0, i - 1).push(src@[i - 1]));
    }
    assert(src@.subrange(0, i as int) == src@);
}

/// Appends the little-endian bytes of `v` to `out`.
pub fn write_u32_le(out: &mut Vec<u8>, v: u32)
    ensures
        final(out)@ == old(out)@ + le32(v),
{
    let b = vstd::bytes::u32_to_le_bytes(v);
    append_bytes(out, b.as_slice());
}

/// Appends the little-endian bytes of `v` to `out`.
pub fn write_u64_le(out: &mut Vec<u8>, v: u64)
    ensures
        final(out)@ == old(out)@ + le64(v),
{
    let b = vstd::bytes::u64_to_le_bytes(v);
    append_bytes(out, b.as_slice());
}

/// Whether two byte strings are equal.
pub fn bytes_eq(a: &[u8], b: &[u8]) -> (r: bool)
    ensures
        r == (a@ == b@),
{
    if a.len() != b.len() {
        return false;
    }
    let mut i: usize = 0;
    while i < a.len()
        invariant
            a@.len() == b@.len(),
            i <= a@.len(),
            forall|j: int| 0 <= j < i ==> a@[j] == b@[j],
        decreases a@.len() - i,
    {
        if a[i] != b[i] {
            return false;
        }
        i = i + 1;
    }
    assert(a@ =~= b@);
    true
}

} // verus!
