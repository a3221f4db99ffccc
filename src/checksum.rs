use vstd::prelude::*;
use crate::cursor::bytes_eq;

verus! {

/// The SHA-256 digest of `b`.
pub uninterp spec fn sha256_of(b: Seq<u8>) -> Seq<u8>;

/// Relies on sha2's `Sha256::digest`: the 32-byte SHA-256 digest of the
/// input.
#[verifier::external_body]
fn sha256_digest(data: &[u8]) -> (r: Vec<u8>)
    ensures
        r@ == sha256_of(data@),
        r@.len() == 32,
{
    <sha2::Sha256 as sha2::Digest>::digest(data).to_vec()
}

/// The lower-case hex digit of `v` (below 16).
pub open spec fn hex_digit(v: u8) -> u8 {
    if v < 10 {
        (0x30 + v) as u8
    } else {
        (0x61 + v - 10) as u8
    }
}

/// `b` in lower-case hex, two digits per byte, high nibble first.
pub open spec fn lower_hex(b: Seq<u8>) -> Seq<u8>
    decreases b.len(),
{
    if b.len() == 0 {
        seq![]
    } else {
        lower_hex(b.drop_last()) + seq![hex_digit(b.last() >> 4), hex_digit(b.last() & 0x0f)]
    }
}

fn hex_digit_exec(v: u8) -> (r: u8)
    requires
        v < 16,
    ensures
        r == hex_digit(v),
{
    if v < 10 {
        0x30 + v
    } else {
        0x61 + v - 10
    }
}

/// `b` in lower-case hex.
pub fn to_lower_hex(b: &[u8]) -> (r: Vec<u8>)
    ensures
        r@ == lower_hex(b@),
{
    let mut r: Vec<u8> = Vec::new();
    let mut i: usize = 0;
    while i < b.len()
        invariant
            i <= b@.len(),
            r@ == lower_hex(b@.subrange(0, i as int)),
        decreases b@.len() - i,
    {
        let c = b[i];
        assert((c >> 4) < 16 && (c & 0x0f) < 16) by (bit_vector);
        r.push(hex_digit_exec(c >> 4));
        r.push(hex_digit_exec(c & 0x0f));
        proof {
            let s = b@.subrange(0, i + 1);
            assert(s.drop_last() =~= b@.subrange(0, i as int));
            assert(s.last() == c);
        }
        i = i + 1;
        assert(r@ =~= lower_hex(b@.subrange(0, i as int)));
    }
    assert(b@.subrange(0, i as int) =~= b@);
    r
}

/// Whether `digest`, written in lower-case hex, is exactly `expected`.
pub fn checksum_matches(digest: &[u8], expected: &[u8]) -> (r: bool)
    ensures
        r == (lower_hex(digest@) == expected@),
{
    let hex = to_lower_hex(digest);
    bytes_eq(hex.as_slice(), expected)
}

/// Whether downloaded bytes match the hex SHA-256 given for them in the
/// patch list; always true when checking is turned off.
pub fn verify_checksum(data: &[u8], expected: &[u8], enabled: bool) -> (r: bool)
    ensures
        r == (!enabled || lower_hex(sha256_of(data@)) == expected@),
{
    if !enabled {
        return true;
    }
    let digest = sha256_digest(data);
    checksum_matches(digest.as_slice(), expected)
}

} // verus!
