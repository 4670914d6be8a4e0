//! The integer and text encodings of the wire format.
//!
//! Every multi-byte integer in the format is big-endian.  The byte form of a
//! value is pinned by the spec functions [`be_val`] (bytes to value) and
//! [`be_bytes`] (value to bytes); the executable conversions call into the
//! `byteorder` crate and are specified against those functions.  Key names
//! travel as UTF-8; the byte form of a name is `encode_utf8` of its
//! characters, vstd's model of Rust's own string encoding.

use vstd::prelude::*;

verus! {

/// `256^n`: one more than the largest value that `n` bytes can carry.
pub open spec fn pow256(n: nat) -> int
    decreases n,
{
    if n == 0 {
        1
    } else {
        256 * pow256((n - 1) as nat)
    }
}

/// The value of a big-endian digit string.
pub open spec fn be_val(b: Seq<u8>) -> int
    decreases b.len(),
{
    if b.len() == 0 {
        0
    } else {
        be_val(b.drop_last()) * 256 + b.last()
    }
}

/// The `n`-byte big-endian digit string of a value.
pub open spec fn be_bytes(x: int, n: nat) -> Seq<u8>
    decreases n,
{
    if n == 0 {
        Seq::empty()
    } else {
        be_bytes(x / 256, (n - 1) as nat).push((x % 256) as u8)
    }
}

pub proof fn lemma_pow256_pos(n: nat)
    ensures
        pow256(n) >= 1,
    decreases n,
{
    if n > 0 {
        lemma_pow256_pos((n - 1) as nat);
    }
}

pub proof fn lemma_be_bytes_len(x: int, n: nat)
    ensures
        be_bytes(x, n).len() == n,
    decreases n,
{
    if n > 0 {
        lemma_be_bytes_len(x / 256, (n - 1) as nat);
    }
}

/// A digit string never carries a value outside `[0, 256^len)`.
pub proof fn lemma_be_val_bound(b: Seq<u8>)
    ensures
        0 <= be_val(b) < pow256(b.len()),
    decreases b.len(),
{
    if b.len() == 0 {
    } else {
        lemma_be_val_bound(b.drop_last());
        lemma_pow256_pos((b.len() - 1) as nat);
        assert(be_val(b.drop_last()) * 256 + b.last() < pow256(b.len())) by (nonlinear_arith)
            requires
                0 <= be_val(b.drop_last()) < pow256((b.len() - 1) as nat),
                b.last() < 256,
                pow256(b.len()) == 256 * pow256((b.len() - 1) as nat),
        ;
    }
}

/// Reading back the digit string of a value yields the value: the two spec
/// functions invert each other.
pub proof fn lemma_be_val_be_bytes(x: int, n: nat)
    requires
        0 <= x < pow256(n),
    ensures
        be_val(be_bytes(x, n)) == x,
    decreases n,
{
    if n == 0 {
    } else {
        let prefix = be_bytes(x / 256, (n - 1) as nat);
        lemma_be_bytes_len(x / 256, (n - 1) as nat);
        assert(prefix.push((x % 256) as u8).drop_last() =~= prefix);
        assert(0 <= x / 256 < pow256((n - 1) as nat)) by (nonlinear_arith)
            requires
                0 <= x < pow256(n),
                pow256(n) == 256 * pow256((n - 1) as nat),
        ;
        lemma_be_val_be_bytes(x / 256, (n - 1) as nat);
    }
}

/// A digit string is the canonical one of its value: taking the bytes of the
/// value read from a string gives the string back.
pub proof fn lemma_be_bytes_be_val(b: Seq<u8>)
    ensures
        be_bytes(be_val(b), b.len()) == b,
    decreases b.len(),
{
    if b.len() == 0 {
        assert(be_bytes(be_val(b), b.len()) =~= b);
    } else {
        let v = be_val(b.drop_last());
        let l = b.last();
        let x = be_val(b);
        lemma_be_val_bound(b.drop_last());
        assert(x / 256 == v && x % 256 == l) by (nonlinear_arith)
            requires
                x == v * 256 + l,
                0 <= v,
                0 <= l < 256,
        ;
        lemma_be_bytes_be_val(b.drop_last());
        assert(be_bytes(x, b.len()) =~= b);
    }
}

/// Sixteen bytes hold exactly the range of a `u128`.
pub proof fn lemma_pow256_16()
    ensures
        pow256(2) == 0x10000,
        pow256(16) == 0x100000000000000000000000000000000,
{
    assert(pow256(0) == 0x1);
    assert(pow256(1) == 0x100);
    assert(pow256(2) == 0x10000);
    assert(pow256(3) == 0x1000000);
    assert(pow256(4) == 0x100000000);
    assert(pow256(5) == 0x10000000000);
    assert(pow256(6) == 0x1000000000000);
    assert(pow256(7) == 0x100000000000000);
    assert(pow256(8) == 0x10000000000000000);
    assert(pow256(9) == 0x1000000000000000000);
    assert(pow256(10) == 0x100000000000000000000);
    assert(pow256(11) == 0x10000000000000000000000);
    assert(pow256(12) == 0x1000000000000000000000000);
    assert(pow256(13) == 0x100000000000000000000000000);
    assert(pow256(14) == 0x10000000000000000000000000000);
    assert(pow256(15) == 0x1000000000000000000000000000000);
    assert(pow256(16) == 0x100000000000000000000000000000000);
}

/// A `u128` comes back unchanged from its sixteen-byte digit string.
pub proof fn lemma_u128_round_trip(x: u128)
    ensures
        be_val(be_bytes(x as int, 16)) == x,
        be_bytes(x as int, 16).len() == 16,
{
    lemma_pow256_16();
    lemma_be_val_be_bytes(x as int, 16);
    lemma_be_bytes_len(x as int, 16);
}

/// Relies on byteorder's `BigEndian::read_u16`: the big-endian value of the
/// first two bytes of the slice.
#[verifier::external_body]
pub(crate) fn read_u16_be(data: &[u8]) -> (r: u16)
    requires
        data@.len() >= 2,
    ensures
        r as int == be_val(data@.subrange(0, 2)),
{
    <byteorder::BigEndian as byteorder::ByteOrder>::read_u16(data)
}

/// Relies on byteorder's `BigEndian::read_u128`: the big-endian value of the
/// first sixteen bytes of the slice.
#[verifier::external_body]
pub(crate) fn read_u128_be(data: &[u8]) -> (r: u128)
    requires
        data@.len() >= 16,
    ensures
        r as int == be_val(data@.subrange(0, 16)),
{
    <byteorder::BigEndian as byteorder::ByteOrder>::read_u128(data)
}

/// Relies on byteorder's `BigEndian::write_u16`: fills the buffer with the
/// two big-endian bytes of the value.
#[verifier::external_body]
pub(crate) fn write_u16_be(x: u16) -> (r: Vec<u8>)
    ensures
        r@ == be_bytes(x as int, 2),
{
    let mut buf = vec![0u8; 2];
    <byteorder::BigEndian as byteorder::ByteOrder>::write_u16(&mut buf, x);
    buf
}

/// Relies on byteorder's `BigEndian::write_u128`: fills the buffer with the
/// sixteen big-endian bytes of the value.
#[verifier::external_body]
pub(crate) fn write_u128_be(x: u128) -> (r: Vec<u8>)
    ensures
        r@ == be_bytes(x as int, 16),
{
    let mut buf = vec![0u8; 16];
    <byteorder::BigEndian as byteorder::ByteOrder>::write_u128(&mut buf, x);
    buf
}

/// Relies on `core::str::from_utf8`: succeeds exactly on valid UTF-8, and the
/// returned text's characters encode back to the input bytes.
#[verifier::external_body]
pub(crate) fn utf8_to_string(v: &[u8]) -> (r: Option<String>)
    ensures
        match r {
            Some(s) => vstd::utf8::valid_utf8(v@) && vstd::utf8::encode_utf8(s@) == v@,
            None => !vstd::utf8::valid_utf8(v@),
        },
{
    match core::str::from_utf8(v) {
        Ok(s) => Some(s.to_string()),
        Err(_) => None,
    }
}

} // verus!
