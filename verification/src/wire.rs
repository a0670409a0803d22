//! Little-endian integers and Bitcoin's CompactSize integers, as bytes.

use vstd::prelude::*;

use byteorder::{ByteOrder, LittleEndian};

verus! {

/// The number that little-endian bytes stand for.
pub open spec fn le_value(bytes: Seq<u8>) -> nat
    decreases bytes.len(),
{
    if bytes.len() == 0 {
        0
    } else {
        bytes[0] as nat + 256 * le_value(bytes.drop_first())
    }
}

/// The `width` low bytes of `n`, least significant first.
pub open spec fn le_bytes(n: nat, width: nat) -> Seq<u8>
    decreases width,
{
    if width == 0 {
        Seq::empty()
    } else {
        seq![(n % 256) as u8] + le_bytes(n / 256, (width - 1) as nat)
    }
}

/// 256 to the power `width`: the numbers that fit in `width` bytes.
pub open spec fn byte_range(width: nat) -> nat
    decreases width,
{
    if width == 0 {
        1
    } else {
        256 * byte_range((width - 1) as nat)
    }
}

/// `le_bytes` writes `width` bytes.
pub proof fn lemma_le_bytes_len(n: nat, width: nat)
    ensures
        le_bytes(n, width).len() == width,
    decreases width,
{
    if width > 0 {
        lemma_le_bytes_len(n / 256, (width - 1) as nat);
    }
}

/// Reading back the bytes of a number that fits gives the number.
pub proof fn lemma_le_roundtrip(n: nat, width: nat)
    requires
        n < byte_range(width),
    ensures
        le_value(le_bytes(n, width)) == n,
    decreases width,
{
    if width > 0 {
        let w1 = (width - 1) as nat;
        assert(n / 256 < byte_range(w1)) by (nonlinear_arith)
            requires
                n < 256 * byte_range(w1),
        ;
        lemma_le_roundtrip(n / 256, w1);
        let bytes = le_bytes(n, width);
        assert(bytes.drop_first() =~= le_bytes(n / 256, w1));
    }
}

/// A number read from `width` bytes fits in `width` bytes.
pub proof fn lemma_le_value_bound(bytes: Seq<u8>)
    ensures
        le_value(bytes) < byte_range(bytes.len()),
    decreases bytes.len(),
{
    if bytes.len() > 0 {
        lemma_le_value_bound(bytes.drop_first());
        let rest = le_value(bytes.drop_first());
        let r = byte_range((bytes.len() - 1) as nat);
        assert(bytes[0] as nat + 256 * rest < 256 * r) by (nonlinear_arith)
            requires
                rest < r,
                bytes[0] < 256,
        ;
    }
}

/// `LittleEndian::read_u16` from `byteorder`: the number that the first two
/// bytes of `buf` stand for, least significant first. It panics on a shorter
/// `buf`, which `requires` leaves out.
#[verifier::external_body]
pub(crate) fn le_u16(buf: &[u8]) -> (n: u16)
    requires
        buf@.len() >= 2,
    ensures
        n == le_value(buf@.take(2)),
{
    LittleEndian::read_u16(buf)
}

/// `LittleEndian::read_u32` from `byteorder`: the number that the first four
/// bytes of `buf` stand for, least significant first. It panics on a shorter
/// `buf`, which `requires` leaves out.
#[verifier::external_body]
pub(crate) fn le_u32(buf: &[u8]) -> (n: u32)
    requires
        buf@.len() >= 4,
    ensures
        n == le_value(buf@.take(4)),
{
    LittleEndian::read_u32(buf)
}

/// `LittleEndian::read_u64` from `byteorder`: the number that the first eight
/// bytes of `buf` stand for, least significant first. It panics on a shorter
/// `buf`, which `requires` leaves out.
#[verifier::external_body]
pub(crate) fn le_u64(buf: &[u8]) -> (n: u64)
    requires
        buf@.len() >= 8,
    ensures
        n == le_value(buf@.take(8)),
{
    LittleEndian::read_u64(buf)
}

/// Appends the `width` low bytes of `n` to `buf`, least significant first.
pub fn push_le(buf: &mut Vec<u8>, n: u64, width: usize)
    requires
        width <= 8,
    ensures
        final(buf)@ == old(buf)@ + le_bytes(n as nat, width as nat),
{
    let mut rest = n;
    let mut i: usize = 0;
    while i < width
        invariant
            i <= width,
            old(buf)@ + le_bytes(n as nat, width as nat) == buf@ + le_bytes(
                rest as nat,
                (width - i) as nat,
            ),
        decreases width - i,
    {
        let ghost before = buf@;
        assert(le_bytes(rest as nat, (width - i) as nat) =~= seq![(rest % 256) as u8] + le_bytes(
            (rest / 256) as nat,
            (width - i - 1) as nat,
        ));
        buf.push((rest % 256) as u8);
        assert(buf@ + le_bytes((rest / 256) as nat, (width - i - 1) as nat) =~= before + le_bytes(
            rest as nat,
            (width - i) as nat,
        ));
        rest = rest / 256;
        i += 1;
    }
    assert(le_bytes(rest as nat, 0) =~= Seq::<u8>::empty());
    assert(buf@ + le_bytes(rest as nat, 0) =~= buf@);
}

/// The CompactSize encoding of `n`: one byte below `0xfd`, otherwise a
/// marker byte (`0xfd`, `0xfe`, `0xff`) and the smallest of 2, 4 or 8
/// little-endian bytes that holds it.
pub open spec fn compact_size_bytes(n: u64) -> Seq<u8> {
    if n <= 0xfc {
        seq![n as u8]
    } else if n <= 0xffff {
        seq![0xfdu8] + le_bytes(n as nat, 2)
    } else if n <= 0xffff_ffff {
        seq![0xfeu8] + le_bytes(n as nat, 4)
    } else {
        seq![0xffu8] + le_bytes(n as nat, 8)
    }
}

/// The first `width` bytes read as a little-endian number, and what follows.
pub open spec fn take_le(bytes: Seq<u8>, width: nat) -> Option<(nat, Seq<u8>)> {
    if bytes.len() >= width {
        Some((le_value(bytes.take(width as int)), bytes.skip(width as int)))
    } else {
        None
    }
}

/// Reading a CompactSize off the front of `bytes`: a byte below `0xfd` is
/// the number; `0xfd`, `0xfe` and `0xff` are followed by 2, 4 and 8
/// little-endian bytes. Longer forms than needed are accepted.
pub open spec fn compact_size_parse(bytes: Seq<u8>) -> Option<(u64, Seq<u8>)> {
    if bytes.len() == 0 {
        None
    } else {
        let prefix = bytes[0];
        let rest = bytes.drop_first();
        if prefix <= 0xfc {
            Some((prefix as u64, rest))
        } else {
            let width: nat = if prefix == 0xfd {
                2
            } else if prefix == 0xfe {
                4
            } else {
                8
            };
            match take_le(rest, width) {
                Some((n, after)) => Some((n as u64, after)),
                None => None,
            }
        }
    }
}

/// The ranges of 2, 4 and 8 bytes.
pub proof fn lemma_byte_ranges()
    ensures
        byte_range(2) == 0x1_0000,
        byte_range(4) == 0x1_0000_0000,
        byte_range(8) == 0x1_0000_0000_0000_0000,
{
    assert(byte_range(0) == 1);
    assert(byte_range(1) == 0x100);
    assert(byte_range(2) == 0x1_0000);
    assert(byte_range(3) == 0x100_0000);
    assert(byte_range(4) == 0x1_0000_0000);
    assert(byte_range(5) == 0x100_0000_0000);
    assert(byte_range(6) == 0x1_0000_0000_0000);
    assert(byte_range(7) == 0x100_0000_0000_0000);
}

pub proof fn lemma_take_le_roundtrip(n: nat, width: nat, tail: Seq<u8>)
    requires
        n < byte_range(width),
    ensures
        take_le(le_bytes(n, width) + tail, width) == Some((n, tail)),
{
    lemma_le_bytes_len(n, width);
    lemma_le_roundtrip(n, width);
    let bytes = le_bytes(n, width) + tail;
    assert(bytes.take(width as int) =~= le_bytes(n, width));
    assert(bytes.skip(width as int) =~= tail);
}

/// Reading back the CompactSize encoding of a number gives the number and
/// leaves what followed it.
pub proof fn lemma_compact_size_roundtrip(n: u64, tail: Seq<u8>)
    ensures
        compact_size_parse(compact_size_bytes(n) + tail) == Some((n, tail)),
{
    let bytes = compact_size_bytes(n) + tail;
    lemma_byte_ranges();
    if n <= 0xfc {
        assert(bytes.drop_first() =~= tail);
    } else if n <= 0xffff {
        lemma_take_le_roundtrip(n as nat, 2, tail);
        assert(bytes.drop_first() =~= le_bytes(n as nat, 2) + tail);
    } else if n <= 0xffff_ffff {
        lemma_take_le_roundtrip(n as nat, 4, tail);
        assert(bytes.drop_first() =~= le_bytes(n as nat, 4) + tail);
    } else {
        lemma_take_le_roundtrip(n as nat, 8, tail);
        assert(bytes.drop_first() =~= le_bytes(n as nat, 8) + tail);
    }
}

} // verus!
