use vstd::prelude::*;
use bytes::BufMut;
use crate::error::EncodingError;
use crate::name::{encode_name, labels_fit, labels_from_dotted, name_bytes, split_dots};

verus! {

/// The value of two bytes read in big-endian order.
pub open spec fn be_u16_value(hi: u8, lo: u8) -> int {
    hi as int * 256 + lo as int
}

/// The value of four bytes read in big-endian order.
pub open spec fn be_u32_value(b0: u8, b1: u8, b2: u8, b3: u8) -> int {
    b0 as int * 16777216 + b1 as int * 65536 + b2 as int * 256 + b3 as int
}

/// The two bytes of `v`, most significant first.
pub open spec fn be_u16(v: u16) -> Seq<u8> {
    seq![(v / 256) as u8, (v % 256) as u8]
}

/// The four bytes of `v`, most significant first.
pub open spec fn be_u32(v: u32) -> Seq<u8> {
    seq![(v / 16777216) as u8, (v / 65536 % 256) as u8, (v / 256 % 256) as u8, (v % 256) as u8]
}

/// Reading back the bytes of `be_u16` gives the value.
pub proof fn lemma_be_u16_round_trip(v: u16)
    ensures
        be_u16(v).len() == 2,
        be_u16_value(be_u16(v)[0], be_u16(v)[1]) == v,
{
}

/// Relies on bytes' `BufMut::put_u16` for `Vec<u8>`: it appends `v.to_be_bytes()`.
#[verifier::external_body]
pub(crate) fn put_u16(buf: &mut Vec<u8>, v: u16)
    ensures
        final(buf)@ == old(buf)@ + be_u16(v),
{
    buf.put_u16(v)
}

/// Relies on bytes' `BufMut::put_u32` for `Vec<u8>`: it appends `v.to_be_bytes()`.
#[verifier::external_body]
pub(crate) fn put_u32(buf: &mut Vec<u8>, v: u32)
    ensures
        final(buf)@ == old(buf)@ + be_u32(v),
{
    buf.put_u32(v)
}

/// Reads a big-endian `u32` from the bytes at four given positions.
pub fn encode_u32_from_four_u8s(
    bytes: &[u8],
    first_idx: u8,
    second_idx: u8,
    third_idx: u8,
    fourth_idx: u8,
) -> (r: u32)
    requires
        (first_idx as int) < bytes@.len(),
        (second_idx as int) < bytes@.len(),
        (third_idx as int) < bytes@.len(),
        (fourth_idx as int) < bytes@.len(),
    ensures
        r as int == be_u32_value(
            bytes@[first_idx as int],
            bytes@[second_idx as int],
            bytes@[third_idx as int],
            bytes@[fourth_idx as int],
        ),
{
    (bytes[first_idx as usize] as u32) * 16777216 + (bytes[second_idx as usize] as u32) * 65536
        + (bytes[third_idx as usize] as u32) * 256 + bytes[fourth_idx as usize] as u32
}

/// Reads a big-endian `u16` from the bytes at two given positions.
pub fn encode_u16_from_two_u8s(bytes: &[u8], first_idx: u8, second_idx: u8) -> (r: u16)
    requires
        (first_idx as int) < bytes@.len(),
        (second_idx as int) < bytes@.len(),
    ensures
        r as int == be_u16_value(bytes@[first_idx as int], bytes@[second_idx as int]),
{
    (bytes[first_idx as usize] as u16) * 256 + bytes[second_idx as usize] as u16
}

/// Reads a big-endian `u16` at `pos`.
pub(crate) fn read_u16(bytes: &[u8], pos: usize) -> (r: u16)
    requires
        pos + 2 <= bytes@.len(),
    ensures
        r as int == be_u16_value(bytes@[pos as int], bytes@[pos + 1]),
{
    (bytes[pos] as u16) * 256 + bytes[pos + 1] as u16
}

/// Reads a big-endian `u32` at `pos`.
pub(crate) fn read_u32(bytes: &[u8], pos: usize) -> (r: u32)
    requires
        pos + 4 <= bytes@.len(),
    ensures
        r as int == be_u32_value(bytes@[pos as int], bytes@[pos + 1], bytes@[pos + 2], bytes@[pos + 3]),
{
    (bytes[pos] as u32) * 16777216 + (bytes[pos + 1] as u32) * 65536 + (bytes[pos + 2] as u32) * 256
        + bytes[pos + 3] as u32
}

} // verus!

verus! {

/// Appends the bytes of `src` to `out`.
pub(crate) fn append_bytes(out: &mut Vec<u8>, src: &[u8])
    ensures
        final(out)@ == old(out)@ + src@,
{
    let mut i: usize = 0;
    while i < src.len()
        invariant
            i <= src@.len(),
            out@ == old(out)@ + src@.take(i as int),
        decreases src@.len() - i,
    {
        out.push(src[i]);
        i = i + 1;
        assert(out@ =~= old(out)@ + src@.take(i as int));
    }
    assert(src@.take(i as int) =~= src@);
}

/// A fresh vector holding `buf[from..to]`.
pub(crate) fn copy_range(buf: &[u8], from: usize, to: usize) -> (r: Vec<u8>)
    requires
        from <= to <= buf@.len(),
    ensures
        r@ == buf@.subrange(from as int, to as int),
{
    let mut r: Vec<u8> = Vec::new();
    let mut i: usize = from;
    while i < to
        invariant
            from <= i <= to,
            to <= buf@.len(),
            r@ == buf@.subrange(from as int, i as int),
        decreases to - i,
    {
        r.push(buf[i]);
        i = i + 1;
        assert(r@ =~= buf@.subrange(from as int, i as int));
    }
    r
}

} // verus!

verus! {

/// Writes a dot-separated name in wire form: each label after its length byte,
/// then a zero byte; fails when a label is longer than 63 bytes.
pub fn encode_lookup_to_dns(bytes: &Vec<u8>) -> (r: Result<Vec<u8>, EncodingError>)
    ensures
        r is Ok <==> labels_fit(split_dots(bytes@)),
        r is Ok ==> r->Ok_0@ == name_bytes(split_dots(bytes@)),
{
    let labels = labels_from_dotted(bytes.as_slice());
    encode_name(&labels)
}

} // verus!
