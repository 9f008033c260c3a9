//! The fixed twelve-byte message header.
use vstd::prelude::*;
use crate::error::DnsError;
use crate::util::{be_u16, be_u16_value, lemma_be_u16_round_trip, put_u16, read_u16};

verus! {

/// The number of bytes of a header on the wire.
pub const HEADER_LEN: usize = 12;

/// A message header. The one-bit flags and the short fields are held in a `u8`
/// each and written masked to their bit width.
#[derive(Debug, Clone, Copy, PartialEq, Eq, Structural)]
pub struct Header {
    pub id: u16,
    /// 1 bit: 0 for a query, 1 for a response.
    pub qr: u8,
    /// 4 bits: the kind of query; 0 is a standard query.
    pub opcode: u8,
    /// 1 bit: authoritative answer.
    pub aa: u8,
    /// 1 bit: truncated.
    pub tc: u8,
    /// 1 bit: recursion desired.
    pub rd: u8,
    /// 1 bit: recursion available.
    pub ra: u8,
    /// 3 bits, reserved.
    pub z: u8,
    /// 4 bits: the response code.
    pub rcode: u8,
    pub qdcount: u16,
    pub ancount: u16,
    pub nscount: u16,
    pub arcount: u16,
}

impl Header {
    /// Each field holds a value that fits its bit width.
    pub open spec fn fields_fit(self) -> bool {
        &&& self.qr < 2
        &&& self.opcode < 16
        &&& self.aa < 2
        &&& self.tc < 2
        &&& self.rd < 2
        &&& self.ra < 2
        &&& self.z < 8
        &&& self.rcode < 16
    }
}

/// The third header byte: qr, opcode, aa, tc, rd from the high bit down.
pub open spec fn flags_hi(h: Header) -> u8 {
    ((h.qr % 2) * 128 + (h.opcode % 16) * 8 + (h.aa % 2) * 4 + (h.tc % 2) * 2 + h.rd % 2) as u8
}

/// The fourth header byte: ra, z, rcode from the high bit down.
pub open spec fn flags_lo(h: Header) -> u8 {
    ((h.ra % 2) * 128 + (h.z % 8) * 16 + h.rcode % 16) as u8
}

/// The twelve bytes of a header, big-endian.
pub open spec fn header_bytes(h: Header) -> Seq<u8> {
    be_u16(h.id) + seq![flags_hi(h), flags_lo(h)] + be_u16(h.qdcount) + be_u16(h.ancount)
        + be_u16(h.nscount) + be_u16(h.arcount)
}

/// The header held in the first twelve bytes of `b`.
pub open spec fn header_at(b: Seq<u8>) -> Header {
    Header {
        id: be_u16_value(b[0], b[1]) as u16,
        qr: b[2] / 128,
        opcode: b[2] / 8 % 16,
        aa: b[2] / 4 % 2,
        tc: b[2] / 2 % 2,
        rd: b[2] % 2,
        ra: b[3] / 128,
        z: b[3] / 16 % 8,
        rcode: b[3] % 16,
        qdcount: be_u16_value(b[4], b[5]) as u16,
        ancount: be_u16_value(b[6], b[7]) as u16,
        nscount: be_u16_value(b[8], b[9]) as u16,
        arcount: be_u16_value(b[10], b[11]) as u16,
    }
}

proof fn lemma_flags_hi_bits(qr: u8, opcode: u8, aa: u8, tc: u8, rd: u8)
    by (bit_vector)
    requires
        qr < 2,
        opcode < 16,
        aa < 2,
        tc < 2,
        rd < 2,
    ensures
        ((qr * 128 + opcode * 8 + aa * 4 + tc * 2 + rd) as u8) / 128 == qr,
        ((qr * 128 + opcode * 8 + aa * 4 + tc * 2 + rd) as u8) / 8 % 16 == opcode,
        ((qr * 128 + opcode * 8 + aa * 4 + tc * 2 + rd) as u8) / 4 % 2 == aa,
        ((qr * 128 + opcode * 8 + aa * 4 + tc * 2 + rd) as u8) / 2 % 2 == tc,
        ((qr * 128 + opcode * 8 + aa * 4 + tc * 2 + rd) as u8) % 2 == rd,
{
}

proof fn lemma_flags_lo_bits(ra: u8, z: u8, rcode: u8)
    by (bit_vector)
    requires
        ra < 2,
        z < 8,
        rcode < 16,
    ensures
        ((ra * 128 + z * 16 + rcode) as u8) / 128 == ra,
        ((ra * 128 + z * 16 + rcode) as u8) / 16 % 8 == z,
        ((ra * 128 + z * 16 + rcode) as u8) % 16 == rcode,
{
}

/// Decoding the encoding of a header whose fields fit their widths gives the
/// same header.
pub proof fn lemma_header_round_trip(h: Header)
    requires
        h.fields_fit(),
    ensures
        header_bytes(h).len() == HEADER_LEN,
        header_at(header_bytes(h)) == h,
{
    let b = header_bytes(h);
    lemma_be_u16_round_trip(h.id);
    lemma_be_u16_round_trip(h.qdcount);
    lemma_be_u16_round_trip(h.ancount);
    lemma_be_u16_round_trip(h.nscount);
    lemma_be_u16_round_trip(h.arcount);
    lemma_flags_hi_bits(h.qr, h.opcode, h.aa, h.tc, h.rd);
    lemma_flags_lo_bits(h.ra, h.z, h.rcode);
    assert(b[0] == be_u16(h.id)[0] && b[1] == be_u16(h.id)[1]);
    assert(b[4] == be_u16(h.qdcount)[0] && b[5] == be_u16(h.qdcount)[1]);
    assert(b[6] == be_u16(h.ancount)[0] && b[7] == be_u16(h.ancount)[1]);
    assert(b[8] == be_u16(h.nscount)[0] && b[9] == be_u16(h.nscount)[1]);
    assert(b[10] == be_u16(h.arcount)[0] && b[11] == be_u16(h.arcount)[1]);
    assert(b[2] == flags_hi(h) && b[3] == flags_lo(h));
}

impl Header {
    /// Writes the header as twelve bytes, each field masked to its bit width.
    pub fn to_bytes(&self) -> (r: Vec<u8>)
        ensures
            r@ == header_bytes(*self),
    {
        let mut out: Vec<u8> = Vec::new();
        put_u16(&mut out, self.id);
        let hi: u8 = (self.qr % 2) * 128 + (self.opcode % 16) * 8 + (self.aa % 2) * 4 + (self.tc
            % 2) * 2 + self.rd % 2;
        let lo: u8 = (self.ra % 2) * 128 + (self.z % 8) * 16 + self.rcode % 16;
        out.push(hi);
        out.push(lo);
        put_u16(&mut out, self.qdcount);
        put_u16(&mut out, self.ancount);
        put_u16(&mut out, self.nscount);
        put_u16(&mut out, self.arcount);
        assert(out@ =~= header_bytes(*self));
        out
    }

    /// Reads a header from the start of `bytes`; returns it with the number of
    /// bytes it takes, twelve. Fails when fewer than twelve bytes are present.
    pub fn from_bytes(bytes: &[u8]) -> (r: Result<(Header, usize), DnsError>)
        ensures
            r is Ok <==> bytes@.len() >= HEADER_LEN,
            r is Err ==> r == Err::<(Header, usize), DnsError>(DnsError::MalformedHeader),
            r is Ok ==> r->Ok_0 == (header_at(bytes@), HEADER_LEN),
    {
        if bytes.len() < HEADER_LEN {
            return Err(DnsError::MalformedHeader);
        }
        let h = Header {
            id: read_u16(bytes, 0),
            qr: bytes[2] / 128,
            opcode: bytes[2] / 8 % 16,
            aa: bytes[2] / 4 % 2,
            tc: bytes[2] / 2 % 2,
            rd: bytes[2] % 2,
            ra: bytes[3] / 128,
            z: bytes[3] / 16 % 8,
            rcode: bytes[3] % 16,
            qdcount: read_u16(bytes, 4),
            ancount: read_u16(bytes, 6),
            nscount: read_u16(bytes, 8),
            arcount: read_u16(bytes, 10),
        };
        Ok((h, HEADER_LEN))
    }
}

} // verus!
