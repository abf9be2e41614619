//! The 12-byte DNS header: six 16-bit words in network byte order, the
//! second of which packs the eight flag fields.

use crate::be_bytes::{
    lemma_u16_be_round_trip, lemma_u16_from_be_round_trip, push_u16_be, spec_u16_be,
    spec_u16_from_be, u16_from_be,
};
use crate::error::DnsError;
use vstd::prelude::*;

verus! {

/// Opcode as specified in RFC 1035.
#[derive(Clone, Copy, Debug, PartialEq, Eq, Structural)]
pub enum Opcode {
    QUERY,
    IQUERY,
    STATUS,
}

impl Opcode {
    /// The numeric code RFC 1035 assigns to the opcode.
    pub open spec fn spec_u16(self) -> u16 {
        match self {
            Opcode::QUERY => 0,
            Opcode::IQUERY => 1,
            Opcode::STATUS => 2,
        }
    }

    /// The opcode a numeric code denotes, if it is in the supported set.
    pub open spec fn spec_from_u16(v: u16) -> Option<Opcode> {
        if v == 0 {
            Some(Opcode::QUERY)
        } else if v == 1 {
            Some(Opcode::IQUERY)
        } else if v == 2 {
            Some(Opcode::STATUS)
        } else {
            None
        }
    }

    pub fn to_u16(self) -> (r: u16)
        ensures
            r == self.spec_u16(),
    {
        match self {
            Opcode::QUERY => 0,
            Opcode::IQUERY => 1,
            Opcode::STATUS => 2,
        }
    }

    pub fn from_u16(v: u16) -> (r: Option<Opcode>)
        ensures
            r == Self::spec_from_u16(v),
    {
        if v == 0 {
            Some(Opcode::QUERY)
        } else if v == 1 {
            Some(Opcode::IQUERY)
        } else if v == 2 {
            Some(Opcode::STATUS)
        } else {
            None
        }
    }
}

/// DNS header with one field per semantic value, as specified in RFC 1035.
///
/// The bit-packed wire form is produced by [`Header::pack`] and
/// [`Header::to_bytes`]; callers never see the packed words.
#[derive(Clone, Copy, Debug, PartialEq, Eq, Structural)]
pub struct Header {
    pub id: u16,
    pub qr: bool,
    pub opcode: Opcode,
    pub aa: bool,
    pub tc: bool,
    pub rd: bool,
    pub ra: bool,
    /// Reserved three-bit field; always emitted as zero.
    pub z: u8,
    /// Four-bit response code; only its low four bits are emitted.
    pub rcode: u8,
    pub qdcount: u16,
    pub ancount: u16,
    pub nscount: u16,
    pub arcount: u16,
}

/// DNS header packed into its six 16-bit wire words.
#[derive(Clone, Copy, Debug, PartialEq, Eq)]
pub struct PackedHeader {
    pub data: [u16; 6],
}

/// Bytes consumed from a buffer together with the header they held.
#[derive(Debug)]
pub struct ParsedHeader {
    /// Number of buffer bytes parsed to construct the header.
    pub parsed_bytes: usize,
    pub header: Header,
}

/// The flags word: QR, opcode, AA, TC, RD, RA, Z (always zero) and RCODE,
/// from most to least significant bit.
pub open spec fn spec_flags_word(h: Header) -> u16 {
    (if h.qr {
        0x8000u16
    } else {
        0u16
    }) | (h.opcode.spec_u16() << 11) | (if h.aa {
        0x400u16
    } else {
        0u16
    }) | (if h.tc {
        0x200u16
    } else {
        0u16
    }) | (if h.rd {
        0x100u16
    } else {
        0u16
    }) | (if h.ra {
        0x80u16
    } else {
        0u16
    }) | ((h.rcode & 0xf) as u16)
}

/// The 12-byte wire form of a header: six big-endian 16-bit words.
pub open spec fn spec_header_bytes(h: Header) -> Seq<u8> {
    spec_u16_be(h.id) + spec_u16_be(spec_flags_word(h)) + spec_u16_be(h.qdcount) + spec_u16_be(
        h.ancount,
    ) + spec_u16_be(h.nscount) + spec_u16_be(h.arcount)
}

/// Decoding the first 12 bytes of `b` as a header.  Fails when fewer than
/// 12 bytes are present or the opcode field holds an unknown value.
pub open spec fn spec_parse_header(b: Seq<u8>) -> Result<Header, DnsError> {
    if b.len() < 12 {
        Err(DnsError::BufferTooShort)
    } else {
        let flags = spec_u16_from_be(b[2], b[3]);
        match Opcode::spec_from_u16((flags >> 11) & 0xf) {
            None => Err(DnsError::UnsupportedOpcode),
            Some(op) => Ok(
                Header {
                    id: spec_u16_from_be(b[0], b[1]),
                    qr: (flags >> 15) & 1 == 1,
                    opcode: op,
                    aa: (flags >> 10) & 1 == 1,
                    tc: (flags >> 9) & 1 == 1,
                    rd: (flags >> 8) & 1 == 1,
                    ra: (flags >> 7) & 1 == 1,
                    z: ((flags >> 4) & 0x7) as u8,
                    rcode: (flags & 0xf) as u8,
                    qdcount: spec_u16_from_be(b[4], b[5]),
                    ancount: spec_u16_from_be(b[6], b[7]),
                    nscount: spec_u16_from_be(b[8], b[9]),
                    arcount: spec_u16_from_be(b[10], b[11]),
                },
            ),
        }
    }
}

impl Header {
    /// Packs the header into its six 16-bit wire words.  The `z` bits are
    /// emitted as zero and only the low four bits of `rcode` are kept.
    pub fn pack(&self) -> (r: PackedHeader)
        ensures
            r.data@ == seq![
                self.id,
                spec_flags_word(*self),
                self.qdcount,
                self.ancount,
                self.nscount,
                self.arcount,
            ],
    {
        let flags: u16 = (if self.qr {
            0x8000u16
        } else {
            0u16
        }) | (self.opcode.to_u16() << 11) | (if self.aa {
            0x400u16
        } else {
            0u16
        }) | (if self.tc {
            0x200u16
        } else {
            0u16
        }) | (if self.rd {
            0x100u16
        } else {
            0u16
        }) | (if self.ra {
            0x80u16
        } else {
            0u16
        }) | ((self.rcode & 0xf) as u16);
        let r = PackedHeader { data: [self.id, flags, self.qdcount, self.ancount, self.nscount, self.arcount] };
        proof {
            assert(r.data@ =~= seq![
                self.id,
                spec_flags_word(*self),
                self.qdcount,
                self.ancount,
                self.nscount,
                self.arcount,
            ]);
        }
        r
    }

    /// The 12-byte network-order wire form of the header.
    pub fn to_bytes(&self) -> (r: Vec<u8>)
        ensures
            r@ == spec_header_bytes(*self),
            r@.len() == 12,
    {
        let packed = self.pack();
        let mut bytes: Vec<u8> = Vec::new();
        push_u16_be(&mut bytes, packed.data[0]);
        push_u16_be(&mut bytes, packed.data[1]);
        push_u16_be(&mut bytes, packed.data[2]);
        push_u16_be(&mut bytes, packed.data[3]);
        push_u16_be(&mut bytes, packed.data[4]);
        push_u16_be(&mut bytes, packed.data[5]);
        proof {
            assert(bytes@ =~= spec_header_bytes(*self));
        }
        bytes
    }

    /// Decodes a header from the first 12 bytes of `buffer`.
    pub fn from_bytes(buffer: &[u8]) -> (r: Result<Header, DnsError>)
        ensures
            r == spec_parse_header(buffer@),
    {
        if buffer.len() < 12 {
            return Err(DnsError::BufferTooShort);
        }
        let flags = u16_from_be(buffer[2], buffer[3]);
        let opcode = match Opcode::from_u16((flags >> 11) & 0xf) {
            None => {
                return Err(DnsError::UnsupportedOpcode);
            },
            Some(op) => op,
        };
        proof {
            assert((flags >> 4) & 0x7 < 8 && (flags & 0xf) < 16) by (bit_vector);
        }
        Ok(
            Header {
                id: u16_from_be(buffer[0], buffer[1]),
                qr: (flags >> 15) & 1 == 1,
                opcode,
                aa: (flags >> 10) & 1 == 1,
                tc: (flags >> 9) & 1 == 1,
                rd: (flags >> 8) & 1 == 1,
                ra: (flags >> 7) & 1 == 1,
                z: ((flags >> 4) & 0x7) as u8,
                rcode: (flags & 0xf) as u8,
                qdcount: u16_from_be(buffer[4], buffer[5]),
                ancount: u16_from_be(buffer[6], buffer[7]),
                nscount: u16_from_be(buffer[8], buffer[9]),
                arcount: u16_from_be(buffer[10], buffer[11]),
            },
        )
    }

    /// Decodes a header and reports the fixed 12-byte consumption count.
    pub fn parse(buffer: &[u8]) -> (r: Result<ParsedHeader, DnsError>)
        ensures
            match r {
                Ok(p) => spec_parse_header(buffer@) == Ok::<Header, DnsError>(p.header)
                    && p.parsed_bytes == 12,
                Err(e) => spec_parse_header(buffer@) == Err::<Header, DnsError>(e),
            },
    {
        let header = Header::from_bytes(buffer)?;
        Ok(ParsedHeader { parsed_bytes: 12, header })
    }
}

/// Header round trip: a header whose reserved `z` field is zero and whose
/// `rcode` fits its four-bit wire field is recovered exactly by parsing
/// its own emission.
pub proof fn lemma_header_round_trip(h: Header)
    requires
        h.z == 0,
        h.rcode < 16,
    ensures
        spec_parse_header(spec_header_bytes(h)) == Ok::<Header, DnsError>(h),
{
    let b = spec_header_bytes(h);
    let f = spec_flags_word(h);
    assert(b.len() == 12);
    assert(b[0] == spec_u16_be(h.id)[0] && b[1] == spec_u16_be(h.id)[1]);
    assert(b[2] == spec_u16_be(f)[0] && b[3] == spec_u16_be(f)[1]);
    assert(b[4] == spec_u16_be(h.qdcount)[0] && b[5] == spec_u16_be(h.qdcount)[1]);
    assert(b[6] == spec_u16_be(h.ancount)[0] && b[7] == spec_u16_be(h.ancount)[1]);
    assert(b[8] == spec_u16_be(h.nscount)[0] && b[9] == spec_u16_be(h.nscount)[1]);
    assert(b[10] == spec_u16_be(h.arcount)[0] && b[11] == spec_u16_be(h.arcount)[1]);
    lemma_u16_be_round_trip(h.id);
    lemma_u16_be_round_trip(f);
    lemma_u16_be_round_trip(h.qdcount);
    lemma_u16_be_round_trip(h.ancount);
    lemma_u16_be_round_trip(h.nscount);
    lemma_u16_be_round_trip(h.arcount);
    let q: u16 = if h.qr {
        0x8000u16
    } else {
        0u16
    };
    let o: u16 = h.opcode.spec_u16();
    let a: u16 = if h.aa {
        0x400u16
    } else {
        0u16
    };
    let t: u16 = if h.tc {
        0x200u16
    } else {
        0u16
    };
    let rd: u16 = if h.rd {
        0x100u16
    } else {
        0u16
    };
    let ra: u16 = if h.ra {
        0x80u16
    } else {
        0u16
    };
    let rc: u16 = (h.rcode & 0xf) as u16;
    let rc8: u8 = h.rcode;
    assert(rc8 & 0xf < 16) by (bit_vector);
    assert(f == q | (o << 11) | a | t | rd | ra | rc);
    assert(((f >> 11) & 0xf == o) && ((f >> 15) & 1 == 1) == (q == 0x8000u16) && ((f >> 10) & 1
        == 1) == (a == 0x400u16) && ((f >> 9) & 1 == 1) == (t == 0x200u16) && ((f >> 8) & 1 == 1)
        == (rd == 0x100u16) && ((f >> 7) & 1 == 1) == (ra == 0x80u16) && ((f >> 4) & 0x7 == 0)
        && (f & 0xf == rc)) by (bit_vector)
        requires
            f == q | (o << 11) | a | t | rd | ra | rc,
            q == 0 || q == 0x8000,
            o <= 2,
            a == 0 || a == 0x400,
            t == 0 || t == 0x200,
            rd == 0 || rd == 0x100,
            ra == 0 || ra == 0x80,
            rc < 16,
    ;
    assert(rc8 & 0xf == rc8) by (bit_vector)
        requires
            rc8 < 16,
    ;
    assert(spec_parse_header(b) == Ok::<Header, DnsError>(h));
}

/// Byte-level round trip: 12 bytes that parse as a header whose `z` field
/// is zero re-emit to exactly the same 12 bytes.
pub proof fn lemma_header_bytes_round_trip(b: Seq<u8>, h: Header)
    requires
        b.len() == 12,
        spec_parse_header(b) == Ok::<Header, DnsError>(h),
        h.z == 0,
    ensures
        spec_header_bytes(h) == b,
{
    let f = spec_u16_from_be(b[2], b[3]);
    let o: u16 = (f >> 11) & 0xf;
    assert(Opcode::spec_from_u16(o) is Some);
    assert(h.opcode == Opcode::spec_from_u16(o)->Some_0);
    assert(h.opcode.spec_u16() == o);
    assert((f >> 4) & 0x7 == 0) by {
        assert(h.z == ((f >> 4) & 0x7) as u8);
        assert((f >> 4) & 0x7 < 8) by (bit_vector);
    };
    let q: u16 = if h.qr {
        0x8000u16
    } else {
        0u16
    };
    let a: u16 = if h.aa {
        0x400u16
    } else {
        0u16
    };
    let t: u16 = if h.tc {
        0x200u16
    } else {
        0u16
    };
    let rd: u16 = if h.rd {
        0x100u16
    } else {
        0u16
    };
    let ra: u16 = if h.ra {
        0x80u16
    } else {
        0u16
    };
    let rc: u16 = (h.rcode & 0xf) as u16;
    assert(f & 0xf < 16) by (bit_vector);
    assert(h.rcode == (f & 0xf) as u8);
    assert(rc == f & 0xf) by {
        assert((f & 0xf) as u8 as u16 & 0xf == f & 0xf) by (bit_vector);
    };
    assert(((f >> 15) & 1 == 1) ==> q == 0x8000u16);
    assert(((f >> 15) & 1 != 1) ==> q == 0u16);
    assert(((f >> 10) & 1 == 1) ==> a == 0x400u16);
    assert(((f >> 10) & 1 != 1) ==> a == 0u16);
    assert(((f >> 9) & 1 == 1) ==> t == 0x200u16);
    assert(((f >> 9) & 1 != 1) ==> t == 0u16);
    assert(((f >> 8) & 1 == 1) ==> rd == 0x100u16);
    assert(((f >> 8) & 1 != 1) ==> rd == 0u16);
    assert(((f >> 7) & 1 == 1) ==> ra == 0x80u16);
    assert(((f >> 7) & 1 != 1) ==> ra == 0u16);
    assert((q | (o << 11) | a | t | rd | ra | rc) == f) by (bit_vector)
        requires
            ((f >> 15) & 1 == 1) ==> q == 0x8000u16,
            ((f >> 15) & 1 != 1) ==> q == 0u16,
            o == (f >> 11) & 0xf,
            o <= 2,
            ((f >> 10) & 1 == 1) ==> a == 0x400u16,
            ((f >> 10) & 1 != 1) ==> a == 0u16,
            ((f >> 9) & 1 == 1) ==> t == 0x200u16,
            ((f >> 9) & 1 != 1) ==> t == 0u16,
            ((f >> 8) & 1 == 1) ==> rd == 0x100u16,
            ((f >> 8) & 1 != 1) ==> rd == 0u16,
            ((f >> 7) & 1 == 1) ==> ra == 0x80u16,
            ((f >> 7) & 1 != 1) ==> ra == 0u16,
            (f >> 4) & 0x7 == 0,
            rc == f & 0xf,
    ;
    assert(spec_flags_word(h) == f);
    lemma_u16_from_be_round_trip(b[0], b[1]);
    lemma_u16_from_be_round_trip(b[2], b[3]);
    lemma_u16_from_be_round_trip(b[4], b[5]);
    lemma_u16_from_be_round_trip(b[6], b[7]);
    lemma_u16_from_be_round_trip(b[8], b[9]);
    lemma_u16_from_be_round_trip(b[10], b[11]);
    assert(spec_header_bytes(h) =~= b);
}

} // verus!
