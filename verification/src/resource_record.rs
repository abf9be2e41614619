//! The DNS resource record: an encoded name, type, class, TTL, and a
//! length-prefixed opaque RDATA payload.

use crate::be_bytes::{
    lemma_u16_be_round_trip, lemma_u32_be_round_trip, push_bytes, push_u16_be, push_u32_be,
    spec_u16_be, spec_u16_from_be, spec_u32_be, spec_u32_from_be, u16_from_be, u32_from_be,
};
use crate::classes::Class;
use crate::error::DnsError;
use crate::hostname::{
    lemma_name_round_trip, lemma_parse_name_extend, spec_name_bytes, spec_parse_hostname,
    spec_parse_name, wf_name, Hostname, LabelV,
};
use crate::types::{lemma_type_code_round_trip, Type};
use vstd::prelude::*;

verus! {

/// Resource record format as specified in RFC 1035.
#[derive(Clone, Debug, PartialEq, Eq)]
pub struct ResourceRecord {
    pub name: Hostname,
    pub rtype: Type,
    pub class: Class,
    pub ttl: u32,
    pub rdlength: u16,
    pub rdata: Vec<u8>,
}

/// Mathematical model of a resource record.
pub struct ResourceRecordV {
    pub name: Seq<LabelV>,
    pub rtype: Type,
    pub class: Class,
    pub ttl: u32,
    pub rdlength: u16,
    pub rdata: Seq<u8>,
}

impl View for ResourceRecord {
    type V = ResourceRecordV;

    open spec fn view(&self) -> ResourceRecordV {
        ResourceRecordV {
            name: self.name@,
            rtype: self.rtype,
            class: self.class,
            ttl: self.ttl,
            rdlength: self.rdlength,
            rdata: self.rdata@,
        }
    }
}

/// A resource record packed into its wire bytes.
#[derive(Clone, Debug, PartialEq, Eq)]
pub struct PackedResourceRecord {
    pub data: Vec<u8>,
}

/// Bytes consumed from a buffer together with the record they held.
#[derive(Debug)]
pub struct ParsedResourceRecord {
    /// Number of buffer bytes parsed to construct the resource record.
    pub parsed_bytes: u8,
    pub record: ResourceRecord,
}

/// Wire form: the encoded name, big-endian type, class, TTL and RDLENGTH,
/// then the RDATA bytes.
pub open spec fn spec_rr_bytes(r: ResourceRecordV) -> Seq<u8> {
    spec_name_bytes(r.name) + spec_u16_be(r.rtype.spec_u16()) + spec_u16_be(r.class.spec_u16())
        + spec_u32_be(r.ttl) + spec_u16_be(r.rdlength) + r.rdata
}

/// Decoding a resource record from the front of `b`.
pub open spec fn spec_parse_rr(b: Seq<u8>) -> Result<(ResourceRecordV, int), DnsError> {
    match spec_parse_hostname(b) {
        Err(e) => Err(e),
        Ok((ls, n)) => if b.len() < n + 2 {
            Err(DnsError::BufferTooShort)
        } else {
            match Type::spec_from_u16(spec_u16_from_be(b[n], b[n + 1])) {
                None => Err(DnsError::UnsupportedType),
                Some(rtype) => if b.len() < n + 4 {
                    Err(DnsError::BufferTooShort)
                } else {
                    match Class::spec_from_u16(spec_u16_from_be(b[n + 2], b[n + 3])) {
                        None => Err(DnsError::UnsupportedClass),
                        Some(class) => if b.len() < n + 10 {
                            Err(DnsError::BufferTooShort)
                        } else {
                            let ttl = spec_u32_from_be(b[n + 4], b[n + 5], b[n + 6], b[n + 7]);
                            let rdlength = spec_u16_from_be(b[n + 8], b[n + 9]);
                            if b.len() < n + 10 + rdlength {
                                Err(DnsError::BufferTooShort)
                            } else if n + 10 + rdlength > 255 {
                                Err(DnsError::ParsedBytesOverflow)
                            } else {
                                Ok(
                                    (
                                        ResourceRecordV {
                                            name: ls,
                                            rtype,
                                            class,
                                            ttl,
                                            rdlength,
                                            rdata: b.subrange(n + 10, n + 10 + rdlength),
                                        },
                                        n + 10 + rdlength,
                                    ),
                                )
                            }
                        },
                    }
                },
            }
        },
    }
}

impl ResourceRecord {
    /// Packs the record into its wire bytes.
    pub fn pack(&self) -> (r: PackedResourceRecord)
        ensures
            r.data@ == spec_rr_bytes(self@),
    {
        let mut packed: Vec<u8> = Vec::new();
        let name_bytes = self.name.to_bytes();
        push_bytes(&mut packed, name_bytes.as_slice());
        push_u16_be(&mut packed, self.rtype.to_u16());
        push_u16_be(&mut packed, self.class.to_u16());
        push_u32_be(&mut packed, self.ttl);
        push_u16_be(&mut packed, self.rdlength);
        push_bytes(&mut packed, self.rdata.as_slice());
        proof {
            assert(packed@ =~= spec_rr_bytes(self@));
        }
        PackedResourceRecord { data: packed }
    }

    /// The wire bytes of the record.
    pub fn to_bytes(&self) -> (r: Vec<u8>)
        ensures
            r@ == spec_rr_bytes(self@),
    {
        self.pack().data
    }

    /// Decodes a resource record from the front of `buffer`, reporting
    /// the bytes consumed.
    pub fn parse(buffer: &[u8]) -> (r: Result<ParsedResourceRecord, DnsError>)
        ensures
            match r {
                Ok(p) => spec_parse_rr(buffer@) == Ok::<(ResourceRecordV, int), DnsError>(
                    (p.record@, p.parsed_bytes as int),
                ),
                Err(e) => spec_parse_rr(buffer@) == Err::<(ResourceRecordV, int), DnsError>(e),
            },
    {
        let parsed_hostname = Hostname::parse(buffer)?;
        let n = parsed_hostname.parsed_bytes as usize;
        if buffer.len() < n + 2 {
            return Err(DnsError::BufferTooShort);
        }
        let rtype_int = u16_from_be(buffer[n], buffer[n + 1]);
        let rtype = match Type::from_u16(rtype_int) {
            None => {
                return Err(DnsError::UnsupportedType);
            },
            Some(t) => t,
        };
        if buffer.len() < n + 4 {
            return Err(DnsError::BufferTooShort);
        }
        let class_int = u16_from_be(buffer[n + 2], buffer[n + 3]);
        let class = match Class::from_u16(class_int) {
            None => {
                return Err(DnsError::UnsupportedClass);
            },
            Some(c) => c,
        };
        if buffer.len() < n + 10 {
            return Err(DnsError::BufferTooShort);
        }
        let ttl = u32_from_be(buffer[n + 4], buffer[n + 5], buffer[n + 6], buffer[n + 7]);
        let rdlength = u16_from_be(buffer[n + 8], buffer[n + 9]);
        let rdlen = rdlength as usize;
        if buffer.len() < n + 10 + rdlen {
            return Err(DnsError::BufferTooShort);
        }
        if n + 10 + rdlen > 255 {
            return Err(DnsError::ParsedBytesOverflow);
        }
        let rdata = vstd::slice::slice_to_vec(
            vstd::slice::slice_subrange(buffer, n + 10, n + 10 + rdlen),
        );
        Ok(
            ParsedResourceRecord {
                parsed_bytes: (n + 10 + rdlen) as u8,
                record: ResourceRecord {
                    name: parsed_hostname.hostname,
                    rtype,
                    class,
                    ttl,
                    rdlength,
                    rdata,
                },
            },
        )
    }
}

/// A successful decode consumes between 1 byte and the whole buffer.
pub proof fn lemma_parse_rr_consumed(b: Seq<u8>)
    ensures
        spec_parse_rr(b) matches Ok((r, n)) ==> 1 <= n <= b.len(),
{
    crate::hostname::lemma_parse_name_consumed(b);
}

/// A record whose encoding decodes back to itself: a well-formed name,
/// RDLENGTH matching the RDATA length, the whole entry within the 8-bit
/// consumption counter.
pub open spec fn wf_rr(r: ResourceRecordV) -> bool {
    &&& wf_name(r.name)
    &&& r.rdlength as int == r.rdata.len()
    &&& spec_name_bytes(r.name).len() + 10 + r.rdata.len() <= 255
}

/// Record round trip: a well-formed record decodes from the front of its
/// own encoding followed by anything, consuming exactly its encoding.
pub proof fn lemma_rr_round_trip(r: ResourceRecordV, ext: Seq<u8>)
    requires
        wf_rr(r),
    ensures
        spec_parse_rr(spec_rr_bytes(r) + ext) == Ok::<(ResourceRecordV, int), DnsError>(
            (r, spec_rr_bytes(r).len() as int),
        ),
{
    let nb = spec_name_bytes(r.name);
    let n = nb.len() as int;
    let tail = spec_u16_be(r.rtype.spec_u16()) + spec_u16_be(r.class.spec_u16()) + spec_u32_be(
        r.ttl,
    ) + spec_u16_be(r.rdlength) + r.rdata + ext;
    let b = spec_rr_bytes(r) + ext;
    lemma_name_round_trip(r.name);
    lemma_parse_name_extend(nb, tail);
    assert(b =~= nb + tail);
    assert(spec_parse_name(b) == Ok::<(Seq<LabelV>, int), DnsError>((r.name, n)));
    assert(spec_parse_hostname(b) == Ok::<(Seq<LabelV>, int), DnsError>((r.name, n)));
    assert(b[n] == spec_u16_be(r.rtype.spec_u16())[0]);
    assert(b[n + 1] == spec_u16_be(r.rtype.spec_u16())[1]);
    assert(b[n + 2] == spec_u16_be(r.class.spec_u16())[0]);
    assert(b[n + 3] == spec_u16_be(r.class.spec_u16())[1]);
    assert(b[n + 4] == spec_u32_be(r.ttl)[0]);
    assert(b[n + 5] == spec_u32_be(r.ttl)[1]);
    assert(b[n + 6] == spec_u32_be(r.ttl)[2]);
    assert(b[n + 7] == spec_u32_be(r.ttl)[3]);
    assert(b[n + 8] == spec_u16_be(r.rdlength)[0]);
    assert(b[n + 9] == spec_u16_be(r.rdlength)[1]);
    lemma_u16_be_round_trip(r.rtype.spec_u16());
    lemma_u16_be_round_trip(r.class.spec_u16());
    lemma_u32_be_round_trip(r.ttl);
    lemma_u16_be_round_trip(r.rdlength);
    lemma_type_code_round_trip(r.rtype);
    assert(Class::spec_from_u16(r.class.spec_u16()) == Some(r.class));
    assert(b.len() >= n + 10 + r.rdlength);
    assert(b.subrange(n + 10, n + 10 + r.rdlength as int) =~= r.rdata);
    assert(spec_rr_bytes(r).len() == n + 10 + r.rdlength);
}

} // verus!
