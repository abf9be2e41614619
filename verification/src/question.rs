//! The DNS question section entry: an encoded name followed by 16-bit
//! type and class codes.

use crate::be_bytes::{
    lemma_u16_be_round_trip, push_bytes, push_u16_be, spec_u16_be, spec_u16_from_be, u16_from_be,
};
use crate::classes::Class;
use crate::error::DnsError;
use crate::hostname::{
    lemma_name_round_trip, lemma_parse_name_extend, spec_name_bytes, spec_parse_hostname,
    spec_parse_name, wf_name, Hostname, LabelV,
};
use crate::types::{lemma_type_code_round_trip, Type};
use vstd::prelude::*;

verus! {

/// DNS question section entry with fields as specified in RFC 1035.
#[derive(Clone, Debug, PartialEq, Eq)]
pub struct Question {
    pub qname: Hostname,
    pub qtype: Type,
    pub qclass: Class,
}

/// Mathematical model of a question.
pub struct QuestionV {
    pub qname: Seq<LabelV>,
    pub qtype: Type,
    pub qclass: Class,
}

impl View for Question {
    type V = QuestionV;

    open spec fn view(&self) -> QuestionV {
        QuestionV { qname: self.qname@, qtype: self.qtype, qclass: self.qclass }
    }
}

/// A question packed into its wire bytes.
#[derive(Clone, Debug, PartialEq, Eq)]
pub struct PackedQuestion {
    pub data: Vec<u8>,
}

/// Bytes consumed from a buffer together with the question they held.
#[derive(Debug)]
pub struct ParsedQuestion {
    /// Number of buffer bytes parsed to construct the question.
    pub parsed_bytes: u8,
    pub question: Question,
}

/// Wire form: the encoded name, then big-endian type and class codes.
pub open spec fn spec_question_bytes(q: QuestionV) -> Seq<u8> {
    spec_name_bytes(q.qname) + spec_u16_be(q.qtype.spec_u16()) + spec_u16_be(q.qclass.spec_u16())
}

/// Decoding a question from the front of `b`: the name, then a supported
/// type and class, all within the 8-bit consumption counter.
pub open spec fn spec_parse_question(b: Seq<u8>) -> Result<(QuestionV, int), DnsError> {
    match spec_parse_hostname(b) {
        Err(e) => Err(e),
        Ok((ls, n)) => if b.len() < n + 2 {
            Err(DnsError::BufferTooShort)
        } else {
            match Type::spec_from_u16(spec_u16_from_be(b[n], b[n + 1])) {
                None => Err(DnsError::UnsupportedType),
                Some(qtype) => if b.len() < n + 4 {
                    Err(DnsError::BufferTooShort)
                } else {
                    match Class::spec_from_u16(spec_u16_from_be(b[n + 2], b[n + 3])) {
                        None => Err(DnsError::UnsupportedClass),
                        Some(qclass) => if n + 4 > 255 {
                            Err(DnsError::ParsedBytesOverflow)
                        } else {
                            Ok((QuestionV { qname: ls, qtype, qclass }, n + 4))
                        },
                    }
                },
            }
        },
    }
}

impl Question {
    /// Packs the question into its wire bytes.
    pub fn pack(&self) -> (r: PackedQuestion)
        ensures
            r.data@ == spec_question_bytes(self@),
    {
        let mut packed: Vec<u8> = Vec::new();
        let name_bytes = self.qname.to_bytes();
        push_bytes(&mut packed, name_bytes.as_slice());
        push_u16_be(&mut packed, self.qtype.to_u16());
        push_u16_be(&mut packed, self.qclass.to_u16());
        proof {
            assert(packed@ =~= spec_question_bytes(self@));
        }
        PackedQuestion { data: packed }
    }

    /// The wire bytes of the question.
    pub fn to_bytes(&self) -> (r: Vec<u8>)
        ensures
            r@ == spec_question_bytes(self@),
    {
        self.pack().data
    }

    /// Decodes a question from the front of `buffer`, reporting the bytes
    /// consumed.
    pub fn parse(buffer: &[u8]) -> (r: Result<ParsedQuestion, DnsError>)
        ensures
            match r {
                Ok(p) => spec_parse_question(buffer@) == Ok::<(QuestionV, int), DnsError>(
                    (p.question@, p.parsed_bytes as int),
                ),
                Err(e) => spec_parse_question(buffer@) == Err::<(QuestionV, int), DnsError>(e),
            },
    {
        let parsed_hostname = Hostname::parse(buffer)?;
        let n = parsed_hostname.parsed_bytes as usize;
        if buffer.len() < n + 2 {
            return Err(DnsError::BufferTooShort);
        }
        let qtype_int = u16_from_be(buffer[n], buffer[n + 1]);
        let qtype = match Type::from_u16(qtype_int) {
            None => {
                return Err(DnsError::UnsupportedType);
            },
            Some(t) => t,
        };
        if buffer.len() < n + 4 {
            return Err(DnsError::BufferTooShort);
        }
        let qclass_int = u16_from_be(buffer[n + 2], buffer[n + 3]);
        let qclass = match Class::from_u16(qclass_int) {
            None => {
                return Err(DnsError::UnsupportedClass);
            },
            Some(c) => c,
        };
        if n + 4 > 255 {
            return Err(DnsError::ParsedBytesOverflow);
        }
        Ok(
            ParsedQuestion {
                parsed_bytes: (n + 4) as u8,
                question: Question { qname: parsed_hostname.hostname, qtype, qclass },
            },
        )
    }
}

/// A successful decode consumes between 1 byte and the whole buffer.
pub proof fn lemma_parse_question_consumed(b: Seq<u8>)
    ensures
        spec_parse_question(b) matches Ok((q, n)) ==> 1 <= n <= b.len(),
{
    crate::hostname::lemma_parse_name_consumed(b);
}

/// A question whose encoding decodes back to itself: a well-formed name
/// short enough that the whole entry fits the 8-bit consumption counter.
pub open spec fn wf_question(q: QuestionV) -> bool {
    wf_name(q.qname) && spec_name_bytes(q.qname).len() + 4 <= 255
}

/// Question round trip: a well-formed question decodes from the front of
/// its own encoding followed by anything, consuming exactly its encoding.
pub proof fn lemma_question_round_trip(q: QuestionV, ext: Seq<u8>)
    requires
        wf_question(q),
    ensures
        spec_parse_question(spec_question_bytes(q) + ext) == Ok::<(QuestionV, int), DnsError>(
            (q, spec_question_bytes(q).len() as int),
        ),
{
    let nb = spec_name_bytes(q.qname);
    let n = nb.len() as int;
    let tail = spec_u16_be(q.qtype.spec_u16()) + spec_u16_be(q.qclass.spec_u16()) + ext;
    let b = spec_question_bytes(q) + ext;
    lemma_name_round_trip(q.qname);
    lemma_parse_name_extend(nb, tail);
    assert(b =~= nb + tail);
    assert(spec_parse_name(b) == Ok::<(Seq<LabelV>, int), DnsError>((q.qname, n)));
    assert(spec_parse_hostname(b) == Ok::<(Seq<LabelV>, int), DnsError>((q.qname, n)));
    assert(b[n] == spec_u16_be(q.qtype.spec_u16())[0]);
    assert(b[n + 1] == spec_u16_be(q.qtype.spec_u16())[1]);
    assert(b[n + 2] == spec_u16_be(q.qclass.spec_u16())[0]);
    assert(b[n + 3] == spec_u16_be(q.qclass.spec_u16())[1]);
    lemma_u16_be_round_trip(q.qtype.spec_u16());
    lemma_u16_be_round_trip(q.qclass.spec_u16());
    lemma_type_code_round_trip(q.qtype);
    assert(Class::spec_from_u16(q.qclass.spec_u16()) == Some(q.qclass));
    assert(b.len() >= n + 4);
    assert(spec_question_bytes(q).len() == n + 4);
}

} // verus!
