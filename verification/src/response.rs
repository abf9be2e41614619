//! The response builder: wraps a captured query and appends typed
//! answer, authority and additional records, then materializes a
//! response message that mirrors the query.

use crate::classes::Class;
use crate::error::DnsError;
use crate::header::Header;
use crate::hostname::{
    lemma_split_labels_bytes_len, lemma_split_props, spec_accepted_hostname,
    spec_ends_compressed, spec_name_bytes, spec_split, spec_split_name, spec_valid_hostname,
    Hostname, Label, LabelV,
};
use crate::message::{Message, MessageV};
use crate::question::Question;
use crate::resource_record::{ResourceRecord, ResourceRecordV};
use crate::types::Type;
use vstd::prelude::*;
use vstd::string::StringSliceAdditionalSpecFns;
use vstd::utf8::encode_utf8;

verus! {

/// A response under construction: the captured query, the records to
/// attach, and the flags the response will carry.
///
/// The authoritative-answer and recursion-available bits default to set,
/// which makes a forged response more believable.
#[derive(Debug, PartialEq, Eq)]
pub struct Response {
    pub query: Message,
    pub rcode: u8,
    pub answers: Vec<ResourceRecord>,
    pub authorities: Vec<ResourceRecord>,
    pub additionals: Vec<ResourceRecord>,
    pub authoritative_answer: bool,
    pub recursion_available: bool,
}

/// A typed record to attach to a response.
#[derive(Clone)]
pub enum Record {
    A(ARecord),
    NS(NSRecord),
}

/// An address record: four IPv4 octets for a name.
#[derive(Clone)]
pub struct ARecord {
    pub name: String,
    pub ttl: u32,
    pub ip: [u8; 4],
}

/// A nameserver record: the authoritative server for a name.
#[derive(Clone)]
pub struct NSRecord {
    pub name: String,
    pub ttl: u32,
    pub ns: String,
}

/// Mathematical model of an address record.
pub struct ARecordV {
    pub name: Seq<char>,
    pub ttl: u32,
    pub ip: Seq<u8>,
}

/// Mathematical model of a nameserver record.
pub struct NSRecordV {
    pub name: Seq<char>,
    pub ttl: u32,
    pub ns: Seq<char>,
}

/// Mathematical model of a typed record.
pub enum RecordV {
    A(ARecordV),
    NS(NSRecordV),
}

impl View for ARecord {
    type V = ARecordV;

    open spec fn view(&self) -> ARecordV {
        ARecordV { name: self.name@, ttl: self.ttl, ip: self.ip@ }
    }
}

impl View for NSRecord {
    type V = NSRecordV;

    open spec fn view(&self) -> NSRecordV {
        NSRecordV { name: self.name@, ttl: self.ttl, ns: self.ns@ }
    }
}

impl View for Record {
    type V = RecordV;

    open spec fn view(&self) -> RecordV {
        match self {
            Record::A(a) => RecordV::A(a@),
            Record::NS(n) => RecordV::NS(n@),
        }
    }
}

/// Mathematical model of a response builder.
pub struct ResponseV {
    pub query: MessageV,
    pub rcode: u8,
    pub answers: Seq<ResourceRecordV>,
    pub authorities: Seq<ResourceRecordV>,
    pub additionals: Seq<ResourceRecordV>,
    pub authoritative_answer: bool,
    pub recursion_available: bool,
}

impl View for Response {
    type V = ResponseV;

    open spec fn view(&self) -> ResponseV {
        ResponseV {
            query: self.query@,
            rcode: self.rcode,
            answers: self.answers@.map_values(|r: ResourceRecord| r@),
            authorities: self.authorities@.map_values(|r: ResourceRecord| r@),
            additionals: self.additionals@.map_values(|r: ResourceRecord| r@),
            authoritative_answer: self.authoritative_answer,
            recursion_available: self.recursion_available,
        }
    }
}

/// The generic record an address record converts to: the four octets as
/// RDATA under type A, class IN.  Fails on an invalid name.
pub open spec fn spec_a_to_rr(a: ARecordV) -> Result<ResourceRecordV, DnsError> {
    if spec_accepted_hostname(encode_utf8(a.name)) {
        Ok(
            ResourceRecordV {
                name: spec_split_name(encode_utf8(a.name)),
                rtype: Type::A,
                class: Class::IN,
                ttl: a.ttl,
                rdlength: 4,
                rdata: a.ip,
            },
        )
    } else {
        Err(DnsError::InvalidHostname)
    }
}

/// The generic record a nameserver record converts to: the encoded
/// nameserver hostname as RDATA under type NS, class IN.  Fails on an
/// invalid nameserver or name.
pub open spec fn spec_ns_to_rr(n: NSRecordV) -> Result<ResourceRecordV, DnsError> {
    if !spec_accepted_hostname(encode_utf8(n.ns)) {
        Err(DnsError::InvalidHostname)
    } else if !spec_accepted_hostname(encode_utf8(n.name)) {
        Err(DnsError::InvalidHostname)
    } else {
        let rdata = spec_name_bytes(spec_split_name(encode_utf8(n.ns)));
        Ok(
            ResourceRecordV {
                name: spec_split_name(encode_utf8(n.name)),
                rtype: Type::NS,
                class: Class::IN,
                ttl: n.ttl,
                rdlength: rdata.len() as u16,
                rdata,
            },
        )
    }
}

/// The generic record a typed record converts to.
pub open spec fn spec_record_to_rr(r: RecordV) -> Result<ResourceRecordV, DnsError> {
    match r {
        RecordV::A(a) => spec_a_to_rr(a),
        RecordV::NS(n) => spec_ns_to_rr(n),
    }
}

/// The encoded form of a valid hostname is two bytes longer than its
/// text: one length prefix per extra label, and the terminator.
pub proof fn lemma_valid_name_bytes_len(s: Seq<u8>)
    requires
        spec_valid_hostname(s),
    ensures
        spec_name_bytes(spec_split_name(s)).len() == s.len() + 2,
{
    lemma_split_props(s);
    lemma_split_labels_bytes_len(spec_split(s));
    let ls = spec_split_name(s);
    assert(ls.len() == spec_split(s).len());
    assert(ls[ls.len() - 1] is Normal);
    assert(!spec_ends_compressed(ls));
}

impl ARecord {
    /// Converts to a generic resource record with the octets as RDATA.
    pub fn to_rr(&self) -> (r: Result<ResourceRecord, DnsError>)
        ensures
            match r {
                Ok(rr) => spec_a_to_rr(self@) == Ok::<ResourceRecordV, DnsError>(rr@),
                Err(e) => spec_a_to_rr(self@) == Err::<ResourceRecordV, DnsError>(e),
            },
    {
        let name = Hostname::from_string(self.name.as_str())?;
        let mut rdata: Vec<u8> = Vec::new();
        rdata.push(self.ip[0]);
        rdata.push(self.ip[1]);
        rdata.push(self.ip[2]);
        rdata.push(self.ip[3]);
        proof {
            assert(rdata@ =~= self.ip@);
        }
        Ok(
            ResourceRecord {
                name,
                rtype: Type::A,
                class: Class::IN,
                ttl: self.ttl,
                rdlength: 4,
                rdata,
            },
        )
    }
}

impl NSRecord {
    /// Converts to a generic resource record with the encoded nameserver
    /// hostname as RDATA.
    pub fn to_rr(&self) -> (r: Result<ResourceRecord, DnsError>)
        ensures
            match r {
                Ok(rr) => spec_ns_to_rr(self@) == Ok::<ResourceRecordV, DnsError>(rr@),
                Err(e) => spec_ns_to_rr(self@) == Err::<ResourceRecordV, DnsError>(e),
            },
    {
        let ns_hostname = Hostname::from_string(self.ns.as_str())?;
        let ns_bytes = ns_hostname.to_bytes();
        let name = Hostname::from_string(self.name.as_str())?;
        proof {
            lemma_valid_name_bytes_len(encode_utf8(self@.ns));
        }
        let rdlength = ns_bytes.len() as u16;
        Ok(
            ResourceRecord {
                name,
                rtype: Type::NS,
                class: Class::IN,
                ttl: self.ttl,
                rdlength,
                rdata: ns_bytes,
            },
        )
    }
}

impl Record {
    /// Converts to a generic resource record.
    pub fn to_rr(&self) -> (r: Result<ResourceRecord, DnsError>)
        ensures
            match r {
                Ok(rr) => spec_record_to_rr(self@) == Ok::<ResourceRecordV, DnsError>(rr@),
                Err(e) => spec_record_to_rr(self@) == Err::<ResourceRecordV, DnsError>(e),
            },
    {
        match self {
            Record::A(record) => record.to_rr(),
            Record::NS(record) => record.to_rr(),
        }
    }
}

/// The message a response materializes to: the query's header with the
/// response bits applied, the query's questions, and the attached
/// records with matching counts.
pub open spec fn spec_response_message(r: ResponseV) -> MessageV {
    MessageV {
        header: Header {
            id: r.query.header.id,
            qr: true,
            opcode: r.query.header.opcode,
            aa: r.authoritative_answer,
            tc: r.query.header.tc,
            rd: r.query.header.rd,
            ra: r.recursion_available,
            z: r.query.header.z,
            rcode: r.rcode,
            qdcount: r.query.header.qdcount,
            ancount: r.answers.len() as u16,
            nscount: r.authorities.len() as u16,
            arcount: r.additionals.len() as u16,
        },
        questions: r.query.questions,
        answers: r.answers,
        authorities: r.authorities,
        additionals: r.additionals,
    }
}

impl Response {
    /// Wraps a captured query with no records yet, a zero response code,
    /// and the authoritative-answer and recursion-available bits set.
    pub fn new(query: Message) -> (r: Response)
        ensures
            r.query == query,
            r.rcode == 0,
            r.answers@.len() == 0,
            r.authorities@.len() == 0,
            r.additionals@.len() == 0,
            r.authoritative_answer == true,
            r.recursion_available == true,
    {
        Response {
            query,
            rcode: 0,
            answers: Vec::new(),
            authorities: Vec::new(),
            additionals: Vec::new(),
            authoritative_answer: true,
            recursion_available: true,
        }
    }

    /// Appends the record to the answer section.
    pub fn add_answer(&mut self, record: Record) -> (r: Result<(), DnsError>)
        ensures
            match r {
                Ok(_) => spec_record_to_rr(record@) matches Ok(rr) && final(self)@ == ResponseV {
                    answers: old(self)@.answers.push(rr),
                    ..old(self)@
                },
                Err(e) => spec_record_to_rr(record@) == Err::<ResourceRecordV, DnsError>(e)
                    && final(self)@ == old(self)@,
            },
    {
        let rr = record.to_rr()?;
        self.answers.push(rr);
        proof {
            assert(self@.answers =~= old(self)@.answers.push(
                spec_record_to_rr(record@)->Ok_0,
            ));
        }
        Ok(())
    }

    /// Appends the record to the authority section.
    pub fn add_authority(&mut self, record: Record) -> (r: Result<(), DnsError>)
        ensures
            match r {
                Ok(_) => spec_record_to_rr(record@) matches Ok(rr) && final(self)@ == ResponseV {
                    authorities: old(self)@.authorities.push(rr),
                    ..old(self)@
                },
                Err(e) => spec_record_to_rr(record@) == Err::<ResourceRecordV, DnsError>(e)
                    && final(self)@ == old(self)@,
            },
    {
        let rr = record.to_rr()?;
        self.authorities.push(rr);
        proof {
            assert(self@.authorities =~= old(self)@.authorities.push(
                spec_record_to_rr(record@)->Ok_0,
            ));
        }
        Ok(())
    }

    /// Appends the record to the additional section.
    pub fn add_additional(&mut self, record: Record) -> (r: Result<(), DnsError>)
        ensures
            match r {
                Ok(_) => spec_record_to_rr(record@) matches Ok(rr) && final(self)@ == ResponseV {
                    additionals: old(self)@.additionals.push(rr),
                    ..old(self)@
                },
                Err(e) => spec_record_to_rr(record@) == Err::<ResourceRecordV, DnsError>(e)
                    && final(self)@ == old(self)@,
            },
    {
        let rr = record.to_rr()?;
        self.additionals.push(rr);
        proof {
            assert(self@.additionals =~= old(self)@.additionals.push(
                spec_record_to_rr(record@)->Ok_0,
            ));
        }
        Ok(())
    }

    /// Materializes the response message: the query's header with the
    /// response bits applied, its questions, and the attached records.
    pub fn to_message(&self) -> (r: Result<Message, DnsError>)
        requires
            self.answers@.len() <= 0xffff,
            self.authorities@.len() <= 0xffff,
            self.additionals@.len() <= 0xffff,
        ensures
            match r {
                Ok(m) => m@ == spec_response_message(self@),
                Err(_) => false,
            },
    {
        let mut header = self.query.header;
        let questions = copy_questions(&self.query.questions);
        header.qr = true;
        header.aa = self.authoritative_answer;
        header.ra = self.recursion_available;
        header.rcode = self.rcode;
        header.ancount = self.answers.len() as u16;
        header.nscount = self.authorities.len() as u16;
        header.arcount = self.additionals.len() as u16;
        let m = Message {
            header,
            questions,
            answers: copy_records(&self.answers),
            authorities: copy_records(&self.authorities),
            additionals: copy_records(&self.additionals),
        };
        Ok(m)
    }
}

/// A response built fresh from a query mirrors it: the materialized
/// message keeps the query's id and questions, sets the QR bit, carries
/// the builder's default authoritative-answer and recursion-available
/// bits, and has empty record sections.
pub proof fn lemma_response_mirrors_query(q: MessageV)
    ensures
        ({
            let r = ResponseV {
                query: q,
                rcode: 0,
                answers: seq![],
                authorities: seq![],
                additionals: seq![],
                authoritative_answer: true,
                recursion_available: true,
            };
            let m = spec_response_message(r);
            m.header.qr == true && m.header.aa == true && m.header.ra == true && m.header.id
                == q.header.id && m.questions == q.questions && m.header.ancount == 0
                && m.header.nscount == 0 && m.header.arcount == 0 && m.answers.len() == 0
                && m.authorities.len() == 0 && m.additionals.len() == 0
        }),
{
}

/// A copy of a hostname with the same model.
fn copy_hostname(h: &Hostname) -> (r: Hostname)
    ensures
        r@ == h@,
{
    let mut labels: Vec<Label> = Vec::new();
    let mut i: usize = 0;
    while i < h.0.len()
        invariant
            i <= h.0@.len(),
            labels@.map_values(|l: Label| l@) =~= h@.take(i as int),
        decreases h.0@.len() - i,
    {
        let copied = match &h.0[i] {
            Label::NORMAL(l) => Label::NORMAL(
                crate::hostname::HostnameLabel {
                    length: l.length,
                    label: vstd::slice::slice_to_vec(l.label.as_slice()),
                },
            ),
            Label::COMPRESSED(c) => Label::COMPRESSED(*c),
        };
        proof {
            assert(copied@ == h.0@[i as int]@);
            assert(h@[i as int] == h.0@[i as int]@);
        }
        labels.push(copied);
        proof {
            assert(h@.take(i + 1) =~= h@.take(i as int).push(h@[i as int]));
            assert(labels@.map_values(|l: Label| l@) =~= h@.take(i + 1));
        }
        i = i + 1;
    }
    let r = Hostname(labels);
    proof {
        assert(h@.take(h.0@.len() as int) =~= h@);
        assert(r@ =~= h@);
    }
    r
}

/// A copy of a question list with the same models.
fn copy_questions(qs: &Vec<Question>) -> (r: Vec<Question>)
    ensures
        r@.map_values(|q: Question| q@) == qs@.map_values(|q: Question| q@),
{
    let mut out: Vec<Question> = Vec::new();
    let mut i: usize = 0;
    while i < qs.len()
        invariant
            i <= qs@.len(),
            out@.map_values(|q: Question| q@) =~= qs@.map_values(|q: Question| q@).take(i as int),
        decreases qs@.len() - i,
    {
        let q = &qs[i];
        let copied = Question { qname: copy_hostname(&q.qname), qtype: q.qtype, qclass: q.qclass };
        proof {
            assert(copied@ == qs@[i as int]@);
        }
        out.push(copied);
        proof {
            let m = qs@.map_values(|q2: Question| q2@);
            assert(m[i as int] == qs@[i as int]@);
            assert(m.take(i + 1) =~= m.take(i as int).push(m[i as int]));
            assert(out@.map_values(|q2: Question| q2@) =~= m.take(i + 1));
        }
        i = i + 1;
    }
    proof {
        let m = qs@.map_values(|q: Question| q@);
        assert(m.take(m.len() as int) =~= m);
    }
    out
}

/// A copy of a record list with the same models.
fn copy_records(rs: &Vec<ResourceRecord>) -> (r: Vec<ResourceRecord>)
    ensures
        r@.map_values(|x: ResourceRecord| x@) == rs@.map_values(|x: ResourceRecord| x@),
{
    let mut out: Vec<ResourceRecord> = Vec::new();
    let mut i: usize = 0;
    while i < rs.len()
        invariant
            i <= rs@.len(),
            out@.map_values(|x: ResourceRecord| x@) =~= rs@.map_values(
                |x: ResourceRecord| x@,
            ).take(i as int),
        decreases rs@.len() - i,
    {
        let x = &rs[i];
        let copied = ResourceRecord {
            name: copy_hostname(&x.name),
            rtype: x.rtype,
            class: x.class,
            ttl: x.ttl,
            rdlength: x.rdlength,
            rdata: vstd::slice::slice_to_vec(x.rdata.as_slice()),
        };
        proof {
            assert(copied@ == rs@[i as int]@);
        }
        out.push(copied);
        proof {
            let m = rs@.map_values(|x2: ResourceRecord| x2@);
            assert(m[i as int] == rs@[i as int]@);
            assert(m.take(i + 1) =~= m.take(i as int).push(m[i as int]));
            assert(out@.map_values(|x2: ResourceRecord| x2@) =~= m.take(i + 1));
        }
        i = i + 1;
    }
    proof {
        let m = rs@.map_values(|x: ResourceRecord| x@);
        assert(m.take(m.len() as int) =~= m);
    }
    out
}

} // verus!
