//! The query builder: one question per hostname, a randomized
//! transaction id, and query-shaped header flags.

use crate::classes::Class;
use crate::error::DnsError;
use crate::header::{Header, Opcode};
use crate::hostname::{spec_accepted_hostname, spec_split_name, Hostname};
use crate::message::{Message, MessageV};
use crate::question::{Question, QuestionV};
use crate::types::Type;
use vstd::prelude::*;
use vstd::string::StringSliceAdditionalSpecFns;
use vstd::utf8::encode_utf8;

verus! {

/// Relies on `rand::random`: draws a value of the target type from the
/// thread-local generator.  Nothing can be promised of the value.
pub assume_specification<T>[ rand::random::<T> ]() -> (r: T)
    where
        rand::distributions::Standard: rand::distributions::Distribution<T>,
;

/// A DNS query under construction: the hostnames to ask about and the
/// options that shape the message header.
pub struct Query {
    pub hostnames: Vec<String>,
    pub qtype: Type,
    pub opcode: Opcode,
    pub recursion_desired: bool,
}

/// Mathematical model of a query.
pub struct QueryV {
    pub hostnames: Seq<Seq<char>>,
    pub qtype: Type,
    pub opcode: Opcode,
    pub recursion_desired: bool,
}

impl View for Query {
    type V = QueryV;

    open spec fn view(&self) -> QueryV {
        QueryV {
            hostnames: self.hostnames@.map_values(|s: String| s@),
            qtype: self.qtype,
            opcode: self.opcode,
            recursion_desired: self.recursion_desired,
        }
    }
}

/// Whether the query builder accepts these hostnames: no more than a
/// 16-bit count can describe, and every one RFC 1123 valid with labels
/// of 1 to 63 bytes.
pub open spec fn spec_query_check(hostnames: Seq<Seq<char>>) -> Result<(), DnsError> {
    if hostnames.len() > 0xffff {
        Err(DnsError::TooManyHostnames)
    } else if exists|k: int|
        0 <= k < hostnames.len() && !spec_accepted_hostname(encode_utf8(#[trigger] hostnames[k])) {
        Err(DnsError::InvalidHostname)
    } else {
        Ok(())
    }
}

/// The message a query builds, given the transaction id: a query header
/// with the builder's opcode and recursion flag, one IN question per
/// hostname, and no records.
pub open spec fn spec_query_message(q: QueryV, id: u16) -> MessageV {
    MessageV {
        header: Header {
            id,
            qr: false,
            opcode: q.opcode,
            aa: false,
            tc: false,
            rd: q.recursion_desired,
            ra: false,
            z: 0,
            rcode: 0,
            qdcount: q.hostnames.len() as u16,
            ancount: 0,
            nscount: 0,
            arcount: 0,
        },
        questions: q.hostnames.map_values(
            |s: Seq<char>| QuestionV {
                qname: spec_split_name(encode_utf8(s)),
                qtype: q.qtype,
                qclass: Class::IN,
            },
        ),
        answers: seq![],
        authorities: seq![],
        additionals: seq![],
    }
}

impl Query {
    /// A query for the given hostnames with the default options: type A,
    /// the QUERY opcode, recursion desired.
    pub fn new(hostnames: Vec<String>) -> (r: Query)
        ensures
            r.hostnames == hostnames,
            r.qtype == Type::A,
            r.opcode == Opcode::QUERY,
            r.recursion_desired == true,
    {
        Query { hostnames, qtype: Type::A, opcode: Opcode::QUERY, recursion_desired: true }
    }

    /// Builds the query message around the given transaction id.
    #[verifier::loop_isolation(false)]
    pub fn to_message_with_id(&self, id: u16) -> (r: Result<Message, DnsError>)
        ensures
            match r {
                Ok(m) => spec_query_check(self@.hostnames) == Ok::<(), DnsError>(()) && m@
                    == spec_query_message(self@, id),
                Err(e) => spec_query_check(self@.hostnames) == Err::<(), DnsError>(e),
            },
    {
        if self.hostnames.len() > 0xffff {
            return Err(DnsError::TooManyHostnames);
        }
        let ghost goal = spec_query_message(self@, id).questions;
        let mut questions: Vec<Question> = Vec::new();
        let mut i: usize = 0;
        while i < self.hostnames.len()
            invariant
                i <= self.hostnames@.len(),
                forall|k: int|
                    0 <= k < i ==> spec_accepted_hostname(
                        encode_utf8(#[trigger] self@.hostnames[k]),
                    ),
                questions@.map_values(|q: Question| q@) =~= goal.take(i as int),
            decreases self.hostnames@.len() - i,
        {
            let qname = match Hostname::from_string(self.hostnames[i].as_str()) {
                Err(e) => {
                    proof {
                        assert(!spec_accepted_hostname(encode_utf8(self@.hostnames[i as int])));
                    }
                    return Err(e);
                },
                Ok(h) => h,
            };
            questions.push(Question { qname, qtype: self.qtype, qclass: Class::IN });
            proof {
                assert(goal[i as int] == QuestionV {
                    qname: spec_split_name(encode_utf8(self@.hostnames[i as int])),
                    qtype: self@.qtype,
                    qclass: Class::IN,
                });
                assert(goal.take(i + 1) =~= goal.take(i as int).push(goal[i as int]));
                assert(questions@.map_values(|q: Question| q@) =~= goal.take(i + 1));
            }
            i = i + 1;
        }
        let qdcount = self.hostnames.len() as u16;
        let header = Header {
            id,
            qr: false,
            opcode: self.opcode,
            aa: false,
            tc: false,
            rd: self.recursion_desired,
            ra: false,
            z: 0,
            rcode: 0,
            qdcount,
            ancount: 0,
            nscount: 0,
            arcount: 0,
        };
        let m = Message {
            header,
            questions,
            answers: Vec::new(),
            authorities: Vec::new(),
            additionals: Vec::new(),
        };
        proof {
            assert(goal.take(goal.len() as int) =~= goal);
            assert(m@.questions == spec_query_message(self@, id).questions);
            assert(m@.answers =~= spec_query_message(self@, id).answers);
            assert(m@.authorities =~= spec_query_message(self@, id).authorities);
            assert(m@.additionals =~= spec_query_message(self@, id).additionals);
        }
        Ok(m)
    }

    /// Builds the query message with a freshly drawn random transaction
    /// id.
    pub fn to_message(&self) -> (r: Result<Message, DnsError>)
        ensures
            match r {
                Ok(m) => spec_query_check(self@.hostnames) == Ok::<(), DnsError>(()) && exists|
                    id: u16,
                | m@ == spec_query_message(self@, id),
                Err(e) => spec_query_check(self@.hostnames) == Err::<(), DnsError>(e),
            },
    {
        let id = rand::random::<u16>();
        let r = self.to_message_with_id(id);
        proof {
            match &r {
                Ok(m) => {
                    assert(m@ == spec_query_message(self@, id));
                },
                Err(_) => {},
            }
        }
        r
    }
}

} // verus!
