//! Full DNS messages: a 12-byte header followed by the question, answer,
//! authority and additional sections, in that order.

use crate::be_bytes::push_bytes;
use crate::error::DnsError;
use crate::header::{
    lemma_header_round_trip, spec_header_bytes, spec_parse_header, Header,
};
use crate::question::{
    lemma_question_round_trip, spec_parse_question, spec_question_bytes, wf_question, Question,
    QuestionV,
};
use crate::resource_record::{
    lemma_rr_round_trip, spec_parse_rr, spec_rr_bytes, wf_rr, ResourceRecord, ResourceRecordV,
};
use vstd::prelude::*;

verus! {

/// DNS answer section entry, a resource record.
pub type Answer = ResourceRecord;

/// DNS authority section entry, a resource record.
pub type Authority = ResourceRecord;

/// DNS additional section entry, a resource record.
pub type Additional = ResourceRecord;

/// DNS message format as specified in RFC 1035.
#[derive(Clone, Debug, PartialEq, Eq)]
pub struct Message {
    pub header: Header,
    pub questions: Vec<Question>,
    pub answers: Vec<ResourceRecord>,
    pub authorities: Vec<ResourceRecord>,
    pub additionals: Vec<ResourceRecord>,
}

/// Mathematical model of a message.
pub struct MessageV {
    pub header: Header,
    pub questions: Seq<QuestionV>,
    pub answers: Seq<ResourceRecordV>,
    pub authorities: Seq<ResourceRecordV>,
    pub additionals: Seq<ResourceRecordV>,
}

impl View for Message {
    type V = MessageV;

    open spec fn view(&self) -> MessageV {
        MessageV {
            header: self.header,
            questions: self.questions@.map_values(|q: Question| q@),
            answers: self.answers@.map_values(|r: ResourceRecord| r@),
            authorities: self.authorities@.map_values(|r: ResourceRecord| r@),
            additionals: self.additionals@.map_values(|r: ResourceRecord| r@),
        }
    }
}

// ---------------------------------------------------------------------------
// Wire encoding
// ---------------------------------------------------------------------------

/// The concatenated wire bytes of a question section.
pub open spec fn spec_questions_bytes(qs: Seq<QuestionV>) -> Seq<u8>
    decreases qs.len(),
{
    if qs.len() == 0 {
        Seq::empty()
    } else {
        spec_question_bytes(qs[0]) + spec_questions_bytes(qs.skip(1))
    }
}

/// The concatenated wire bytes of a resource record section.
pub open spec fn spec_rrs_bytes(rs: Seq<ResourceRecordV>) -> Seq<u8>
    decreases rs.len(),
{
    if rs.len() == 0 {
        Seq::empty()
    } else {
        spec_rr_bytes(rs[0]) + spec_rrs_bytes(rs.skip(1))
    }
}

/// The wire form of a message: header bytes, then the four sections.
pub open spec fn spec_message_bytes(m: MessageV) -> Seq<u8> {
    spec_header_bytes(m.header) + spec_questions_bytes(m.questions) + spec_rrs_bytes(m.answers)
        + spec_rrs_bytes(m.authorities) + spec_rrs_bytes(m.additionals)
}

/// Appending a question appends its bytes.
pub proof fn lemma_questions_bytes_push(qs: Seq<QuestionV>, q: QuestionV)
    ensures
        spec_questions_bytes(qs.push(q)) == spec_questions_bytes(qs) + spec_question_bytes(q),
    decreases qs.len(),
{
    if qs.len() == 0 {
        assert(qs.push(q)[0] == q);
        assert(qs.push(q).skip(1) =~= Seq::<QuestionV>::empty());
        assert(spec_questions_bytes(qs.push(q)) == spec_question_bytes(q)
            + spec_questions_bytes(Seq::<QuestionV>::empty()));
        assert(spec_questions_bytes(qs.push(q)) =~= spec_questions_bytes(qs)
            + spec_question_bytes(q));
    } else {
        lemma_questions_bytes_push(qs.skip(1), q);
        assert(qs.push(q).skip(1) =~= qs.skip(1).push(q));
        assert(qs.push(q)[0] == qs[0]);
        assert(spec_questions_bytes(qs.push(q)) =~= spec_questions_bytes(qs)
            + spec_question_bytes(q));
    }
}

/// Appending a record appends its bytes.
pub proof fn lemma_rrs_bytes_push(rs: Seq<ResourceRecordV>, r: ResourceRecordV)
    ensures
        spec_rrs_bytes(rs.push(r)) == spec_rrs_bytes(rs) + spec_rr_bytes(r),
    decreases rs.len(),
{
    if rs.len() == 0 {
        assert(rs.push(r)[0] == r);
        assert(rs.push(r).skip(1) =~= Seq::<ResourceRecordV>::empty());
        assert(spec_rrs_bytes(rs.push(r)) == spec_rr_bytes(r) + spec_rrs_bytes(
            Seq::<ResourceRecordV>::empty(),
        ));
        assert(spec_rrs_bytes(rs.push(r)) =~= spec_rrs_bytes(rs) + spec_rr_bytes(r));
    } else {
        lemma_rrs_bytes_push(rs.skip(1), r);
        assert(rs.push(r).skip(1) =~= rs.skip(1).push(r));
        assert(rs.push(r)[0] == rs[0]);
        assert(spec_rrs_bytes(rs.push(r)) =~= spec_rrs_bytes(rs) + spec_rr_bytes(r));
    }
}

// ---------------------------------------------------------------------------
// Wire decoding
// ---------------------------------------------------------------------------

/// Decoding `n` questions from the front of `b`.
pub open spec fn spec_parse_questions(b: Seq<u8>, n: nat) -> Result<(Seq<QuestionV>, int), DnsError>
    decreases n,
{
    if n == 0 {
        Ok((seq![], 0))
    } else {
        match spec_parse_question(b) {
            Err(e) => Err(e),
            Ok((q, k)) => match spec_parse_questions(b.skip(k), (n - 1) as nat) {
                Err(e) => Err(e),
                Ok((qs, m)) => Ok((seq![q] + qs, k + m)),
            },
        }
    }
}

/// Decoding `n` resource records from the front of `b`.
pub open spec fn spec_parse_rrs(b: Seq<u8>, n: nat) -> Result<
    (Seq<ResourceRecordV>, int),
    DnsError,
>
    decreases n,
{
    if n == 0 {
        Ok((seq![], 0))
    } else {
        match spec_parse_rr(b) {
            Err(e) => Err(e),
            Ok((r, k)) => match spec_parse_rrs(b.skip(k), (n - 1) as nat) {
                Err(e) => Err(e),
                Ok((rs, m)) => Ok((seq![r] + rs, k + m)),
            },
        }
    }
}

/// The three record sections after the question section.
pub open spec fn spec_parse_tail2(b: Seq<u8>, h: Header, qs: Seq<QuestionV>, ans: Seq<
    ResourceRecordV,
>) -> Result<MessageV, DnsError> {
    match spec_parse_rrs(b, h.nscount as nat) {
        Err(e) => Err(e),
        Ok((auth, n3)) => match spec_parse_rrs(b.skip(n3), h.arcount as nat) {
            Err(e) => Err(e),
            Ok((add, _)) => Ok(
                MessageV {
                    header: h,
                    questions: qs,
                    answers: ans,
                    authorities: auth,
                    additionals: add,
                },
            ),
        },
    }
}

/// The sections of a message after its header.
pub open spec fn spec_parse_tail(b: Seq<u8>, h: Header) -> Result<MessageV, DnsError> {
    match spec_parse_questions(b, h.qdcount as nat) {
        Err(e) => Err(e),
        Ok((qs, n1)) => match spec_parse_rrs(b.skip(n1), h.ancount as nat) {
            Err(e) => Err(e),
            Ok((ans, n2)) => spec_parse_tail2(b.skip(n1 + n2), h, qs, ans),
        },
    }
}

/// Decoding a whole message: header counts drive the section parses; any
/// trailing bytes are ignored.
pub open spec fn spec_parse_message(b: Seq<u8>) -> Result<MessageV, DnsError> {
    match spec_parse_header(b) {
        Err(e) => Err(e),
        Ok(h) => spec_parse_tail(b.skip(12), h),
    }
}

impl Message {
    /// A message with the given header and empty sections.
    pub fn new(header: Header) -> (r: Message)
        ensures
            r.header == header,
            r.questions@.len() == 0,
            r.answers@.len() == 0,
            r.authorities@.len() == 0,
            r.additionals@.len() == 0,
    {
        Message {
            header,
            questions: Vec::new(),
            answers: Vec::new(),
            authorities: Vec::new(),
            additionals: Vec::new(),
        }
    }

    /// The wire bytes of the message: the header, then every section
    /// entry in order.
    pub fn to_bytes(&self) -> (r: Vec<u8>)
        ensures
            r@ == spec_message_bytes(self@),
    {
        let mut bytes: Vec<u8> = Vec::new();
        let header_bytes = self.header.to_bytes();
        push_bytes(&mut bytes, header_bytes.as_slice());
        let mut i: usize = 0;
        proof {
            assert(self@.questions.take(0) =~= Seq::<QuestionV>::empty());
        }
        while i < self.questions.len()
            invariant
                i <= self.questions@.len(),
                self@.questions.len() == self.questions@.len(),
                bytes@ == spec_header_bytes(self.header) + spec_questions_bytes(
                    self@.questions.take(i as int),
                ),
            decreases self.questions@.len() - i,
        {
            let qb = self.questions[i].to_bytes();
            push_bytes(&mut bytes, qb.as_slice());
            proof {
                lemma_questions_bytes_push(self@.questions.take(i as int), self@.questions[i as int]);
                assert(self@.questions.take(i + 1) =~= self@.questions.take(i as int).push(
                    self@.questions[i as int],
                ));
                assert(bytes@ =~= spec_header_bytes(self.header) + spec_questions_bytes(
                    self@.questions.take(i + 1),
                ));
            }
            i = i + 1;
        }
        proof {
            assert(self@.questions.take(self.questions@.len() as int) =~= self@.questions);
        }
        push_rr_section(&mut bytes, &self.answers);
        push_rr_section(&mut bytes, &self.authorities);
        push_rr_section(&mut bytes, &self.additionals);
        proof {
            assert(bytes@ =~= spec_message_bytes(self@));
        }
        bytes
    }

    /// Decodes a message: the header, then as many section entries as the
    /// header counts call for.  Trailing bytes are ignored.
    pub fn parse(buffer: &[u8]) -> (r: Result<Message, DnsError>)
        ensures
            match r {
                Ok(m) => spec_parse_message(buffer@) == Ok::<MessageV, DnsError>(m@),
                Err(e) => spec_parse_message(buffer@) == Err::<MessageV, DnsError>(e),
            },
    {
        let parsed_header = match Header::parse(buffer) {
            Err(e) => {
                return Err(e);
            },
            Ok(p) => p,
        };
        let header = parsed_header.header;
        let start: usize = parsed_header.parsed_bytes;
        let (questions, off1) = match parse_question_section(buffer, start, header.qdcount) {
            Err(e) => {
                return Err(e);
            },
            Ok(x) => x,
        };
        proof {
            assert(buffer@.skip(12).skip(off1 - 12) =~= buffer@.skip(off1 as int));
        }
        let (answers, off2) = match parse_rr_section(buffer, off1, header.ancount) {
            Err(e) => {
                return Err(e);
            },
            Ok(x) => x,
        };
        proof {
            assert(buffer@.skip(12).skip(off2 - 12) =~= buffer@.skip(off2 as int));
        }
        let (authorities, off3) = match parse_rr_section(buffer, off2, header.nscount) {
            Err(e) => {
                return Err(e);
            },
            Ok(x) => x,
        };
        proof {
            assert(buffer@.skip(off2 as int).skip(off3 - off2) =~= buffer@.skip(off3 as int));
        }
        let (additionals, _off4) = match parse_rr_section(buffer, off3, header.arcount) {
            Err(e) => {
                return Err(e);
            },
            Ok(x) => x,
        };
        let m = Message { header, questions, answers, authorities, additionals };
        Ok(m)
    }
}

/// Appends the wire bytes of every record in `rs`.
fn push_rr_section(out: &mut Vec<u8>, rs: &Vec<ResourceRecord>)
    ensures
        final(out)@ == old(out)@ + spec_rrs_bytes(rs@.map_values(|r: ResourceRecord| r@)),
{
    let ghost rsv = rs@.map_values(|r: ResourceRecord| r@);
    let mut i: usize = 0;
    proof {
        assert(rsv.take(0) =~= Seq::<ResourceRecordV>::empty());
        assert(out@ =~= old(out)@ + spec_rrs_bytes(rsv.take(0)));
    }
    while i < rs.len()
        invariant
            i <= rs@.len(),
            rsv == rs@.map_values(|r: ResourceRecord| r@),
            rsv.len() == rs@.len(),
            out@ == old(out)@ + spec_rrs_bytes(rsv.take(i as int)),
        decreases rs@.len() - i,
    {
        let rb = rs[i].to_bytes();
        push_bytes(out, rb.as_slice());
        proof {
            lemma_rrs_bytes_push(rsv.take(i as int), rsv[i as int]);
            assert(rsv.take(i + 1) =~= rsv.take(i as int).push(rsv[i as int]));
            assert(out@ =~= old(out)@ + spec_rrs_bytes(rsv.take(i + 1)));
        }
        i = i + 1;
    }
    proof {
        assert(rsv.take(rs@.len() as int) =~= rsv);
    }
}

/// Decodes `count` questions starting at `start`, reporting the offset
/// just past the last one.
#[verifier::loop_isolation(false)]
fn parse_question_section(buffer: &[u8], start: usize, count: u16) -> (r: Result<
    (Vec<Question>, usize),
    DnsError,
>)
    requires
        start <= buffer@.len(),
    ensures
        match r {
            Ok((qs, end)) => spec_parse_questions(buffer@.skip(start as int), count as nat)
                == Ok::<(Seq<QuestionV>, int), DnsError>(
                (qs@.map_values(|q: Question| q@), end - start),
            ) && start <= end <= buffer@.len(),
            Err(e) => spec_parse_questions(buffer@.skip(start as int), count as nat)
                == Err::<(Seq<QuestionV>, int), DnsError>(e),
        },
{
    let mut questions: Vec<Question> = Vec::new();
    let mut off: usize = start;
    let mut c: u16 = 0;
    proof {
        assert(questions@.map_values(|q: Question| q@) =~= Seq::<QuestionV>::empty());
        match spec_parse_questions(buffer@.skip(start as int), count as nat) {
            Ok((qs2, n2)) => {
                assert(Seq::<QuestionV>::empty() + qs2 =~= qs2);
            },
            Err(_) => {},
        }
    }
    while c < count
        invariant
            c <= count,
            start <= off <= buffer@.len(),
            match spec_parse_questions(buffer@.skip(off as int), (count - c) as nat) {
                Ok((qs2, n2)) => spec_parse_questions(buffer@.skip(start as int), count as nat)
                    == Ok::<(Seq<QuestionV>, int), DnsError>(
                    (questions@.map_values(|q: Question| q@) + qs2, off - start + n2),
                ),
                Err(e) => spec_parse_questions(buffer@.skip(start as int), count as nat)
                    == Err::<(Seq<QuestionV>, int), DnsError>(e),
            },
        decreases count - c,
    {
        let ghost p = questions@.map_values(|q: Question| q@);
        let rest = vstd::slice::slice_subrange(buffer, off, buffer.len());
        proof {
            assert(rest@ =~= buffer@.skip(off as int));
        }
        let parsed = match Question::parse(rest) {
            Err(e) => {
                return Err(e);
            },
            Ok(p) => p,
        };
        let k = parsed.parsed_bytes as usize;
        proof {
            crate::question::lemma_parse_question_consumed(buffer@.skip(off as int));
            assert(buffer@.skip(off as int).skip(k as int) =~= buffer@.skip(off + k));
        }
        questions.push(parsed.question);
        proof {
            assert(questions@.map_values(|q: Question| q@) =~= p.push(parsed.question@));
            match spec_parse_questions(buffer@.skip(off + k), (count - c - 1) as nat) {
                Ok((qs2, n2)) => {
                    assert(p + (seq![parsed.question@] + qs2) =~= p.push(parsed.question@) + qs2);
                },
                Err(_) => {},
            }
        }
        off = off + k;
        c = c + 1;
    }
    proof {
        assert(questions@.map_values(|q: Question| q@) + Seq::<QuestionV>::empty()
            =~= questions@.map_values(|q: Question| q@));
    }
    Ok((questions, off))
}

/// Decodes `count` resource records starting at `start`, reporting the
/// offset just past the last one.
#[verifier::loop_isolation(false)]
fn parse_rr_section(buffer: &[u8], start: usize, count: u16) -> (r: Result<
    (Vec<ResourceRecord>, usize),
    DnsError,
>)
    requires
        start <= buffer@.len(),
    ensures
        match r {
            Ok((rs, end)) => spec_parse_rrs(buffer@.skip(start as int), count as nat)
                == Ok::<(Seq<ResourceRecordV>, int), DnsError>(
                (rs@.map_values(|x: ResourceRecord| x@), end - start),
            ) && start <= end <= buffer@.len(),
            Err(e) => spec_parse_rrs(buffer@.skip(start as int), count as nat)
                == Err::<(Seq<ResourceRecordV>, int), DnsError>(e),
        },
{
    let mut records: Vec<ResourceRecord> = Vec::new();
    let mut off: usize = start;
    let mut c: u16 = 0;
    proof {
        assert(records@.map_values(|x: ResourceRecord| x@) =~= Seq::<ResourceRecordV>::empty());
        match spec_parse_rrs(buffer@.skip(start as int), count as nat) {
            Ok((rs2, n2)) => {
                assert(Seq::<ResourceRecordV>::empty() + rs2 =~= rs2);
            },
            Err(_) => {},
        }
    }
    while c < count
        invariant
            c <= count,
            start <= off <= buffer@.len(),
            match spec_parse_rrs(buffer@.skip(off as int), (count - c) as nat) {
                Ok((rs2, n2)) => spec_parse_rrs(buffer@.skip(start as int), count as nat)
                    == Ok::<(Seq<ResourceRecordV>, int), DnsError>(
                    (records@.map_values(|x: ResourceRecord| x@) + rs2, off - start + n2),
                ),
                Err(e) => spec_parse_rrs(buffer@.skip(start as int), count as nat)
                    == Err::<(Seq<ResourceRecordV>, int), DnsError>(e),
            },
        decreases count - c,
    {
        let ghost p = records@.map_values(|x: ResourceRecord| x@);
        let rest = vstd::slice::slice_subrange(buffer, off, buffer.len());
        proof {
            assert(rest@ =~= buffer@.skip(off as int));
        }
        let parsed = match ResourceRecord::parse(rest) {
            Err(e) => {
                return Err(e);
            },
            Ok(p) => p,
        };
        let k = parsed.parsed_bytes as usize;
        proof {
            crate::resource_record::lemma_parse_rr_consumed(buffer@.skip(off as int));
            assert(buffer@.skip(off as int).skip(k as int) =~= buffer@.skip(off + k));
        }
        records.push(parsed.record);
        proof {
            assert(records@.map_values(|x: ResourceRecord| x@) =~= p.push(parsed.record@));
            match spec_parse_rrs(buffer@.skip(off + k), (count - c - 1) as nat) {
                Ok((rs2, n2)) => {
                    assert(p + (seq![parsed.record@] + rs2) =~= p.push(parsed.record@) + rs2);
                },
                Err(_) => {},
            }
        }
        off = off + k;
        c = c + 1;
    }
    proof {
        assert(records@.map_values(|x: ResourceRecord| x@) + Seq::<ResourceRecordV>::empty()
            =~= records@.map_values(|x: ResourceRecord| x@));
    }
    Ok((records, off))
}

// ---------------------------------------------------------------------------
// Round trip
// ---------------------------------------------------------------------------

/// A message whose encoding decodes back to itself: the reserved header
/// bits are zero, the four counts equal the section lengths, and every
/// entry is itself well formed.
pub open spec fn wf_message(m: MessageV) -> bool {
    &&& m.header.z == 0
    &&& m.header.rcode < 16
    &&& m.header.qdcount as int == m.questions.len()
    &&& m.header.ancount as int == m.answers.len()
    &&& m.header.nscount as int == m.authorities.len()
    &&& m.header.arcount as int == m.additionals.len()
    &&& forall|i: int| 0 <= i < m.questions.len() ==> wf_question(#[trigger] m.questions[i])
    &&& forall|i: int| 0 <= i < m.answers.len() ==> wf_rr(#[trigger] m.answers[i])
    &&& forall|i: int| 0 <= i < m.authorities.len() ==> wf_rr(#[trigger] m.authorities[i])
    &&& forall|i: int| 0 <= i < m.additionals.len() ==> wf_rr(#[trigger] m.additionals[i])
}

/// A well-formed question section decodes from its own encoding followed
/// by anything, consuming exactly its encoding.
pub proof fn lemma_questions_round_trip(qs: Seq<QuestionV>, ext: Seq<u8>)
    requires
        forall|i: int| 0 <= i < qs.len() ==> wf_question(#[trigger] qs[i]),
    ensures
        spec_parse_questions(spec_questions_bytes(qs) + ext, qs.len())
            == Ok::<(Seq<QuestionV>, int), DnsError>((qs, spec_questions_bytes(qs).len() as int)),
    decreases qs.len(),
{
    if qs.len() == 0 {
        assert(qs =~= Seq::<QuestionV>::empty());
    } else {
        let b = spec_questions_bytes(qs) + ext;
        let qb = spec_question_bytes(qs[0]);
        let restb = spec_questions_bytes(qs.skip(1));
        assert(b =~= qb + (restb + ext));
        lemma_question_round_trip(qs[0], restb + ext);
        assert(spec_parse_question(b) == Ok::<(QuestionV, int), DnsError>(
            (qs[0], qb.len() as int),
        ));
        assert(b.skip(qb.len() as int) =~= restb + ext);
        assert(forall|i: int| 0 <= i < qs.skip(1).len() ==> wf_question(#[trigger] qs.skip(1)[i]));
        lemma_questions_round_trip(qs.skip(1), ext);
        assert(seq![qs[0]] + qs.skip(1) =~= qs);
    }
}

/// A well-formed record section decodes from its own encoding followed
/// by anything, consuming exactly its encoding.
pub proof fn lemma_rrs_round_trip(rs: Seq<ResourceRecordV>, ext: Seq<u8>)
    requires
        forall|i: int| 0 <= i < rs.len() ==> wf_rr(#[trigger] rs[i]),
    ensures
        spec_parse_rrs(spec_rrs_bytes(rs) + ext, rs.len())
            == Ok::<(Seq<ResourceRecordV>, int), DnsError>(
            (rs, spec_rrs_bytes(rs).len() as int),
        ),
    decreases rs.len(),
{
    if rs.len() == 0 {
        assert(rs =~= Seq::<ResourceRecordV>::empty());
    } else {
        let b = spec_rrs_bytes(rs) + ext;
        let rb = spec_rr_bytes(rs[0]);
        let restb = spec_rrs_bytes(rs.skip(1));
        assert(b =~= rb + (restb + ext));
        lemma_rr_round_trip(rs[0], restb + ext);
        assert(spec_parse_rr(b) == Ok::<(ResourceRecordV, int), DnsError>(
            (rs[0], rb.len() as int),
        ));
        assert(b.skip(rb.len() as int) =~= restb + ext);
        assert(forall|i: int| 0 <= i < rs.skip(1).len() ==> wf_rr(#[trigger] rs.skip(1)[i]));
        lemma_rrs_round_trip(rs.skip(1), ext);
        assert(seq![rs[0]] + rs.skip(1) =~= rs);
    }
}

/// The record sections after the questions decode from their own
/// encoding.
#[verifier::spinoff_prover]
proof fn lemma_tail2_round_trip(m: MessageV)
    requires
        wf_message(m),
    ensures
        spec_parse_tail2(
            spec_rrs_bytes(m.authorities) + spec_rrs_bytes(m.additionals),
            m.header,
            m.questions,
            m.answers,
        ) == Ok::<MessageV, DnsError>(m),
{
    let ub = spec_rrs_bytes(m.authorities);
    let db = spec_rrs_bytes(m.additionals);
    let b = ub + db;
    lemma_rrs_round_trip(m.authorities, db);
    assert(spec_parse_rrs(b, m.header.nscount as nat)
        == Ok::<(Seq<ResourceRecordV>, int), DnsError>((m.authorities, ub.len() as int)));
    assert(b.skip(ub.len() as int) =~= db + Seq::<u8>::empty());
    lemma_rrs_round_trip(m.additionals, Seq::<u8>::empty());
    assert(spec_parse_rrs(b.skip(ub.len() as int), m.header.arcount as nat)
        == Ok::<(Seq<ResourceRecordV>, int), DnsError>((m.additionals, db.len() as int)));
}

/// The whole body after the header decodes from its own encoding.
#[verifier::spinoff_prover]
proof fn lemma_tail_round_trip(m: MessageV)
    requires
        wf_message(m),
    ensures
        spec_parse_tail(
            spec_questions_bytes(m.questions) + spec_rrs_bytes(m.answers) + spec_rrs_bytes(
                m.authorities,
            ) + spec_rrs_bytes(m.additionals),
            m.header,
        ) == Ok::<MessageV, DnsError>(m),
{
    let qb = spec_questions_bytes(m.questions);
    let ab = spec_rrs_bytes(m.answers);
    let ub = spec_rrs_bytes(m.authorities);
    let db = spec_rrs_bytes(m.additionals);
    let t = qb + ab + ub + db;
    assert(t =~= qb + (ab + ub + db));
    lemma_questions_round_trip(m.questions, ab + ub + db);
    assert(spec_parse_questions(t, m.header.qdcount as nat)
        == Ok::<(Seq<QuestionV>, int), DnsError>((m.questions, qb.len() as int)));
    let t2 = t.skip(qb.len() as int);
    assert(t2 =~= ab + (ub + db));
    lemma_rrs_round_trip(m.answers, ub + db);
    assert(spec_parse_rrs(t2, m.header.ancount as nat)
        == Ok::<(Seq<ResourceRecordV>, int), DnsError>((m.answers, ab.len() as int)));
    lemma_tail2_round_trip(m);
    assert(t.skip(qb.len() as int + ab.len() as int) =~= ub + db);
}

/// Message round trip: a message whose section counts equal its section
/// lengths, built from well-formed entries, is recovered exactly by
/// parsing its own emission.
#[verifier::spinoff_prover]
pub proof fn lemma_message_round_trip(m: MessageV)
    requires
        wf_message(m),
    ensures
        spec_parse_message(spec_message_bytes(m)) == Ok::<MessageV, DnsError>(m),
{
    let hb = spec_header_bytes(m.header);
    let qb = spec_questions_bytes(m.questions);
    let ab = spec_rrs_bytes(m.answers);
    let ub = spec_rrs_bytes(m.authorities);
    let db = spec_rrs_bytes(m.additionals);
    let b = spec_message_bytes(m);
    assert(hb.len() == 12);
    lemma_header_round_trip(m.header);
    assert(forall|i: int| 0 <= i < 12 ==> #[trigger] b[i] == hb[i]);
    assert(b.len() >= 12);
    assert(spec_parse_header(b) == Ok::<Header, DnsError>(m.header));
    lemma_tail_round_trip(m);
    assert(b.skip(12) =~= qb + ab + ub + db);
}

} // verus!
