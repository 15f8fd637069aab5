//! How the server answers a query: the reply's header, an answer made up locally, and the
//! query it forwards to a resolver for each question.
use vstd::prelude::*;
use vstd::slice::slice_to_vec;

use crate::proto::{
    Class, Message, MessageView, Name, Question, QuestionView, Record, RecordView, Type,
};

verus! {

/// The response code for a query of a kind that is not implemented.
pub const RCODE_NOT_IMPLEMENTED: u8 = 4;

/// The time to live of a locally made answer, in seconds.
pub const LOCAL_TTL: u32 = 60;

/// The reply to `request` before any answer: same id, opcode and recursion-desired flag,
/// marked as a response, response code 0 for a standard query and "not implemented"
/// otherwise, the same questions, and nothing else.
pub open spec fn reply_view(request: MessageView) -> MessageView {
    MessageView {
        id: request.id,
        qr: 1,
        opcode: request.opcode,
        aa: 0,
        tc: 0,
        rd: request.rd,
        ra: 0,
        z: 0,
        rcode: if request.opcode == 0 {
            0
        } else {
            RCODE_NOT_IMPLEMENTED
        },
        nscount: 0,
        arcount: 0,
        questions: request.questions,
        answers: Seq::empty(),
    }
}

/// The record made up locally for a question: its name, type and class, a time to live of
/// 60 seconds, and the data 8.8.8.8.
pub open spec fn local_answer(q: QuestionView) -> RecordView {
    RecordView {
        name: q.name,
        rtype: q.qtype,
        class: q.class,
        ttl: LOCAL_TTL,
        rdata: seq![8u8, 8u8, 8u8, 8u8],
    }
}

/// The reply to `request` with one locally made answer for each question.
pub open spec fn local_reply_view(request: MessageView) -> MessageView {
    let r = reply_view(request);
    MessageView {
        answers: request.questions.map_values(|q: QuestionView| local_answer(q)),
        ..r
    }
}

/// The query sent to a resolver for question `i` of `request`: the request itself, with the
/// id advanced by `i` (wrapping at 16 bits) and that one question, asked for type A and
/// class IN.
pub open spec fn forward_view(request: MessageView, i: int) -> MessageView {
    MessageView {
        id: ((request.id + i) % 0x1_0000) as u16,
        questions: seq![
            QuestionView { name: request.questions[i].name, qtype: Type::A, class: Class::IN },
        ],
        ..request
    }
}

fn copy_name(n: &Name) -> (r: Name)
    ensures
        r@ == n@,
{
    Name(n.0.clone())
}

fn copy_questions(qs: &Vec<Question>) -> (r: Vec<Question>)
    ensures
        r@.map_values(|q: Question| q@) == qs@.map_values(|q: Question| q@),
{
    let mut out: Vec<Question> = Vec::new();
    let mut i: usize = 0;
    while i < qs.len()
        invariant
            0 <= i <= qs@.len(),
            out@.len() == i,
            forall|j: int| 0 <= j < i ==> (#[trigger] out@[j])@ == qs@[j]@,
        decreases qs@.len() - i,
    {
        let q = &qs[i];
        out.push(Question { name: copy_name(&q.name), qtype: q.qtype, class: q.class });
        i = i + 1;
    }
    assert(out@.map_values(|q: Question| q@) =~= qs@.map_values(|q: Question| q@));
    out
}

fn copy_records(rs: &Vec<Record>) -> (r: Vec<Record>)
    ensures
        r@.map_values(|a: Record| a@) == rs@.map_values(|a: Record| a@),
{
    let mut out: Vec<Record> = Vec::new();
    let mut i: usize = 0;
    while i < rs.len()
        invariant
            0 <= i <= rs@.len(),
            out@.len() == i,
            forall|j: int| 0 <= j < i ==> (#[trigger] out@[j])@ == rs@[j]@,
        decreases rs@.len() - i,
    {
        let a = &rs[i];
        out.push(
            Record {
                name: copy_name(&a.name),
                rtype: a.rtype,
                class: a.class,
                ttl: a.ttl,
                rdata: slice_to_vec(a.rdata.as_slice()),
            },
        );
        i = i + 1;
    }
    assert(out@.map_values(|a: Record| a@) =~= rs@.map_values(|a: Record| a@));
    out
}

impl Message {
    /// The reply to this query before any answer is added.
    pub fn reply_to(&self) -> (r: Message)
        ensures
            r@ == reply_view(self@),
    {
        let r = Message {
            id: self.id,
            qr: 1,
            opcode: self.opcode,
            aa: 0,
            tc: 0,
            rd: self.rd,
            ra: 0,
            z: 0,
            rcode: if self.opcode == 0 {
                0
            } else {
                RCODE_NOT_IMPLEMENTED
            },
            nscount: 0,
            arcount: 0,
            questions: copy_questions(&self.questions),
            answers: Vec::new(),
        };
        assert(r@.answers =~= Seq::<RecordView>::empty());
        r
    }

    /// The reply to this query with one locally made answer for each question.
    pub fn local_reply(&self) -> (r: Message)
        ensures
            r@ == local_reply_view(self@),
    {
        let mut r = self.reply_to();
        let mut answers: Vec<Record> = Vec::new();
        let mut i: usize = 0;
        while i < self.questions.len()
            invariant
                0 <= i <= self.questions@.len(),
                answers@.len() == i,
                forall|j: int|
                    0 <= j < i ==> (#[trigger] answers@[j])@ == local_answer(self.questions@[j]@),
            decreases self.questions@.len() - i,
        {
            let q = &self.questions[i];
            let rdata = vec![8u8, 8u8, 8u8, 8u8];
            assert(rdata@ =~= seq![8u8, 8u8, 8u8, 8u8]);
            answers.push(
                Record { name: copy_name(&q.name), rtype: q.qtype, class: q.class, ttl: LOCAL_TTL, rdata },
            );
            i = i + 1;
        }
        assert(answers@.map_values(|a: Record| a@) =~= self@.questions.map_values(
            |q: QuestionView| local_answer(q),
        ));
        r.answers = answers;
        r
    }

    /// The query to send to a resolver for question `i`.
    pub fn forward_query(&self, i: usize) -> (r: Message)
        requires
            i < self.questions@.len(),
        ensures
            r@ == forward_view(self@, i as int),
    {
        let q = &self.questions[i];
        let id: u16 = ((self.id as usize % 0x1_0000 + i % 0x1_0000) % 0x1_0000) as u16;
        let r = Message {
            id,
            qr: self.qr,
            opcode: self.opcode,
            aa: self.aa,
            tc: self.tc,
            rd: self.rd,
            ra: self.ra,
            z: self.z,
            rcode: self.rcode,
            nscount: self.nscount,
            arcount: self.arcount,
            questions: vec![Question { name: copy_name(&q.name), qtype: Type::A, class: Class::IN }],
            answers: copy_records(&self.answers),
        };
        assert(r@.questions =~= forward_view(self@, i as int).questions);
        r
    }
}

} // verus!
