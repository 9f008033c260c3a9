//! The decisions of a forwarding resolver. For each question of a client's
//! query it asks an upstream resolver a one-question query, gathers the answer
//! records of the replies in order, and answers the client with one response.
//! Sending and receiving datagrams is left to the caller: it performs each
//! `Action` and hands back what the upstream resolver replied.
use vstd::prelude::*;
use crate::error::DnsError;
use crate::header::{flags_hi, flags_lo, header_at, Header};
use crate::model::{
    answer_views, answers_data_fit, lemma_message_at_fits, message_at, message_bytes,
    message_fits, question_views, Answer, AnswerView, Message, MessageView, Question,
};
use crate::name::labels_fit;
use crate::util::{be_u16, lemma_be_u16_round_trip};

verus! {

/// The response code of a standard query.
pub const RCODE_NO_ERROR: u8 = 0;

/// The response code for an opcode other than a standard query.
pub const RCODE_NOT_IMPLEMENTED: u8 = 4;

/// The response code for a query of the given opcode.
pub open spec fn response_rcode(opcode: u8) -> u8 {
    if opcode == 0 {
        RCODE_NO_ERROR
    } else {
        RCODE_NOT_IMPLEMENTED
    }
}

/// The header of a forwarded query: the client's header made a query of one
/// question, with no records.
pub open spec fn forward_header(h: Header) -> Header {
    Header { qr: 0, qdcount: 1, ancount: 0, nscount: 0, arcount: 0, ..h }
}

/// The forwarded query for the question at `index` of the client's query.
pub open spec fn forward_view(query: MessageView, index: int) -> MessageView {
    MessageView {
        header: forward_header(query.header),
        questions: seq![query.questions[index]],
        answers: Seq::empty(),
    }
}

/// The header of the response to the client: a response with `k` questions and
/// `n` answers, no other records, and the response code of the query's opcode.
pub open spec fn response_header(h: Header, k: nat, n: nat) -> Header {
    Header {
        qr: 1,
        qdcount: k as u16,
        ancount: n as u16,
        nscount: 0,
        arcount: 0,
        rcode: response_rcode(h.opcode),
        ..h
    }
}

/// The response to the client: its questions echoed, with the gathered answers.
pub open spec fn response_view(query: MessageView, answers: Seq<AnswerView>) -> MessageView {
    MessageView {
        header: response_header(query.header, query.questions.len(), answers.len()),
        questions: query.questions,
        answers,
    }
}

/// Builds the one-question query that forwards the question at `index`.
pub fn forward_request(query: &Message, index: usize) -> (r: Message)
    requires
        index < query.question@.len(),
    ensures
        r@ == forward_view(query@, index as int),
{
    let header = Header { qr: 0, qdcount: 1, ancount: 0, nscount: 0, arcount: 0, ..query.header };
    let q = query.question[index].duplicate();
    let question = vec![q];
    let answer: Vec<Answer> = Vec::new();
    let r = Message { header, question, answer };
    assert(r@.questions =~= seq![query@.questions[index as int]]);
    assert(r@.answers =~= Seq::<AnswerView>::empty());
    r
}

/// The answer records of an upstream reply, in order.
pub fn reply_answers(reply: &[u8]) -> (r: Result<Vec<Answer>, DnsError>)
    ensures
        r is Ok <==> message_at(reply@) is Ok,
        r is Err ==> r->Err_0 == message_at(reply@)->Err_0,
        r is Ok ==> answer_views(r->Ok_0@) == (message_at(reply@)->Ok_0).answers,
{
    let m = Message::from_bytes(reply)?;
    Ok(m.answer)
}

/// Builds the response to the client from its query and the gathered answers.
pub fn build_response(query: &Message, answers: &Vec<Answer>) -> (r: Message)
    requires
        query.question@.len() <= 0xFFFF,
        answers@.len() <= 0xFFFF,
    ensures
        r@ == response_view(query@, answer_views(answers@)),
        r.header.qr == 1,
        r.header.qdcount == query.question@.len(),
        r.header.ancount == answers@.len(),
        r.header.rcode == response_rcode(query.header.opcode),
{
    let rcode = if query.header.opcode == 0 {
        RCODE_NO_ERROR
    } else {
        RCODE_NOT_IMPLEMENTED
    };
    let header = Header {
        qr: 1,
        qdcount: query.question.len() as u16,
        ancount: answers.len() as u16,
        nscount: 0,
        arcount: 0,
        rcode,
        ..query.header
    };
    let mut question: Vec<Question> = Vec::new();
    let mut i: usize = 0;
    while i < query.question.len()
        invariant
            i <= query.question@.len(),
            question_views(question@) == question_views(query.question@).take(i as int),
        decreases query.question@.len() - i,
    {
        let ghost prev = question@;
        question.push(query.question[i].duplicate());
        assert(question_views(question@) =~= question_views(prev).push(query.question@[i as int]@));
        i = i + 1;
        assert(question_views(question@) =~= question_views(query.question@).take(i as int));
    }
    assert(question_views(query.question@).take(i as int) =~= question_views(query.question@));
    let mut answer: Vec<Answer> = Vec::new();
    let mut k: usize = 0;
    while k < answers.len()
        invariant
            k <= answers@.len(),
            answer_views(answer@) == answer_views(answers@).take(k as int),
        decreases answers@.len() - k,
    {
        let ghost prev = answer@;
        answer.push(answers[k].duplicate());
        assert(answer_views(answer@) =~= answer_views(prev).push(answers@[k as int]@));
        k = k + 1;
        assert(answer_views(answer@) =~= answer_views(answers@).take(k as int));
    }
    assert(answer_views(answers@).take(k as int) =~= answer_views(answers@));
    Message { header, question, answer }
}

/// The header of the encoded response to a query of `k` questions with `n`
/// gathered answers, read back, is a response with `qdcount` `k`, `ancount` `n`,
/// and response code 0 for a standard query and 4 for any other opcode.
pub proof fn lemma_response_header_read_back(query: MessageView, answers: Seq<AnswerView>)
    requires
        query.questions.len() <= 0xFFFF,
        answers.len() <= 0xFFFF,
    ensures
        header_at(message_bytes(response_view(query, answers))).qdcount == query.questions.len(),
        header_at(message_bytes(response_view(query, answers))).ancount == answers.len(),
        header_at(message_bytes(response_view(query, answers))).qr == 1,
        header_at(message_bytes(response_view(query, answers))).rcode == response_rcode(
            query.header.opcode,
        ),
{
    let h = response_view(query, answers).header;
    let b = message_bytes(response_view(query, answers));
    lemma_be_u16_round_trip(h.qdcount);
    lemma_be_u16_round_trip(h.ancount);
    assert(b[4] == be_u16(h.qdcount)[0] && b[5] == be_u16(h.qdcount)[1]);
    assert(b[6] == be_u16(h.ancount)[0] && b[7] == be_u16(h.ancount)[1]);
    assert(b[2] == flags_hi(h) && b[3] == flags_lo(h));
    lemma_response_flags(h.opcode % 16, h.aa % 2, h.tc % 2, h.rd % 2, h.ra % 2, h.z % 8, h.rcode);
}

proof fn lemma_response_flags(opcode: u8, aa: u8, tc: u8, rd: u8, ra: u8, z: u8, rcode: u8)
    by (bit_vector)
    requires
        opcode < 16,
        aa < 2,
        tc < 2,
        rd < 2,
        ra < 2,
        z < 8,
        rcode < 16,
    ensures
        ((128 + opcode * 8 + aa * 4 + tc * 2 + rd) as u8) / 128 == 1,
        ((ra * 128 + z * 16 + rcode) as u8) % 16 == rcode,
{
}


/// Every record's name can be written.
pub open spec fn answers_fit(rs: Seq<AnswerView>) -> bool {
    forall|i: int| 0 <= i < rs.len() ==> labels_fit(#[trigger] rs[i].name)
}

/// What the caller is to do next.
#[derive(Debug)]
pub enum Action {
    /// Send these bytes to the upstream resolver and hand its reply to
    /// `Resolution::on_reply`.
    Forward(Vec<u8>),
    /// Send these bytes to the client; the query is done.
    Respond(Vec<u8>),
    /// Send nothing; the query is done.
    Drop,
}

/// A client's query being resolved: the question to forward next and the
/// answers gathered so far.
#[derive(Debug)]
pub struct Resolution {
    pub query: Message,
    pub next: usize,
    pub answers: Vec<Answer>,
}

impl Resolution {
    /// The query can be written again, a question is still to be forwarded, and
    /// the gathered answers can be written in one response.
    pub open spec fn wf(&self) -> bool {
        &&& message_fits(self.query@)
        &&& self.query.question@.len() <= 0xFFFF
        &&& self.next < self.query.question@.len()
        &&& answers_fit(answer_views(self.answers@))
        &&& answers_data_fit(answer_views(self.answers@))
        &&& self.answers@.len() <= 0xFFFF
    }

    /// Starts on a client's datagram. A datagram that is not a message is
    /// dropped; a query without questions is answered at once; otherwise its
    /// first question is forwarded.
    pub fn start(datagram: &[u8]) -> (r: (Option<Resolution>, Action))
        ensures
            message_at(datagram@) is Err ==> r.0 is None && r.1 is Drop,
            message_at(datagram@) is Ok && (message_at(datagram@)->Ok_0).questions.len() == 0
                ==> r.0 is None && r.1 is Respond && (r.1->Respond_0)@ == message_bytes(
                response_view(message_at(datagram@)->Ok_0, Seq::empty()),
            ),
            message_at(datagram@) is Ok && (message_at(datagram@)->Ok_0).questions.len() > 0
                ==> r.0 is Some && (r.0->0).wf() && (r.0->0).query@ == message_at(datagram@)->Ok_0
                && (r.0->0).next == 0 && (r.0->0).answers@.len() == 0 && r.1 is Forward && (
            r.1->Forward_0)@ == message_bytes(forward_view(message_at(datagram@)->Ok_0, 0)),
    {
        let query = match Message::from_bytes(datagram) {
            Ok(m) => m,
            Err(_) => return (None, Action::Drop),
        };
        proof {
            lemma_message_at_fits(datagram@);
        }
        let answers: Vec<Answer> = Vec::new();
        if query.question.len() == 0 {
            let response = build_response(&query, &answers);
            assert(answer_views(answers@) =~= Seq::<AnswerView>::empty());
            return (None, Action::Respond(encode_fitting(&response)));
        }
        let request = forward_request(&query, 0);
        let bytes = encode_fitting(&request);
        let res = Resolution { query, next: 0, answers };
        assert(answer_views(res.answers@) =~= Seq::<AnswerView>::empty());
        (Some(res), Action::Forward(bytes))
    }

    /// Takes the upstream reply to the question last forwarded. A reply that is
    /// not a message ends the query unanswered, as do more answers than one
    /// response can count. Otherwise its answer records are added, in order, to
    /// those gathered; then the next question is forwarded, or, after the last,
    /// the response is built.
    pub fn on_reply(&mut self, reply: &[u8]) -> (r: Action)
        requires
            old(self).wf(),
        ensures
            message_at(reply@) is Err ==> r is Drop,
            message_at(reply@) is Ok && answer_views(old(self).answers@).len() + (message_at(
                reply@,
            )->Ok_0).answers.len() > 0xFFFF ==> r is Drop,
            message_at(reply@) is Ok && answer_views(old(self).answers@).len() + (message_at(
                reply@,
            )->Ok_0).answers.len() <= 0xFFFF && old(self).next + 1 < old(self).query.question@.len()
                ==> r is Forward && final(self).wf() && final(self).query@ == old(self).query@
                && final(self).next == old(self).next + 1 && answer_views(final(self).answers@)
                == answer_views(old(self).answers@) + (message_at(reply@)->Ok_0).answers && (
            r->Forward_0)@ == message_bytes(forward_view(old(self).query@, old(self).next + 1)),
            message_at(reply@) is Ok && answer_views(old(self).answers@).len() + (message_at(
                reply@,
            )->Ok_0).answers.len() <= 0xFFFF && old(self).next + 1 == old(self).query.question@.len()
                ==> r is Respond && (r->Respond_0)@ == message_bytes(
                response_view(
                    old(self).query@,
                    answer_views(old(self).answers@) + (message_at(reply@)->Ok_0).answers,
                ),
            ),
    {
        let m = match Message::from_bytes(reply) {
            Ok(m) => m,
            Err(_) => return Action::Drop,
        };
        proof {
            lemma_message_at_fits(reply@);
        }
        let mut more = m.answer;
        if more.len() > 0xFFFF - self.answers.len() {
            return Action::Drop;
        }
        let ghost before = answer_views(self.answers@);
        let ghost added = answer_views(more@);
        self.answers.append(&mut more);
        assert(answer_views(self.answers@) =~= before + added);
        let ghost all = answer_views(self.answers@);
        assert forall|i: int| 0 <= i < all.len() implies labels_fit(#[trigger] all[i].name)
            && all[i].data.len() <= 0xFFFF by {
            if i >= before.len() {
                assert(all[i] == added[i - before.len()]);
            }
        }
        self.next = self.next + 1;
        if self.next < self.query.question.len() {
            let request = forward_request(&self.query, self.next);
            Action::Forward(encode_fitting(&request))
        } else {
            let response = build_response(&self.query, &self.answers);
            Action::Respond(encode_fitting(&response))
        }
    }
}

/// The wire form of a message whose names and record data fit.
fn encode_fitting(m: &Message) -> (r: Vec<u8>)
    requires
        message_fits(m@),
        answers_data_fit(m@.answers),
    ensures
        r@ == message_bytes(m@),
{
    let mut out: Vec<u8> = Vec::new();
    let _ = m.to_bytes(&mut out);
    assert(out@ =~= message_bytes(m@));
    out
}

} // verus!
