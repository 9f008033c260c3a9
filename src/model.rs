//! Questions, resource records and whole messages, with their wire codecs.
//! Every decoder reads the whole message buffer at an absolute offset, so that
//! compression pointers resolve against the message itself.
use vstd::prelude::*;
pub use crate::header::Header;
use crate::error::{DnsError, EncodingError};
use crate::header::{header_at, header_bytes, HEADER_LEN};
use crate::name::{copy_name, decode_name, encode_name, label_seqs, labels_fit, lemma_name_at_valid, name_at, name_bytes};
use crate::util::{append_bytes, be_u16, be_u16_value, be_u32, be_u32_value, copy_range, put_u16, put_u32, read_u16, read_u32};

verus! {

/// What a question holds.
pub struct QuestionView {
    pub name: Seq<Seq<u8>>,
    pub record_type: u16,
    pub record_class: u16,
}

/// What a resource record holds.
pub struct AnswerView {
    pub name: Seq<Seq<u8>>,
    pub record_type: u16,
    pub record_class: u16,
    pub ttl: u32,
    pub data: Seq<u8>,
}

/// What a message holds.
pub struct MessageView {
    pub header: Header,
    pub questions: Seq<QuestionView>,
    pub answers: Seq<AnswerView>,
}

/// One entry of the question section: a name with a record type and class.
#[derive(Debug, Clone)]
pub struct Question {
    pub name: Vec<Vec<u8>>,
    pub record_type: u16,
    pub record_class: u16,
}

/// One resource record. Its data length is not stored: it is the length of
/// `data` whenever the record is written.
#[derive(Debug, Clone)]
pub struct Answer {
    pub name: Vec<Vec<u8>>,
    pub record_type: u16,
    pub record_class: u16,
    pub ttl: u32,
    pub data: Vec<u8>,
}

/// A header, the question section and the answer section.
#[derive(Debug, Clone)]
pub struct Message {
    pub header: Header,
    pub question: Vec<Question>,
    pub answer: Vec<Answer>,
}

impl View for Question {
    type V = QuestionView;

    open spec fn view(&self) -> QuestionView {
        QuestionView {
            name: label_seqs(self.name@),
            record_type: self.record_type,
            record_class: self.record_class,
        }
    }
}

impl View for Answer {
    type V = AnswerView;

    open spec fn view(&self) -> AnswerView {
        AnswerView {
            name: label_seqs(self.name@),
            record_type: self.record_type,
            record_class: self.record_class,
            ttl: self.ttl,
            data: self.data@,
        }
    }
}

impl View for Message {
    type V = MessageView;

    open spec fn view(&self) -> MessageView {
        MessageView {
            header: self.header,
            questions: question_views(self.question@),
            answers: answer_views(self.answer@),
        }
    }
}

pub open spec fn question_views(v: Seq<Question>) -> Seq<QuestionView> {
    v.map_values(|q: Question| q@)
}

pub open spec fn answer_views(v: Seq<Answer>) -> Seq<AnswerView> {
    v.map_values(|a: Answer| a@)
}

/// The wire form of a question.
pub open spec fn question_bytes(q: QuestionView) -> Seq<u8> {
    name_bytes(q.name) + be_u16(q.record_type) + be_u16(q.record_class)
}

/// The wire form of a record; the data length is that of its data.
pub open spec fn answer_bytes(a: AnswerView) -> Seq<u8> {
    name_bytes(a.name) + be_u16(a.record_type) + be_u16(a.record_class) + be_u32(a.ttl) + be_u16(
        a.data.len() as u16,
    ) + a.data
}

/// The wire forms of questions, one after another.
pub open spec fn questions_bytes(qs: Seq<QuestionView>) -> Seq<u8>
    decreases qs.len(),
{
    if qs.len() == 0 {
        Seq::empty()
    } else {
        questions_bytes(qs.drop_last()) + question_bytes(qs.last())
    }
}

/// The wire forms of records, one after another.
pub open spec fn answers_bytes(rs: Seq<AnswerView>) -> Seq<u8>
    decreases rs.len(),
{
    if rs.len() == 0 {
        Seq::empty()
    } else {
        answers_bytes(rs.drop_last()) + answer_bytes(rs.last())
    }
}

/// The wire form of a message: header, questions, records. The header's counts
/// are written as they stand.
pub open spec fn message_bytes(m: MessageView) -> Seq<u8> {
    header_bytes(m.header) + questions_bytes(m.questions) + answers_bytes(m.answers)
}

/// Every name of the message can be written.
pub open spec fn message_fits(m: MessageView) -> bool {
    &&& forall|i: int| 0 <= i < m.questions.len() ==> labels_fit(#[trigger] m.questions[i].name)
    &&& forall|i: int| 0 <= i < m.answers.len() ==> labels_fit(#[trigger] m.answers[i].name)
}

/// Every record's data fits the 16-bit length field.
pub open spec fn answers_data_fit(rs: Seq<AnswerView>) -> bool {
    forall|i: int| 0 <= i < rs.len() ==> #[trigger] rs[i].data.len() <= 0xFFFF
}

/// The question at absolute offset `pos` of `buf`, with the offset after it.
pub open spec fn question_at(buf: Seq<u8>, pos: int) -> Result<(QuestionView, int), DnsError> {
    match name_at(buf, pos) {
        None => Err(DnsError::MalformedName),
        Some((name, p)) => if p + 4 > buf.len() {
            Err(DnsError::MalformedQuestion)
        } else {
            Ok(
                (
                    QuestionView {
                        name,
                        record_type: be_u16_value(buf[p], buf[p + 1]) as u16,
                        record_class: be_u16_value(buf[p + 2], buf[p + 3]) as u16,
                    },
                    p + 4,
                ),
            )
        },
    }
}

/// The record at absolute offset `pos` of `buf`, with the offset after it.
pub open spec fn answer_at(buf: Seq<u8>, pos: int) -> Result<(AnswerView, int), DnsError> {
    match name_at(buf, pos) {
        None => Err(DnsError::MalformedName),
        Some((name, p)) => if p + 10 > buf.len() {
            Err(DnsError::MalformedRecord)
        } else {
            let len = be_u16_value(buf[p + 8], buf[p + 9]);
            if p + 10 + len > buf.len() {
                Err(DnsError::MalformedRecord)
            } else {
                Ok(
                    (
                        AnswerView {
                            name,
                            record_type: be_u16_value(buf[p], buf[p + 1]) as u16,
                            record_class: be_u16_value(buf[p + 2], buf[p + 3]) as u16,
                            ttl: be_u32_value(buf[p + 4], buf[p + 5], buf[p + 6], buf[p + 7]) as u32,
                            data: buf.subrange(p + 10, p + 10 + len),
                        },
                        p + 10 + len,
                    ),
                )
            }
        },
    }
}

/// `n` questions read one after another from `pos`, with the offset after them;
/// the first error met otherwise.
pub open spec fn questions_at(buf: Seq<u8>, pos: int, n: nat) -> Result<
    (Seq<QuestionView>, int),
    DnsError,
>
    decreases n,
{
    if n == 0 {
        Ok((Seq::empty(), pos))
    } else {
        match questions_at(buf, pos, (n - 1) as nat) {
            Err(e) => Err(e),
            Ok((qs, p)) => match question_at(buf, p) {
                Err(e) => Err(e),
                Ok((q, next)) => Ok((qs.push(q), next)),
            },
        }
    }
}

/// `n` records read one after another from `pos`, with the offset after them;
/// the first error met otherwise.
pub open spec fn answers_at(buf: Seq<u8>, pos: int, n: nat) -> Result<
    (Seq<AnswerView>, int),
    DnsError,
>
    decreases n,
{
    if n == 0 {
        Ok((Seq::empty(), pos))
    } else {
        match answers_at(buf, pos, (n - 1) as nat) {
            Err(e) => Err(e),
            Ok((rs, p)) => match answer_at(buf, p) {
                Err(e) => Err(e),
                Ok((r, next)) => Ok((rs.push(r), next)),
            },
        }
    }
}

/// The message held in `buf`: the header, its questions, then its answer,
/// authority and additional records, each section read after the last. The
/// authority and additional records are checked and left out.
pub open spec fn message_at(buf: Seq<u8>) -> Result<MessageView, DnsError> {
    if buf.len() < HEADER_LEN {
        Err(DnsError::MalformedHeader)
    } else {
        let h = header_at(buf);
        match questions_at(buf, HEADER_LEN as int, h.qdcount as nat) {
            Err(e) => Err(e),
            Ok((qs, after_questions)) => match answers_at(buf, after_questions, h.ancount as nat) {
                Err(e) => Err(e),
                Ok((rs, after_answers)) => match answers_at(buf, after_answers, h.nscount as nat) {
                    Err(e) => Err(e),
                    Ok((_, after_authority)) => match answers_at(buf, after_authority, h.arcount as nat) {
                        Err(e) => Err(e),
                        Ok(_) => Ok(MessageView { header: h, questions: qs, answers: rs }),
                    },
                },
            },
        }
    }
}


/// Once reading questions fails, reading more fails with the same error.
proof fn lemma_questions_err_persists(buf: Seq<u8>, pos: int, m: nat, n: nat)
    requires
        m <= n,
        questions_at(buf, pos, m) is Err,
    ensures
        questions_at(buf, pos, n) == questions_at(buf, pos, m),
    decreases n - m,
{
    if m < n {
        lemma_questions_err_persists(buf, pos, m, (n - 1) as nat);
    }
}

/// Once reading records fails, reading more fails with the same error.
proof fn lemma_answers_err_persists(buf: Seq<u8>, pos: int, m: nat, n: nat)
    requires
        m <= n,
        answers_at(buf, pos, m) is Err,
    ensures
        answers_at(buf, pos, n) == answers_at(buf, pos, m),
    decreases n - m,
{
    if m < n {
        lemma_answers_err_persists(buf, pos, m, (n - 1) as nat);
    }
}

impl Question {
    /// Appends the wire form of the question to `buf` and returns the number of
    /// bytes written; fails, writing nothing, when a label is too long.
    pub fn to_bytes(&self, buf: &mut Vec<u8>) -> (r: Result<usize, EncodingError>)
        ensures
            r is Ok <==> labels_fit(self@.name),
            r is Ok ==> final(buf)@ == old(buf)@ + question_bytes(self@) && r->Ok_0
                == question_bytes(self@).len(),
            r is Err ==> final(buf)@ == old(buf)@,
    {
        let encoded = encode_name(&self.name)?;
        let ghost start = buf@;
        let before = buf.len();
        append_bytes(buf, encoded.as_slice());
        put_u16(buf, self.record_type);
        put_u16(buf, self.record_class);
        assert(buf@ =~= start + question_bytes(self@));
        Ok(buf.len() - before)
    }

    /// Reads the question at absolute offset `offset` of the message `bytes`;
    /// returns it with the offset after it.
    pub fn from_bytes(bytes: &[u8], offset: usize) -> (r: Result<(Question, usize), DnsError>)
        ensures
            r is Ok <==> question_at(bytes@, offset as int) is Ok,
            r is Err ==> r->Err_0 == question_at(bytes@, offset as int)->Err_0,
            r is Ok ==> (r->Ok_0).0@ == (question_at(bytes@, offset as int)->Ok_0).0 && (r->Ok_0).1
                == (question_at(bytes@, offset as int)->Ok_0).1,
    {
        let (name, p) = decode_name(bytes, offset)?;
        if bytes.len() - p < 4 {
            return Err(DnsError::MalformedQuestion);
        }
        let q = Question {
            name,
            record_type: read_u16(bytes, p),
            record_class: read_u16(bytes, p + 2),
        };
        Ok((q, p + 4))
    }

    /// Reads `qdcount` questions one after another from absolute offset `offset`
    /// of the message `bytes`; returns them with the offset after the last one,
    /// or the first error met.
    pub fn read_questions(bytes: &[u8], qdcount: u16, offset: usize) -> (r: Result<
        (Vec<Question>, usize),
        DnsError,
    >)
        ensures
            r is Ok <==> questions_at(bytes@, offset as int, qdcount as nat) is Ok,
            r is Err ==> r->Err_0 == questions_at(bytes@, offset as int, qdcount as nat)->Err_0,
            r is Ok ==> question_views((r->Ok_0).0@) == (questions_at(
                bytes@,
                offset as int,
                qdcount as nat,
            )->Ok_0).0 && (r->Ok_0).1 == (questions_at(bytes@, offset as int, qdcount as nat)->Ok_0).1,
    {
        let mut questions: Vec<Question> = Vec::new();
        let mut pos: usize = offset;
        let mut i: u16 = 0;
        assert(question_views(questions@) =~= Seq::<QuestionView>::empty());
        while i < qdcount
            invariant
                i <= qdcount,
                questions_at(bytes@, offset as int, i as nat) == Ok::<
                    (Seq<QuestionView>, int),
                    DnsError,
                >((question_views(questions@), pos as int)),
            decreases qdcount - i,
        {
            match Question::from_bytes(bytes, pos) {
                Ok((q, next)) => {
                    let ghost prev = questions@;
                    questions.push(q);
                    assert(question_views(questions@) =~= question_views(prev).push(q@));
                    pos = next;
                    i = i + 1;
                },
                Err(e) => {
                    proof {
                        lemma_questions_err_persists(
                            bytes@,
                            offset as int,
                            (i + 1) as nat,
                            qdcount as nat,
                        );
                    }
                    return Err(e);
                },
            }
        }
        Ok((questions, pos))
    }

    /// A copy of the question.
    pub fn duplicate(&self) -> (r: Question)
        ensures
            r@ == self@,
    {
        Question {
            name: copy_name(&self.name),
            record_type: self.record_type,
            record_class: self.record_class,
        }
    }
}


impl Answer {
    /// Appends the wire form of the record to `buf`, with the length of `data` as
    /// its data length, and returns the number of bytes written; fails, writing
    /// nothing, when a label is too long.
    pub fn to_bytes(&self, buf: &mut Vec<u8>) -> (r: Result<usize, EncodingError>)
        requires
            self.data@.len() <= 0xFFFF,
        ensures
            r is Ok <==> labels_fit(self@.name),
            r is Ok ==> final(buf)@ == old(buf)@ + answer_bytes(self@) && r->Ok_0
                == answer_bytes(self@).len(),
            r is Err ==> final(buf)@ == old(buf)@,
    {
        let encoded = encode_name(&self.name)?;
        let ghost start = buf@;
        let before = buf.len();
        append_bytes(buf, encoded.as_slice());
        put_u16(buf, self.record_type);
        put_u16(buf, self.record_class);
        put_u32(buf, self.ttl);
        put_u16(buf, self.data.len() as u16);
        append_bytes(buf, self.data.as_slice());
        assert(buf@ =~= start + answer_bytes(self@));
        Ok(buf.len() - before)
    }

    /// Reads the record at absolute offset `offset` of the message `bytes`,
    /// taking exactly as many data bytes as its data length says; returns it
    /// with the offset after it.
    pub fn from_bytes(bytes: &[u8], offset: usize) -> (r: Result<(Answer, usize), DnsError>)
        ensures
            r is Ok <==> answer_at(bytes@, offset as int) is Ok,
            r is Err ==> r->Err_0 == answer_at(bytes@, offset as int)->Err_0,
            r is Ok ==> (r->Ok_0).0@ == (answer_at(bytes@, offset as int)->Ok_0).0 && (r->Ok_0).1
                == (answer_at(bytes@, offset as int)->Ok_0).1,
    {
        let (name, p) = decode_name(bytes, offset)?;
        if bytes.len() - p < 10 {
            return Err(DnsError::MalformedRecord);
        }
        let len = read_u16(bytes, p + 8) as usize;
        if bytes.len() - (p + 10) < len {
            return Err(DnsError::MalformedRecord);
        }
        let a = Answer {
            name,
            record_type: read_u16(bytes, p),
            record_class: read_u16(bytes, p + 2),
            ttl: read_u32(bytes, p + 4),
            data: copy_range(bytes, p + 10, p + 10 + len),
        };
        Ok((a, p + 10 + len))
    }

    /// Reads `ancount` records one after another from absolute offset `offset`
    /// of the message `bytes`; returns them with the offset after the last one,
    /// or the first error met. A record's name that is a pointer is resolved
    /// against the message, wherever it points.
    pub fn read_answers(bytes: &[u8], ancount: u16, offset: usize) -> (r: Result<
        (Vec<Answer>, usize),
        DnsError,
    >)
        ensures
            r is Ok <==> answers_at(bytes@, offset as int, ancount as nat) is Ok,
            r is Err ==> r->Err_0 == answers_at(bytes@, offset as int, ancount as nat)->Err_0,
            r is Ok ==> answer_views((r->Ok_0).0@) == (answers_at(
                bytes@,
                offset as int,
                ancount as nat,
            )->Ok_0).0 && (r->Ok_0).1 == (answers_at(bytes@, offset as int, ancount as nat)->Ok_0).1,
    {
        let mut answers: Vec<Answer> = Vec::new();
        let mut pos: usize = offset;
        let mut i: u16 = 0;
        assert(answer_views(answers@) =~= Seq::<AnswerView>::empty());
        while i < ancount
            invariant
                i <= ancount,
                answers_at(bytes@, offset as int, i as nat) == Ok::<
                    (Seq<AnswerView>, int),
                    DnsError,
                >((answer_views(answers@), pos as int)),
            decreases ancount - i,
        {
            match Answer::from_bytes(bytes, pos) {
                Ok((a, next)) => {
                    let ghost prev = answers@;
                    answers.push(a);
                    assert(answer_views(answers@) =~= answer_views(prev).push(a@));
                    pos = next;
                    i = i + 1;
                },
                Err(e) => {
                    proof {
                        lemma_answers_err_persists(
                            bytes@,
                            offset as int,
                            (i + 1) as nat,
                            ancount as nat,
                        );
                    }
                    return Err(e);
                },
            }
        }
        Ok((answers, pos))
    }

    /// A copy of the record.
    pub fn duplicate(&self) -> (r: Answer)
        ensures
            r@ == self@,
    {
        let data = copy_range(self.data.as_slice(), 0, self.data.len());
        assert(data@ =~= self.data@);
        Answer {
            name: copy_name(&self.name),
            record_type: self.record_type,
            record_class: self.record_class,
            ttl: self.ttl,
            data,
        }
    }
}


impl Message {
    /// Appends the wire form of the message to `buf`: the header with its counts
    /// as they stand, each question, then each record. Returns the length of
    /// `buf` after it; fails, writing nothing, when a label is too long.
    pub fn to_bytes(&self, buf: &mut Vec<u8>) -> (r: Result<usize, EncodingError>)
        requires
            answers_data_fit(self@.answers),
        ensures
            r is Ok <==> message_fits(self@),
            r is Ok ==> final(buf)@ == old(buf)@ + message_bytes(self@),
            r is Ok ==> r->Ok_0 == final(buf)@.len(),
            r is Err ==> final(buf)@ == old(buf)@,
    {
        let ghost qv = self@.questions;
        let ghost av = self@.answers;
        let mut out = self.header.to_bytes();
        let mut i: usize = 0;
        assert(qv.take(0) =~= Seq::<QuestionView>::empty());
        while i < self.question.len()
            invariant
                i <= self.question@.len(),
                qv == question_views(self.question@),
                out@ == header_bytes(self.header) + questions_bytes(qv.take(i as int)),
                forall|j: int| 0 <= j < i ==> labels_fit(#[trigger] qv[j].name),
            decreases self.question@.len() - i,
        {
            assert(qv[i as int] == self.question@[i as int]@);
            let res = self.question[i].to_bytes(&mut out);
            if res.is_err() {
                assert(!labels_fit(self@.questions[i as int].name));
                assert(!message_fits(self@));
                return Err(EncodingError::LabelTooLong);
            }
            assert(qv.take(i as int + 1).drop_last() =~= qv.take(i as int));
            i = i + 1;
            assert(out@ =~= header_bytes(self.header) + questions_bytes(qv.take(i as int)));
        }
        assert(qv.take(i as int) =~= qv);
        let mut k: usize = 0;
        assert(av.take(0) =~= Seq::<AnswerView>::empty());
        while k < self.answer.len()
            invariant
                k <= self.answer@.len(),
                av == answer_views(self.answer@),
                answers_data_fit(av),
                out@ == header_bytes(self.header) + questions_bytes(qv) + answers_bytes(
                    av.take(k as int),
                ),
                forall|j: int| 0 <= j < k ==> labels_fit(#[trigger] av[j].name),
            decreases self.answer@.len() - k,
        {
            assert(av[k as int] == self.answer@[k as int]@);
            assert(av[k as int].data.len() <= 0xFFFF);
            let res = self.answer[k].to_bytes(&mut out);
            if res.is_err() {
                assert(!labels_fit(self@.answers[k as int].name));
                assert(!message_fits(self@));
                return Err(EncodingError::LabelTooLong);
            }
            assert(av.take(k as int + 1).drop_last() =~= av.take(k as int));
            k = k + 1;
            assert(out@ =~= header_bytes(self.header) + questions_bytes(qv) + answers_bytes(
                av.take(k as int),
            ));
        }
        assert(av.take(k as int) =~= av);
        append_bytes(buf, out.as_slice());
        Ok(buf.len())
    }

    /// Reads a whole message from `bytes`: the header, its questions, and its
    /// records, each section read where the last ended. The first error met is
    /// returned as it is.
    pub fn from_bytes(bytes: &[u8]) -> (r: Result<Message, DnsError>)
        ensures
            r is Ok <==> message_at(bytes@) is Ok,
            r is Err ==> r->Err_0 == message_at(bytes@)->Err_0,
            r is Ok ==> r->Ok_0@ == message_at(bytes@)->Ok_0,
    {
        let (header, start) = Header::from_bytes(bytes)?;
        let (question, after_questions) = Question::read_questions(bytes, header.qdcount, start)?;
        let (answer, after_answers) = Answer::read_answers(bytes, header.ancount, after_questions)?;
        let (_, after_authority) = Answer::read_answers(bytes, header.nscount, after_answers)?;
        let _ = Answer::read_answers(bytes, header.arcount, after_authority)?;
        Ok(Message { header, question, answer })
    }
}


/// Questions read from a buffer are as many as asked for, and each name can be
/// written again.
pub proof fn lemma_questions_at_fit(buf: Seq<u8>, pos: int, n: nat)
    requires
        questions_at(buf, pos, n) is Ok,
    ensures
        (questions_at(buf, pos, n)->Ok_0).0.len() == n,
        forall|i: int|
            0 <= i < n ==> labels_fit(#[trigger] (questions_at(buf, pos, n)->Ok_0).0[i].name),
    decreases n,
{
    if n > 0 {
        lemma_questions_at_fit(buf, pos, (n - 1) as nat);
        let p = (questions_at(buf, pos, (n - 1) as nat)->Ok_0).1;
        lemma_name_at_valid(buf, p);
    }
}

/// Records read from a buffer are as many as asked for, each name can be
/// written again, and each data fits the 16-bit length field.
pub proof fn lemma_answers_at_fit(buf: Seq<u8>, pos: int, n: nat)
    requires
        answers_at(buf, pos, n) is Ok,
    ensures
        (answers_at(buf, pos, n)->Ok_0).0.len() == n,
        forall|i: int|
            0 <= i < n ==> labels_fit(#[trigger] (answers_at(buf, pos, n)->Ok_0).0[i].name),
        answers_data_fit((answers_at(buf, pos, n)->Ok_0).0),
    decreases n,
{
    if n > 0 {
        lemma_answers_at_fit(buf, pos, (n - 1) as nat);
        let p = (answers_at(buf, pos, (n - 1) as nat)->Ok_0).1;
        lemma_name_at_valid(buf, p);
        let q = (name_at(buf, p)->0).1;
        assert(be_u16_value(buf[q + 8], buf[q + 9]) <= 0xFFFF);
        let prev = (answers_at(buf, pos, (n - 1) as nat)->Ok_0).0;
        let all = (answers_at(buf, pos, n)->Ok_0).0;
        assert forall|i: int| 0 <= i < all.len() implies #[trigger] all[i].data.len() <= 0xFFFF by {
            if i < prev.len() {
                assert(all[i] == prev[i]);
            } else {
                let a = (answer_at(buf, p)->Ok_0).0;
                assert(all[i] == a);
                assert(a.data.len() == be_u16_value(buf[q + 8], buf[q + 9]));
            }
        }
    }
}

/// A decoded message can be written again: its names fit, its record data fit,
/// and its sections are as long as its header says.
pub proof fn lemma_message_at_fits(buf: Seq<u8>)
    requires
        message_at(buf) is Ok,
    ensures
        message_fits(message_at(buf)->Ok_0),
        answers_data_fit((message_at(buf)->Ok_0).answers),
        (message_at(buf)->Ok_0).questions.len() == (message_at(buf)->Ok_0).header.qdcount,
        (message_at(buf)->Ok_0).answers.len() == (message_at(buf)->Ok_0).header.ancount,
{
    let h = header_at(buf);
    lemma_questions_at_fit(buf, HEADER_LEN as int, h.qdcount as nat);
    let after_questions = (questions_at(buf, HEADER_LEN as int, h.qdcount as nat)->Ok_0).1;
    lemma_answers_at_fit(buf, after_questions, h.ancount as nat);
}

} // verus!
