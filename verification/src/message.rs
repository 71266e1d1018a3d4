//! DNS records and messages: their byte layout, how they are built,
//! serialised, and read back from a buffer.
use vstd::prelude::*;

use crate::wire::{
    append_bytes, append_range, be16, be32, copy_range, from_be16, from_be32, lemma_be16_roundtrip,
    lemma_be32_roundtrip, read_be16, read_be32, u16_to_be, u32_to_be,
};

verus! {

// ---------------------------------------------------------------------------
// Record type and class
// ---------------------------------------------------------------------------

/// The type of a resource record; only `A` (host address) is known.
#[derive(Debug, Clone, Copy, PartialEq, Eq, Structural)]
pub enum QType {
    A,
}

impl QType {
    /// What a number read from the wire stands for.
    pub open spec fn from_code(value: u16) -> Result<QType, ()> {
        if value == 1 {
            Ok(QType::A)
        } else {
            Err(())
        }
    }

    /// The number that stands for this type on the wire.
    pub open spec fn code(self) -> u16 {
        match self {
            QType::A => 1,
        }
    }

    /// The number that stands for this type on the wire.
    pub fn to_byte(&self) -> (res: u16)
        ensures
            res == self.code(),
    {
        match self {
            QType::A => 1,
        }
    }
}

impl TryFrom<u16> for QType {
    type Error = ();

    fn try_from(value: u16) -> (res: Result<QType, ()>) {
        if value == 1 {
            Ok(QType::A)
        } else {
            Err(())
        }
    }
}

impl vstd::std_specs::convert::TryFromSpecImpl<u16> for QType {
    open spec fn obeys_try_from_spec() -> bool {
        true
    }

    open spec fn try_from_spec(value: u16) -> Result<QType, ()> {
        QType::from_code(value)
    }
}

impl Default for QType {
    fn default() -> (res: QType)
        ensures
            res == QType::A,
    {
        QType::A
    }
}

/// The class of a resource record; only `IN` (Internet) is known.
#[derive(Debug, Clone, Copy, PartialEq, Eq, Structural)]
pub enum QClass {
    IN,
}

impl QClass {
    /// What a number read from the wire stands for.
    pub open spec fn from_code(value: u16) -> Result<QClass, ()> {
        if value == 1 {
            Ok(QClass::IN)
        } else {
            Err(())
        }
    }

    /// The number that stands for this class on the wire.
    pub open spec fn code(self) -> u16 {
        match self {
            QClass::IN => 1,
        }
    }

    /// The number that stands for this class on the wire.
    pub fn to_byte(&self) -> (res: u16)
        ensures
            res == self.code(),
    {
        match self {
            QClass::IN => 1,
        }
    }
}

impl TryFrom<u16> for QClass {
    type Error = ();

    fn try_from(value: u16) -> (res: Result<QClass, ()>) {
        if value == 1 {
            Ok(QClass::IN)
        } else {
            Err(())
        }
    }
}

impl vstd::std_specs::convert::TryFromSpecImpl<u16> for QClass {
    open spec fn obeys_try_from_spec() -> bool {
        true
    }

    open spec fn try_from_spec(value: u16) -> Result<QClass, ()> {
        QClass::from_code(value)
    }
}

impl Default for QClass {
    fn default() -> (res: QClass)
        ensures
            res == QClass::IN,
    {
        QClass::IN
    }
}

/// Reading back the number of a type gives the type; a number that is
/// accepted names the type whose number it is.
pub proof fn law_qtype_code_roundtrip(t: QType, v: u16)
    ensures
        QType::from_code(t.code()) == Ok::<QType, ()>(t),
        QType::from_code(v) matches Ok(u) ==> u.code() == v,
{
}

/// Reading back the number of a class gives the class; a number that is
/// accepted names the class whose number it is.
pub proof fn law_qclass_code_roundtrip(c: QClass, v: u16)
    ensures
        QClass::from_code(c.code()) == Ok::<QClass, ()>(c),
        QClass::from_code(v) matches Ok(u) ==> u.code() == v,
{
}

// ---------------------------------------------------------------------------
// Header
// ---------------------------------------------------------------------------

/// Twelve zero bytes: the header of a fresh message.
pub open spec fn zero_header() -> Seq<u8> {
    Seq::new(12, |i: int| 0u8)
}

/// The header with its identifier replaced by `id`.
pub open spec fn with_id(h: Seq<u8>, id: Seq<u8>) -> Seq<u8> {
    h.update(0, id[0]).update(1, id[1])
}

/// The header with the QR bit (the top bit of the third byte) set.
pub open spec fn with_qr(h: Seq<u8>) -> Seq<u8> {
    h.update(2, h[2] | 0x80)
}

/// The header with its third byte (QR, opcode, AA, TC, RD) cleared.
pub open spec fn without_qr(h: Seq<u8>) -> Seq<u8> {
    h.update(2, 0)
}

/// The header with `opcode` or'ed into its third byte.
pub open spec fn with_opcode(h: Seq<u8>, opcode: u8) -> Seq<u8> {
    h.update(2, h[2] | opcode)
}

/// The header with the response code bit 0x04 of its fourth byte set.
pub open spec fn with_rcode(h: Seq<u8>) -> Seq<u8> {
    h.update(3, h[3] | 0x04)
}

/// The header with its fourth byte (RA, Z, RCODE) cleared.
pub open spec fn without_rcode(h: Seq<u8>) -> Seq<u8> {
    h.update(3, 0)
}

/// A count as the header carries it: truncated to 16 bits.
pub open spec fn count16(count: usize) -> u16 {
    (count % 0x1_0000) as u16
}

/// The header whose question count (bytes 4 and 5) is `count`.
pub open spec fn with_question_count(h: Seq<u8>, count: usize) -> Seq<u8> {
    h.update(4, be16(count16(count))[0]).update(5, be16(count16(count))[1])
}

/// The header whose answer count (bytes 6 and 7) is `count`.
pub open spec fn with_answer_count(h: Seq<u8>, count: usize) -> Seq<u8> {
    h.update(6, be16(count16(count))[0]).update(7, be16(count16(count))[1])
}

/// The question count that the header at the start of `buf` announces.
pub open spec fn question_count(buf: Seq<u8>) -> u16 {
    from_be16(buf.subrange(4, 6))
}

/// The fixed twelve-byte header of a DNS message.
#[derive(Clone, Copy, Debug)]
pub struct Header {
    pub inner: [u8; 12],
}

impl View for Header {
    type V = Seq<u8>;

    open spec fn view(&self) -> Seq<u8> {
        self.inner@
    }
}

impl Default for Header {
    fn default() -> (res: Header)
        ensures
            res@ == zero_header(),
    {
        let res = Header { inner: [0u8, 0, 0, 0, 0, 0, 0, 0, 0, 0, 0, 0] };
        assert(res@ =~= zero_header());
        res
    }
}

impl Header {
    /// Copies the two bytes of `id` into the identifier.
    pub fn set_id(&mut self, id: &[u8])
        requires
            id@.len() == 2,
        ensures
            final(self)@ == with_id(old(self)@, id@),
    {
        self.inner[0] = id[0];
        self.inner[1] = id[1];
    }

    /// Marks the message as a response.
    pub fn set_qr(&mut self)
        ensures
            final(self)@ == with_qr(old(self)@),
    {
        self.inner[2] = self.inner[2] | 0x80;
    }

    /// Clears the third byte: a query with opcode 0 and no flags.
    pub fn reset_qr(&mut self)
        ensures
            final(self)@ == without_qr(old(self)@),
    {
        self.inner[2] = 0x00;
    }

    /// Sets the response code bit 0x04 ("not implemented").
    pub fn set_rcode(&mut self)
        ensures
            final(self)@ == with_rcode(old(self)@),
    {
        self.inner[3] = self.inner[3] | 0x04;
    }

    /// Clears the fourth byte: no error, no flags.
    pub fn reset_rcode(&mut self)
        ensures
            final(self)@ == without_rcode(old(self)@),
    {
        self.inner[3] = 0x00;
    }

    /// Or's `opcode` into the third byte.
    pub fn set_opcode(&mut self, opcode: &u8)
        ensures
            final(self)@ == with_opcode(old(self)@, *opcode),
    {
        self.inner[2] = self.inner[2] | *opcode;
    }

    /// Writes the question count, truncated to 16 bits, big-endian.
    pub fn set_question(&mut self, count: usize)
        ensures
            final(self)@ == with_question_count(old(self)@, count),
    {
        let c: u16 = (count % 0x1_0000) as u16;
        let bytes = u16_to_be(c);
        self.inner[4] = bytes[0];
        self.inner[5] = bytes[1];
    }

    /// Writes the answer count, truncated to 16 bits, big-endian.
    pub fn set_answer(&mut self, count: usize)
        ensures
            final(self)@ == with_answer_count(old(self)@, count),
    {
        let c: u16 = (count % 0x1_0000) as u16;
        let bytes = u16_to_be(c);
        self.inner[6] = bytes[0];
        self.inner[7] = bytes[1];
    }
}

// ---------------------------------------------------------------------------
// Questions and answers
// ---------------------------------------------------------------------------

/// What a question is: a name in wire form, a type and a class.
pub struct QuestionModel {
    pub name: Seq<u8>,
    pub qtype: QType,
    pub qclass: QClass,
}

/// What an answer record is.
pub struct AnswerModel {
    pub name: Seq<u8>,
    pub qtype: QType,
    pub qclass: QClass,
    pub ttl: u32,
    pub rdlength: u16,
    pub rdata: u32,
}

/// A question's bytes: its name, then its type and class, big-endian.
pub open spec fn question_bytes(q: QuestionModel) -> Seq<u8> {
    q.name + be16(q.qtype.code()) + be16(q.qclass.code())
}

/// An answer's bytes: name, type, class, TTL, data length and data.
pub open spec fn answer_bytes(a: AnswerModel) -> Seq<u8> {
    a.name + be16(a.qtype.code()) + be16(a.qclass.code()) + be32(a.ttl) + be16(a.rdlength) + be32(
        a.rdata,
    )
}

/// The bytes of a list of questions, one after the other.
pub open spec fn questions_bytes(qs: Seq<QuestionModel>) -> Seq<u8>
    decreases qs.len(),
{
    if qs.len() == 0 {
        Seq::empty()
    } else {
        question_bytes(qs[0]) + questions_bytes(qs.drop_first())
    }
}

/// The bytes of a list of answers, one after the other.
pub open spec fn answers_bytes(r: Seq<AnswerModel>) -> Seq<u8>
    decreases r.len(),
{
    if r.len() == 0 {
        Seq::empty()
    } else {
        answer_bytes(r[0]) + answers_bytes(r.drop_first())
    }
}

/// Serialising one more question appends its bytes.
pub proof fn lemma_questions_bytes_push(qs: Seq<QuestionModel>, q: QuestionModel)
    ensures
        questions_bytes(qs.push(q)) == questions_bytes(qs) + question_bytes(q),
    decreases qs.len(),
{
    if qs.len() == 0 {
        assert(qs.push(q).drop_first() =~= Seq::<QuestionModel>::empty());
        assert(questions_bytes(Seq::<QuestionModel>::empty()) == Seq::<u8>::empty());
        assert(qs.push(q)[0] == q);
        assert(questions_bytes(qs.push(q)) =~= question_bytes(q));
    } else {
        assert(qs.push(q).drop_first() =~= qs.drop_first().push(q));
        lemma_questions_bytes_push(qs.drop_first(), q);
        assert(questions_bytes(qs.push(q)) =~= questions_bytes(qs) + question_bytes(q));
    }
}

/// Serialising one more answer appends its bytes.
pub proof fn lemma_answers_bytes_push(r: Seq<AnswerModel>, a: AnswerModel)
    ensures
        answers_bytes(r.push(a)) == answers_bytes(r) + answer_bytes(a),
    decreases r.len(),
{
    if r.len() == 0 {
        assert(r.push(a).drop_first() =~= Seq::<AnswerModel>::empty());
        assert(answers_bytes(Seq::<AnswerModel>::empty()) == Seq::<u8>::empty());
        assert(r.push(a)[0] == a);
        assert(answers_bytes(r.push(a)) =~= answer_bytes(a));
    } else {
        assert(r.push(a).drop_first() =~= r.drop_first().push(a));
        lemma_answers_bytes_push(r.drop_first(), a);
        assert(answers_bytes(r.push(a)) =~= answers_bytes(r) + answer_bytes(a));
    }
}

/// A question of a DNS message.
#[derive(Debug)]
pub struct Question {
    pub name: Vec<u8>,
    pub qtype: QType,
    pub qclass: QClass,
}

impl View for Question {
    type V = QuestionModel;

    open spec fn view(&self) -> QuestionModel {
        QuestionModel { name: self.name@, qtype: self.qtype, qclass: self.qclass }
    }
}

/// The models of a list of questions.
pub open spec fn question_models(qs: Seq<Question>) -> Seq<QuestionModel> {
    qs.map_values(|q: Question| q@)
}

impl Clone for Question {
    fn clone(&self) -> (res: Question)
        ensures
            res@ == self@,
    {
        let name = self.name.clone();
        assert(name@ =~= self.name@);
        Question { name, qtype: self.qtype, qclass: self.qclass }
    }
}

impl Question {
    pub fn new(name: Vec<u8>, qtype: QType, qclass: QClass) -> (res: Question)
        ensures
            res@ == (QuestionModel { name: name@, qtype, qclass }),
    {
        Question { name, qtype, qclass }
    }

    /// The question's bytes on the wire.
    pub fn to_vec(&self) -> (res: Vec<u8>)
        ensures
            res@ == question_bytes(self@),
    {
        let mut inner: Vec<u8> = Vec::new();
        append_bytes(&mut inner, self.name.as_slice());
        let t = u16_to_be(self.qtype.to_byte());
        append_bytes(&mut inner, t.as_slice());
        let c = u16_to_be(self.qclass.to_byte());
        append_bytes(&mut inner, c.as_slice());
        assert(inner@ =~= question_bytes(self@));
        inner
    }
}

/// An answer record of a DNS message.
#[derive(Debug)]
pub struct Answer {
    pub name: Vec<u8>,
    pub qtype: QType,
    pub qclass: QClass,
    pub ttl: u32,
    pub rdlength: u16,
    pub rdata: u32,
}

impl View for Answer {
    type V = AnswerModel;

    open spec fn view(&self) -> AnswerModel {
        AnswerModel {
            name: self.name@,
            qtype: self.qtype,
            qclass: self.qclass,
            ttl: self.ttl,
            rdlength: self.rdlength,
            rdata: self.rdata,
        }
    }
}

/// The models of a list of answers.
pub open spec fn answer_models(r: Seq<Answer>) -> Seq<AnswerModel> {
    r.map_values(|a: Answer| a@)
}

impl Clone for Answer {
    fn clone(&self) -> (res: Answer)
        ensures
            res@ == self@,
    {
        let name = self.name.clone();
        assert(name@ =~= self.name@);
        Answer {
            name,
            qtype: self.qtype,
            qclass: self.qclass,
            ttl: self.ttl,
            rdlength: self.rdlength,
            rdata: self.rdata,
        }
    }
}

impl Answer {
    /// The record's bytes on the wire.
    pub fn to_vec(&self) -> (res: Vec<u8>)
        ensures
            res@ == answer_bytes(self@),
    {
        let mut inner: Vec<u8> = Vec::new();
        append_bytes(&mut inner, self.name.as_slice());
        let t = u16_to_be(self.qtype.to_byte());
        append_bytes(&mut inner, t.as_slice());
        let c = u16_to_be(self.qclass.to_byte());
        append_bytes(&mut inner, c.as_slice());
        let ttl = u32_to_be(self.ttl);
        append_bytes(&mut inner, ttl.as_slice());
        let len = u16_to_be(self.rdlength);
        append_bytes(&mut inner, len.as_slice());
        let data = u32_to_be(self.rdata);
        append_bytes(&mut inner, data.as_slice());
        assert(inner@ =~= answer_bytes(self@));
        inner
    }
}

// ---------------------------------------------------------------------------
// Messages
// ---------------------------------------------------------------------------

/// What a message is: its header bytes, its questions and its answers.
pub struct MessageModel {
    pub header: Seq<u8>,
    pub questions: Seq<QuestionModel>,
    pub answers: Seq<AnswerModel>,
}

/// A message's bytes: the header, every question, then every answer.
pub open spec fn message_bytes(m: MessageModel) -> Seq<u8> {
    m.header + questions_bytes(m.questions) + answers_bytes(m.answers)
}

/// A DNS message.
#[derive(Debug)]
pub struct Message {
    pub header: Header,
    pub questions: Vec<Question>,
    pub answers: Vec<Answer>,
}

impl View for Message {
    type V = MessageModel;

    open spec fn view(&self) -> MessageModel {
        MessageModel {
            header: self.header@,
            questions: question_models(self.questions@),
            answers: answer_models(self.answers@),
        }
    }
}

impl Clone for Message {
    fn clone(&self) -> (res: Message)
        ensures
            res@ == self@,
    {
        let questions = self.questions.clone();
        let answers = self.answers.clone();
        assert(question_models(questions@) =~= question_models(self.questions@));
        assert(answer_models(answers@) =~= answer_models(self.answers@));
        Message { header: self.header, questions, answers }
    }
}

impl Message {
    /// An empty message with an all-zero header.
    pub fn new() -> (res: Message)
        ensures
            res@ == (MessageModel {
                header: zero_header(),
                questions: Seq::empty(),
                answers: Seq::empty(),
            }),
    {
        let res = Message { header: Header::default(), questions: Vec::new(), answers: Vec::new() };
        assert(question_models(res.questions@) =~= Seq::empty());
        assert(answer_models(res.answers@) =~= Seq::empty());
        res
    }

    /// The message's bytes on the wire; the message itself is left as it was.
    pub fn to_vec(&mut self) -> (res: Vec<u8>)
        ensures
            res@ == message_bytes(old(self)@),
            *final(self) == *old(self),
    {
        let mut data: Vec<u8> = Vec::new();
        append_bytes(&mut data, self.header.inner.as_slice());
        let nq = self.questions.len();
        let mut i: usize = 0;
        while i < nq
            invariant
                nq == self.questions@.len(),
                i <= nq,
                data@ == self.header@ + questions_bytes(
                    question_models(self.questions@).take(i as int),
                ),
            decreases nq - i,
        {
            let bytes = self.questions[i].to_vec();
            proof {
                let qm = question_models(self.questions@);
                assert(qm.take(i + 1) =~= qm.take(i as int).push(qm[i as int]));
                lemma_questions_bytes_push(qm.take(i as int), qm[i as int]);
            }
            append_bytes(&mut data, bytes.as_slice());
            i = i + 1;
        }
        assert(question_models(self.questions@).take(nq as int) =~= question_models(
            self.questions@,
        ));
        let mut answer_section: Vec<u8> = Vec::new();
        let na = self.answers.len();
        let mut j: usize = 0;
        while j < na
            invariant
                na == self.answers@.len(),
                j <= na,
                answer_section@ == answers_bytes(answer_models(self.answers@).take(j as int)),
            decreases na - j,
        {
            let bytes = self.answers[j].to_vec();
            proof {
                let am = answer_models(self.answers@);
                assert(am.take(j + 1) =~= am.take(j as int).push(am[j as int]));
                lemma_answers_bytes_push(am.take(j as int), am[j as int]);
            }
            append_bytes(&mut answer_section, bytes.as_slice());
            j = j + 1;
        }
        assert(answer_models(self.answers@).take(na as int) =~= answer_models(self.answers@));
        append_bytes(&mut data, answer_section.as_slice());
        assert(data@ =~= message_bytes(self@));
        data
    }

    /// Sets the question count to the number of `questions` and appends them.
    pub fn set_question(&mut self, questions: Vec<Question>)
        ensures
            final(self)@ == (MessageModel {
                header: with_question_count(old(self)@.header, questions@.len() as usize),
                questions: old(self)@.questions + question_models(questions@),
                answers: old(self)@.answers,
            }),
    {
        self.header.set_question(questions.len());
        let mut qs = questions;
        let ghost added = qs@;
        self.questions.append(&mut qs);
        assert(question_models(self.questions@) =~= old(self)@.questions + question_models(added));
    }

    /// Sets the answer count to the number of `answers` and appends them.
    pub fn set_fowarder_answer(&mut self, answers: Vec<Answer>)
        ensures
            final(self)@ == (MessageModel {
                header: with_answer_count(old(self)@.header, answers@.len() as usize),
                questions: old(self)@.questions,
                answers: old(self)@.answers + answer_models(answers@),
            }),
    {
        self.header.set_answer(answers.len());
        let mut r = answers;
        let ghost added = r@;
        self.answers.append(&mut r);
        assert(answer_models(self.answers@) =~= old(self)@.answers + answer_models(added));
    }

    /// A copy of the message's answers.
    pub fn get_answers(&self) -> (res: Vec<Answer>)
        ensures
            answer_models(res@) == self@.answers,
    {
        let res = self.answers.clone();
        assert(answer_models(res@) =~= answer_models(self.answers@));
        res
    }
}

// ---------------------------------------------------------------------------
// Reading names and messages
// ---------------------------------------------------------------------------

/// `s[k]` is the first zero byte of `s`.
pub open spec fn first_zero_at(s: Seq<u8>, k: int) -> bool {
    &&& 0 <= k < s.len()
    &&& s[k] == 0
    &&& forall|j: int| 0 <= j < k ==> s[j] != 0
}

/// The name at the start of `s`: every byte up to and including the first
/// zero byte, or nothing when `s` holds no zero byte.
pub open spec fn leading_name(s: Seq<u8>) -> Seq<u8> {
    if exists|k: int| #[trigger] first_zero_at(s, k) {
        s.take((choose|k: int| #[trigger] first_zero_at(s, k)) + 1)
    } else {
        Seq::empty()
    }
}

/// The name at the start of `buf` (see `leading_name`).
pub fn parse_name(buf: Vec<u8>) -> (res: Vec<u8>)
    ensures
        res@ == leading_name(buf@),
{
    let n = buf.len();
    let mut current_index: usize = 0;
    let mut name: Vec<u8> = Vec::new();
    while current_index < n
        invariant
            n == buf@.len(),
            current_index <= n,
            name@ == buf@.take(current_index as int),
            forall|j: int| 0 <= j < current_index ==> buf@[j] != 0,
        decreases n - current_index,
    {
        let current = buf[current_index];
        name.push(current);
        assert(buf@.take(current_index + 1) =~= buf@.take(current_index as int).push(current));
        if current == 0x00 {
            proof {
                let k = current_index as int;
                assert(first_zero_at(buf@, k));
                let c = choose|k: int| #[trigger] first_zero_at(buf@, k);
                assert(c == k);
            }
            return name;
        }
        current_index = current_index + 1;
    }
    assert(!exists|k: int| #[trigger] first_zero_at(buf@, k));
    Vec::new()
}

/// The two bytes at `at` of `s`, read as a big-endian number.
pub open spec fn be16_at(s: Seq<u8>, at: int) -> u16 {
    from_be16(s.subrange(at, at + 2))
}

/// The four bytes at `at` of `s`, read as a big-endian number.
pub open spec fn be32_at(s: Seq<u8>, at: int) -> u32 {
    from_be32(s.subrange(at, at + 4))
}

/// The buffers that `Message::parse` reads: a header, then a question whose
/// name is followed by type A and class IN, then an answer record as long as
/// the question with exactly four bytes of data.
pub open spec fn message_parse_ok(buf: Seq<u8>) -> bool {
    let body = buf.skip(12);
    let n = leading_name(body).len();
    &&& buf.len() >= 12
    &&& body.len() == 2 * n + 18
    &&& QType::from_code(be16_at(body, n as int)) is Ok
    &&& QClass::from_code(be16_at(body, n + 2int)) is Ok
}

/// The message that `Message::parse` reads from `buf`. The answer takes the
/// question's name, type and class; its own are skipped, not read.
pub open spec fn parsed_message(buf: Seq<u8>) -> MessageModel {
    let body = buf.skip(12);
    let name = leading_name(body);
    let n = name.len() as int;
    let rr = 2 * n + 8;
    MessageModel {
        header: buf.take(12),
        questions: seq![QuestionModel { name, qtype: QType::A, qclass: QClass::IN }],
        answers: seq![
            AnswerModel {
                name,
                qtype: QType::A,
                qclass: QClass::IN,
                ttl: be32_at(body, rr),
                rdlength: be16_at(body, rr + 4),
                rdata: be32_at(body, rr + 6),
            },
        ],
    }
}

proof fn lemma_leading_name_len(s: Seq<u8>)
    ensures
        leading_name(s).len() <= s.len(),
        leading_name(s) == s.take(leading_name(s).len() as int),
{
    if exists|k: int| #[trigger] first_zero_at(s, k) {
        let c = choose|k: int| #[trigger] first_zero_at(s, k);
        assert(s.take(c + 1).len() == c + 1);
    } else {
        assert(s.take(0) =~= Seq::<u8>::empty());
    }
}

/// Copies the first twelve bytes of `buf` into a header.
fn read_header(buf: &[u8]) -> (res: Header)
    requires
        buf@.len() >= 12,
    ensures
        res@ == buf@.take(12),
{
    let mut inner: [u8; 12] = [0u8, 0, 0, 0, 0, 0, 0, 0, 0, 0, 0, 0];
    let mut i: usize = 0;
    while i < 12
        invariant
            i <= 12,
            buf@.len() >= 12,
            forall|j: int| 0 <= j < i ==> inner@[j] == buf@[j],
        decreases 12 - i,
    {
        inner[i] = buf[i];
        i = i + 1;
    }
    assert(inner@ =~= buf@.take(12));
    Header { inner }
}

impl Message {
    /// Reads a forwarder's reply: one question and one answer record.
    pub fn parse(buf: &[u8]) -> (res: Message)
        requires
            message_parse_ok(buf@),
        ensures
            res@ == parsed_message(buf@),
    {
        let header = read_header(buf);
        let body = copy_range(buf, 12, buf.len());
        assert(body@ =~= buf@.skip(12));
        let name = parse_name(body.clone());
        proof {
            lemma_leading_name_len(body@);
        }
        let mut offset: usize = name.len();
        let qtype = match QType::try_from(read_be16(body.as_slice(), offset)) {
            Ok(t) => t,
            Err(_) => {
                proof {
                    assert(false);
                }
                QType::A
            },
        };
        offset = offset + 2;
        let qclass = match QClass::try_from(read_be16(body.as_slice(), offset)) {
            Ok(c) => c,
            Err(_) => {
                proof {
                    assert(false);
                }
                QClass::IN
            },
        };
        offset = offset + 2;
        let question = Question::new(name.clone(), qtype, qclass);
        offset = offset + question.to_vec().len();
        let ttl = read_be32(body.as_slice(), offset);
        offset = offset + 4;
        let rdlength = read_be16(body.as_slice(), offset);
        offset = offset + 2;
        let rdata = read_be32(body.as_slice(), offset);
        let answer = Answer { name, qtype, qclass, ttl, rdlength, rdata };
        let mut questions: Vec<Question> = Vec::new();
        questions.push(question);
        let mut answers: Vec<Answer> = Vec::new();
        answers.push(answer);
        let res = Message { header, questions, answers };
        assert(res@.questions =~= parsed_message(buf@).questions);
        assert(res@.answers =~= parsed_message(buf@).answers);
        res
    }

    /// `Some` of what `parse` reads when `buf` is a buffer that it reads,
    /// `None` otherwise.
    pub fn checked_parse(buf: &[u8]) -> (res: Option<Message>)
        ensures
            res is Some <==> message_parse_ok(buf@),
            res matches Some(m) ==> m@ == parsed_message(buf@),
    {
        if buf.len() < 12 {
            return None;
        }
        let body = copy_range(buf, 12, buf.len());
        assert(body@ =~= buf@.skip(12));
        let name = parse_name(body.clone());
        proof {
            lemma_leading_name_len(body@);
        }
        let n = name.len();
        let len = body.len();
        if len < 18 || len - 18 < n || len - 18 - n != n {
            return None;
        }
        let t = QType::try_from(read_be16(body.as_slice(), n));
        let c = QClass::try_from(read_be16(body.as_slice(), n + 2));
        if t.is_err() || c.is_err() {
            return None;
        }
        Some(Message::parse(buf))
    }
}

// ---------------------------------------------------------------------------
// Reading the questions of a request
// ---------------------------------------------------------------------------

/// A byte that ends a name while reading questions: the zero terminator,
/// or 0xC0, the first byte of a compression pointer.
pub open spec fn is_name_stop(b: u8) -> bool {
    b == 0 || b == 0xC0
}

/// The first index at or after `p` where `body` holds a stop byte, or the
/// length of `body` when there is none.
pub open spec fn next_stop(body: Seq<u8>, p: nat) -> nat
    decreases body.len() - p,
{
    if p >= body.len() {
        body.len()
    } else if is_name_stop(body[p as int]) {
        p
    } else {
        next_stop(body, p + 1)
    }
}

/// `next_stop` lies between `p` and the end, at a stop byte unless at the end,
/// with no stop byte before it.
pub proof fn lemma_next_stop(body: Seq<u8>, p: nat)
    requires
        p <= body.len(),
    ensures
        p <= next_stop(body, p) <= body.len(),
        next_stop(body, p) < body.len() ==> is_name_stop(body[next_stop(body, p) as int]),
        forall|j: int| p <= j < next_stop(body, p) ==> !is_name_stop(#[trigger] body[j]),
    decreases body.len() - p,
{
    if p < body.len() && !is_name_stop(body[p as int]) {
        lemma_next_stop(body, p + 1);
    }
}

/// The names that the questions of `body` carry, read from index `p` on,
/// when at most `wanted` (at least one) are read and `base` is the first
/// zero-terminated name read so far (empty if none).
///
/// Each name runs from `p` to the next stop byte. A zero byte ends the name
/// and belongs to it. A 0xC0 byte stands for a pointer: the name is the
/// bytes before it followed by `base` without its first four bytes, and is
/// undefined (`None`) when `base` is shorter than four bytes. The next name
/// starts five bytes after the stop byte (past type and class, or past the
/// pointer's second byte, type and the first byte of class). A name that
/// reaches the end of `body` without a stop byte is dropped.
pub open spec fn scan_names(body: Seq<u8>, p: nat, base: Seq<u8>, wanted: nat) -> Option<
    Seq<Seq<u8>>,
>
    decreases body.len() + 5 - p,
{
    if p >= body.len() {
        Some(Seq::empty())
    } else {
        let e = next_stop(body, p);
        if e >= body.len() {
            Some(Seq::empty())
        } else {
            let terminated = body[e as int] == 0;
            if !terminated && base.len() < 4 {
                None
            } else {
                let name = if terminated {
                    body.subrange(p as int, e + 1int)
                } else {
                    body.subrange(p as int, e as int) + base.skip(4)
                };
                let next_base = if terminated && base.len() == 0 {
                    name
                } else {
                    base
                };
                if wanted <= 1 {
                    Some(seq![name])
                } else {
                    proof {
                        lemma_next_stop(body, p);
                    }
                    match scan_names(body, e + 5, next_base, (wanted - 1) as nat) {
                        Some(rest) => Some(seq![name] + rest),
                        None => None,
                    }
                }
            }
        }
    }
}

/// The names of the questions in the request `buf`, read as
/// `Question::parse` reads them, or `None` where it cannot (see
/// `scan_names`). As many names are read as the header announces; when it
/// announces none, only the first byte after the header is looked at.
pub open spec fn question_names(buf: Seq<u8>) -> Option<Seq<Seq<u8>>> {
    let body = buf.skip(12);
    let qc = question_count(buf);
    if qc == 0 {
        if body.len() > 0 && is_name_stop(body[0]) {
            scan_names(body, 0, Seq::empty(), 1)
        } else {
            Some(Seq::empty())
        }
    } else {
        scan_names(body, 0, Seq::empty(), qc as nat)
    }
}

/// Questions of type A and class IN with the given names.
pub open spec fn questions_named(names: Seq<Seq<u8>>) -> Seq<QuestionModel> {
    names.map_values(|n: Seq<u8>| QuestionModel { name: n, qtype: QType::A, qclass: QClass::IN })
}

/// `names` put before what `rest` holds.
pub open spec fn prefixed(names: Seq<Seq<u8>>, rest: Option<Seq<Seq<u8>>>) -> Option<Seq<Seq<u8>>> {
    match rest {
        Some(r) => Some(names + r),
        None => None,
    }
}

/// The question count announced by the header at the start of `buf`.
pub fn parse_questions_count(buf: &[u8]) -> (res: u16)
    requires
        buf@.len() >= 12,
    ensures
        res == question_count(buf@),
{
    read_be16(buf, 4)
}

/// Reads at most `wanted` questions from `body` (see `scan_names`).
fn scan_questions(body: &[u8], wanted: u16) -> (res: Option<Vec<Question>>)
    requires
        wanted >= 1,
    ensures
        match scan_names(body@, 0, Seq::empty(), wanted as nat) {
            Some(names) => res matches Some(qs) && question_models(qs@) == questions_named(names),
            None => res is None,
        },
{
    let len = body.len();
    let mut questions: Vec<Question> = Vec::new();
    let mut base: Vec<u8> = Vec::new();
    let mut p: usize = 0;
    let mut remaining: u16 = wanted;
    let ghost mut names: Seq<Seq<u8>> = Seq::empty();
    loop
        invariant
            len == body@.len(),
            p <= len,
            remaining >= 1,
            scan_names(body@, 0, Seq::empty(), wanted as nat) == prefixed(
                names,
                scan_names(body@, p as nat, base@, remaining as nat),
            ),
            question_models(questions@) == questions_named(names),
        decreases len - p,
    {
        if p >= len {
            assert(names + Seq::<Seq<u8>>::empty() =~= names);
            return Some(questions);
        }
        let ghost p0 = p;
        let ghost base0 = base@;
        let ghost names0 = names;
        let mut e: usize = p;
        while e < len && !(body[e] == 0 || body[e] == 0xC0)
            invariant
                len == body@.len(),
                p <= e <= len,
                next_stop(body@, p as nat) == next_stop(body@, e as nat),
            decreases len - e,
        {
            e = e + 1;
        }
        proof {
            lemma_next_stop(body@, p as nat);
        }
        if e >= len {
            assert(names + Seq::<Seq<u8>>::empty() =~= names);
            return Some(questions);
        }
        let terminated = body[e] == 0;
        if !terminated && base.len() < 4 {
            return None;
        }
        let mut name: Vec<u8>;
        if terminated {
            name = copy_range(body, p, e + 1);
        } else {
            name = copy_range(body, p, e);
            append_range(&mut name, base.as_slice(), 4, base.len());
            assert(base@.subrange(4, base@.len() as int) =~= base@.skip(4));
        }
        let ghost this_name = name@;
        if terminated && base.len() == 0 {
            base = name.clone();
            assert(base@ =~= this_name);
        }
        let ghost old_questions = questions@;
        let q = Question::new(name, QType::A, QClass::IN);
        let ghost qm = q@;
        questions.push(q);
        proof {
            assert(questions@ =~= old_questions.push(q));
            assert(question_models(questions@) =~= question_models(old_questions).push(qm));
            assert(questions_named(names.push(this_name)) =~= questions_named(names).push(qm));
            names = names.push(this_name);
        }
        if remaining <= 1 {
            assert(names =~= names.drop_last() + seq![this_name]);
            return Some(questions);
        }
        remaining = remaining - 1;
        if len - e <= 5 {
            p = len;
        } else {
            p = e + 5;
        }
        proof {
            assert(e == next_stop(body@, p0 as nat));
            assert(scan_names(body@, (e + 5) as nat, base@, remaining as nat) == scan_names(
                body@,
                p as nat,
                base@,
                remaining as nat,
            ));
            assert(scan_names(body@, p0 as nat, base0, (remaining + 1) as nat) == prefixed(
                seq![this_name],
                scan_names(body@, p as nat, base@, remaining as nat),
            ));
            assert(names =~= names0 + seq![this_name]);
            let r = scan_names(body@, p as nat, base@, remaining as nat);
            match r {
                Some(rest) => {
                    assert(names0 + (seq![this_name] + rest) =~= names + rest);
                },
                None => {},
            }
        }
    }
}

impl Question {
    /// The questions of the request `buf` (see `question_names`).
    pub fn parse(buf: &[u8]) -> (res: Vec<Question>)
        requires
            buf@.len() >= 12,
            question_names(buf@) is Some,
        ensures
            question_models(res@) == questions_named(question_names(buf@).unwrap()),
    {
        match Question::checked_parse(buf) {
            Some(qs) => qs,
            None => {
                proof {
                    assert(false);
                }
                Vec::new()
            },
        }
    }

    /// `Some` of what `parse` reads when it can read `buf`, `None` otherwise.
    pub fn checked_parse(buf: &[u8]) -> (res: Option<Vec<Question>>)
        ensures
            res is Some <==> (buf@.len() >= 12 && question_names(buf@) is Some),
            res matches Some(qs) ==> question_models(qs@) == questions_named(
                question_names(buf@).unwrap(),
            ),
    {
        if buf.len() < 12 {
            return None;
        }
        let qc = parse_questions_count(buf);
        let body = copy_range(buf, 12, buf.len());
        assert(body@ =~= buf@.skip(12));
        if qc == 0 {
            if body.len() > 0 && (body[0] == 0 || body[0] == 0xC0) {
                scan_questions(body.as_slice(), 1)
            } else {
                let res: Vec<Question> = Vec::new();
                assert(question_models(res@) =~= questions_named(Seq::empty()));
                Some(res)
            }
        } else {
            scan_questions(body.as_slice(), qc)
        }
    }
}

// ---------------------------------------------------------------------------
// Laws
// ---------------------------------------------------------------------------

/// Writing a question count into a header and reading it back gives the
/// count, truncated to 16 bits.
pub proof fn law_question_count_roundtrip(h: Seq<u8>, count: usize, rest: Seq<u8>)
    requires
        h.len() == 12,
    ensures
        question_count(with_question_count(h, count) + rest) == count16(count),
{
    let b = with_question_count(h, count) + rest;
    lemma_be16_roundtrip(count16(count), b.subrange(4, 6));
    assert(b.subrange(4, 6) =~= be16(count16(count)));
}

/// Reading back what `Message::parse` read gives the buffer again, when the
/// answer record repeats the question's name, type and class (the parts of
/// the answer that `parse` skips).
pub proof fn law_parse_then_serialize(buf: Seq<u8>)
    requires
        message_parse_ok(buf),
        ({
            let body = buf.skip(12);
            let n = leading_name(body).len() as int;
            body.subrange(n + 4, 2 * n + 8) == body.subrange(0, n + 4)
        }),
    ensures
        message_bytes(parsed_message(buf)) == buf,
{
    let body = buf.skip(12);
    lemma_leading_name_len(body);
    let name = leading_name(body);
    let n = name.len() as int;
    let m = parsed_message(buf);
    let rr = 2 * n + 8;
    lemma_be16_roundtrip(1, body.subrange(n, n + 2));
    lemma_be16_roundtrip(1, body.subrange(n + 2, n + 4));
    lemma_be32_roundtrip(0, body.subrange(rr, rr + 4));
    lemma_be16_roundtrip(0, body.subrange(rr + 4, rr + 6));
    lemma_be32_roundtrip(0, body.subrange(rr + 6, rr + 10));
    assert(QType::from_code(be16_at(body, n)) is Ok);
    assert(be16_at(body, n) == 1);
    assert(be16_at(body, n + 2) == 1);
    let q = m.questions[0];
    let a = m.answers[0];
    lemma_questions_bytes_push(Seq::empty(), q);
    assert(Seq::<QuestionModel>::empty().push(q) =~= m.questions);
    assert(questions_bytes(Seq::<QuestionModel>::empty()) == Seq::<u8>::empty());
    assert(questions_bytes(m.questions) =~= question_bytes(q));
    lemma_answers_bytes_push(Seq::empty(), a);
    assert(Seq::<AnswerModel>::empty().push(a) =~= m.answers);
    assert(answers_bytes(Seq::<AnswerModel>::empty()) == Seq::<u8>::empty());
    assert(answers_bytes(m.answers) =~= answer_bytes(a));
    assert(question_bytes(q) =~= body.subrange(0, n + 4));
    assert(answer_bytes(a) =~= body.subrange(n + 4, rr) + body.subrange(rr, rr + 4) + body.subrange(
        rr + 4,
        rr + 6,
    ) + body.subrange(rr + 6, rr + 10));
    assert(message_bytes(m) =~= buf);
}

/// A name that `Question::parse` reads back as it is: it ends with its only
/// stop byte, the zero terminator.
pub open spec fn simple_name(name: Seq<u8>) -> bool {
    &&& name.len() >= 1
    &&& name.last() == 0
    &&& forall|j: int| 0 <= j < name.len() - 1 ==> !is_name_stop(#[trigger] name[j])
}

/// The names of a list of questions.
pub open spec fn names_of(qs: Seq<QuestionModel>) -> Seq<Seq<u8>> {
    qs.map_values(|q: QuestionModel| q.name)
}

proof fn lemma_next_stop_at(body: Seq<u8>, p: nat, e: nat)
    requires
        p <= e < body.len(),
        is_name_stop(body[e as int]),
        forall|j: int| p <= j < e ==> !is_name_stop(#[trigger] body[j]),
    ensures
        next_stop(body, p) == e,
    decreases e - p,
{
    if p < e {
        lemma_next_stop_at(body, p + 1, e);
    }
}

proof fn lemma_scan_simple_questions(body: Seq<u8>, p: nat, base: Seq<u8>, qs: Seq<QuestionModel>)
    requires
        qs.len() >= 1,
        forall|i: int| 0 <= i < qs.len() ==> simple_name(#[trigger] qs[i].name),
        p + questions_bytes(qs).len() <= body.len(),
        body.subrange(p as int, p + questions_bytes(qs).len() as int) == questions_bytes(qs),
    ensures
        scan_names(body, p, base, qs.len()) == Some(names_of(qs)),
    decreases qs.len(),
{
    let pi = p as int;
    let all = questions_bytes(qs);
    let window = body.subrange(pi, pi + all.len());
    let q = qs[0];
    let qb = question_bytes(q);
    let len0 = q.name.len() as int;
    let e = (pi + len0 - 1) as nat;
    assert(simple_name(qs[0].name));
    assert(all == qb + questions_bytes(qs.drop_first()));
    assert forall|j: int| pi <= j < e implies !is_name_stop(#[trigger] body[j]) by {
        assert(body[j] == window[j - pi]);
        assert(body[j] == q.name[j - pi]);
    }
    assert(body[e as int] == window[e - pi]);
    assert(body[e as int] == 0);
    lemma_next_stop_at(body, p, e);
    assert(body.subrange(pi, e + 1int) =~= q.name) by {
        assert forall|j: int| 0 <= j < len0 implies body.subrange(pi, e + 1int)[j] == q.name[j] by {
            assert(body.subrange(pi, e + 1int)[j] == window[j]);
        }
    }
    let next_base = if base.len() == 0 {
        q.name
    } else {
        base
    };
    if qs.len() == 1 {
        assert(names_of(qs) =~= seq![q.name]);
    } else {
        let rest = qs.drop_first();
        let rb = questions_bytes(rest);
        let p2 = (e + 5) as nat;
        let p2i = p2 as int;
        assert(qb.len() == len0 + 4);
        assert(p2i == pi + qb.len());
        assert(body.subrange(p2i, p2i + rb.len()) =~= rb) by {
            assert forall|j: int| 0 <= j < rb.len() implies body.subrange(p2i, p2i + rb.len())[j]
                == rb[j] by {
                assert(body.subrange(p2i, p2i + rb.len())[j] == window[qb.len() + j]);
            }
        }
        assert forall|i: int| 0 <= i < rest.len() implies simple_name(#[trigger] rest[i].name) by {
            assert(rest[i] == qs[i + 1]);
        }
        lemma_scan_simple_questions(body, p2, next_base, rest);
        assert(names_of(qs) =~= seq![q.name] + names_of(rest));
    }
}

/// Reading the questions of a serialised message gives back its questions,
/// when its header announces as many questions as it holds (at least one)
/// and every question name ends with its only stop byte.
pub proof fn law_questions_roundtrip(m: MessageModel)
    requires
        m.header.len() == 12,
        m.questions.len() >= 1,
        question_count(m.header) == m.questions.len(),
        forall|i: int| 0 <= i < m.questions.len() ==> simple_name(#[trigger] m.questions[i].name),
    ensures
        question_names(message_bytes(m)) == Some(names_of(m.questions)),
        questions_named(names_of(m.questions)) == m.questions,
{
    let buf = message_bytes(m);
    let qb = questions_bytes(m.questions);
    let body = buf.skip(12);
    assert(body =~= qb + answers_bytes(m.answers));
    assert(buf.subrange(4, 6) =~= m.header.subrange(4, 6));
    assert(question_count(buf) == m.questions.len());
    assert(body.subrange(0, qb.len() as int) =~= qb);
    lemma_scan_simple_questions(body, 0, Seq::empty(), m.questions);
    assert forall|i: int| 0 <= i < m.questions.len() implies #[trigger] questions_named(
        names_of(m.questions),
    )[i] == m.questions[i] by {
        let q = m.questions[i];
        assert(q.qtype == QType::A);
        assert(q.qclass == QClass::IN);
    }
    assert(questions_named(names_of(m.questions)) =~= m.questions);
}

/// One question as it stands in a request: the label bytes of its name,
/// whether its name ends in a compression pointer (0xC0) rather than the
/// zero terminator, and the four bytes that follow that end byte.
pub struct QuestionItem {
    pub labels: Seq<u8>,
    pub pointer: bool,
    pub trailer: Seq<u8>,
}

/// The bytes of a question item.
pub open spec fn item_bytes(it: QuestionItem) -> Seq<u8> {
    it.labels + seq![if it.pointer { 0xC0u8 } else { 0u8 }] + it.trailer
}

/// The bytes of question items, one after the other.
pub open spec fn items_bytes(items: Seq<QuestionItem>) -> Seq<u8>
    decreases items.len(),
{
    if items.len() == 0 {
        Seq::empty()
    } else {
        item_bytes(items[0]) + items_bytes(items.drop_first())
    }
}

/// A question item whose labels hold no end byte and whose trailer has
/// four bytes.
pub open spec fn item_well_formed(it: QuestionItem) -> bool {
    &&& it.trailer.len() == 4
    &&& forall|j: int| 0 <= j < it.labels.len() ==> !is_name_stop(#[trigger] it.labels[j])
}

/// The name a request gives a question item: its labels and the zero
/// terminator, or, for a pointer, its labels followed by `first` (the
/// request's first full name) without its first four bytes.
pub open spec fn item_name(it: QuestionItem, first: Seq<u8>) -> Seq<u8> {
    if it.pointer {
        it.labels + first.skip(4)
    } else {
        it.labels.push(0)
    }
}

proof fn lemma_scan_items(body: Seq<u8>, p: nat, base: Seq<u8>, items: Seq<QuestionItem>)
    requires
        items.len() >= 1,
        base.len() >= 1,
        forall|i: int| 0 <= i < items.len() ==> item_well_formed(#[trigger] items[i]),
        forall|i: int| 0 <= i < items.len() ==> (#[trigger] items[i]).pointer ==> base.len() >= 4,
        p + items_bytes(items).len() <= body.len(),
        body.subrange(p as int, p + items_bytes(items).len() as int) == items_bytes(items),
    ensures
        scan_names(body, p, base, items.len()) == Some(
            Seq::new(items.len(), |i: int| item_name(items[i], base)),
        ),
    decreases items.len(),
{
    let pi = p as int;
    let all = items_bytes(items);
    let window = body.subrange(pi, pi + all.len());
    let it = items[0];
    let ib = item_bytes(it);
    let l = it.labels.len() as int;
    let e = (pi + l) as nat;
    assert(item_well_formed(items[0]));
    assert(all == ib + items_bytes(items.drop_first()));
    assert forall|j: int| pi <= j < e implies !is_name_stop(#[trigger] body[j]) by {
        assert(body[j] == window[j - pi]);
        assert(body[j] == it.labels[j - pi]);
    }
    assert(body[e as int] == window[l]);
    assert(body[e as int] == ib[l]);
    lemma_next_stop_at(body, p, e);
    assert(body.subrange(pi, e as int) =~= it.labels) by {
        assert forall|j: int| 0 <= j < l implies body.subrange(pi, e as int)[j] == it.labels[j] by {
            assert(body.subrange(pi, e as int)[j] == window[j]);
        }
    }
    if !it.pointer {
        assert(body.subrange(pi, e + 1int) =~= it.labels.push(0));
    }
    let expected = Seq::new(items.len(), |i: int| item_name(items[i], base));
    if items.len() == 1 {
        assert(expected =~= seq![item_name(it, base)]);
    } else {
        let rest = items.drop_first();
        let rb = items_bytes(rest);
        let p2 = (e + 5) as nat;
        let p2i = p2 as int;
        assert(ib.len() == l + 5);
        assert(body.subrange(p2i, p2i + rb.len()) =~= rb) by {
            assert forall|j: int| 0 <= j < rb.len() implies body.subrange(p2i, p2i + rb.len())[j]
                == rb[j] by {
                assert(body.subrange(p2i, p2i + rb.len())[j] == window[ib.len() + j]);
            }
        }
        assert forall|i: int| 0 <= i < rest.len() implies item_well_formed(#[trigger] rest[i]) by {
            assert(rest[i] == items[i + 1]);
        }
        assert forall|i: int| 0 <= i < rest.len() && (#[trigger] rest[i]).pointer implies base.len()
            >= 4 by {
            assert(rest[i] == items[i + 1]);
        }
        lemma_scan_items(body, p2, base, rest);
        assert(expected =~= seq![item_name(it, base)] + Seq::new(
            rest.len(),
            |i: int| item_name(rest[i], base),
        ));
    }
}

/// In a request whose first question is written out in full, every name
/// that ends in a compression pointer is completed with the request's FIRST
/// full name without its first four bytes; full names written later never
/// change that. Every full name is read as written. This holds for any mix
/// of full and compressed names, as many as the header announces.
pub proof fn law_compressed_names_use_first_full_name(
    h: Seq<u8>,
    items: Seq<QuestionItem>,
    rest: Seq<u8>,
)
    requires
        h.len() == 12,
        items.len() >= 1,
        question_count(h) == items.len(),
        forall|i: int| 0 <= i < items.len() ==> item_well_formed(#[trigger] items[i]),
        !items[0].pointer,
        forall|i: int| 0 <= i < items.len() ==> (#[trigger] items[i]).pointer ==> items[0].labels.len()
            >= 3,
    ensures
        question_names(h + items_bytes(items) + rest) matches Some(names) && names.len()
            == items.len() && forall|i: int|
            0 <= i < items.len() ==> #[trigger] names[i] == item_name(
                items[i],
                items[0].labels.push(0),
            ),
{
    let buf = h + items_bytes(items) + rest;
    let ib = items_bytes(items);
    let body = buf.skip(12);
    assert(body =~= ib + rest);
    assert(buf.subrange(4, 6) =~= h.subrange(4, 6));
    let first = items[0].labels.push(0);
    let it = items[0];
    let l = it.labels.len() as int;
    let e = l as nat;
    assert(item_well_formed(items[0]));
    assert(ib == item_bytes(it) + items_bytes(items.drop_first()));
    assert forall|j: int| 0 <= j < e implies !is_name_stop(#[trigger] body[j]) by {
        assert(body[j] == it.labels[j]);
    }
    assert(body[e as int] == 0);
    lemma_next_stop_at(body, 0, e);
    assert(body.subrange(0, e + 1int) =~= first);
    let expected = Seq::new(items.len(), |i: int| item_name(items[i], first));
    if items.len() == 1 {
        assert(question_names(buf) == Some(seq![first]));
        assert(expected =~= seq![first]);
    } else {
        let others = items.drop_first();
        let ob = items_bytes(others);
        let p2 = (e + 5) as nat;
        assert(item_bytes(it).len() == l + 5);
        assert(body.subrange(p2 as int, p2 + ob.len() as int) =~= ob) by {
            assert forall|j: int| 0 <= j < ob.len() implies body.subrange(p2 as int, p2 + ob.len() as int)[j]
                == ob[j] by {
                assert(body[p2 + j] == ib[item_bytes(it).len() + j]);
            }
        }
        assert forall|i: int| 0 <= i < others.len() implies item_well_formed(
            #[trigger] others[i],
        ) by {
            assert(others[i] == items[i + 1]);
        }
        assert forall|i: int| 0 <= i < others.len() && (#[trigger] others[i]).pointer implies first.len()
            >= 4 by {
            assert(others[i] == items[i + 1]);
        }
        lemma_scan_items(body, p2, first, others);
        assert(expected =~= seq![first] + Seq::new(
            others.len(),
            |i: int| item_name(others[i], first),
        ));
    }
    assert(forall|i: int| 0 <= i < items.len() ==> expected[i] == item_name(items[i], first));
}

/// A name whose first zero byte is its last byte.
pub open spec fn zero_terminated(name: Seq<u8>) -> bool {
    &&& name.len() >= 1
    &&& name.last() == 0
    &&& forall|j: int| 0 <= j < name.len() - 1 ==> #[trigger] name[j] != 0
}

/// Any reply made of twelve header bytes, whatever flags they hold, a
/// question whose name ends at its first zero byte, and an answer record
/// whose name is as long as the question's, is read by `Message::parse`:
/// the header as it is, the question, and an answer with the question's
/// name, type and class and the record's own TTL, data length and data.
pub proof fn law_reply_read_whatever_header(h: Seq<u8>, q: QuestionModel, a: AnswerModel)
    requires
        h.len() == 12,
        zero_terminated(q.name),
        a.name.len() == q.name.len(),
    ensures
        message_parse_ok(h + question_bytes(q) + answer_bytes(a)),
        parsed_message(h + question_bytes(q) + answer_bytes(a)) == (MessageModel {
            header: h,
            questions: seq![q],
            answers: seq![
                AnswerModel {
                    name: q.name,
                    qtype: q.qtype,
                    qclass: q.qclass,
                    ttl: a.ttl,
                    rdlength: a.rdlength,
                    rdata: a.rdata,
                },
            ],
        }),
{
    let buf = h + question_bytes(q) + answer_bytes(a);
    let body = buf.skip(12);
    let qb = question_bytes(q);
    let ab = answer_bytes(a);
    assert(body =~= qb + ab);
    let n = q.name.len() as int;
    assert(first_zero_at(body, n - 1)) by {
        assert(body[n - 1] == q.name[n - 1]);
        assert forall|j: int| 0 <= j < n - 1 implies body[j] != 0 by {
            assert(body[j] == q.name[j]);
        }
    }
    assert forall|k: int| #[trigger] first_zero_at(body, k) implies k == n - 1 by {
        if k < n - 1 {
            assert(body[k] == q.name[k]);
        }
    }
    let c = choose|k: int| #[trigger] first_zero_at(body, k);
    assert(c == n - 1);
    assert(leading_name(body) =~= q.name);
    assert(q.qtype == QType::A);
    assert(q.qclass == QClass::IN);
    assert(a.qtype == QType::A);
    assert(a.qclass == QClass::IN);
    let rr = 2 * n + 8;
    assert(body.subrange(n, n + 2) =~= be16(1));
    assert(body.subrange(n + 2, n + 4) =~= be16(1));
    assert(body.subrange(rr, rr + 4) =~= be32(a.ttl));
    assert(body.subrange(rr + 4, rr + 6) =~= be16(a.rdlength));
    assert(body.subrange(rr + 6, rr + 10) =~= be32(a.rdata));
    lemma_be16_roundtrip(1, be16(1));
    lemma_be16_roundtrip(a.rdlength, be16(1));
    lemma_be32_roundtrip(a.ttl, be32(0));
    lemma_be32_roundtrip(a.rdata, be32(0));
    assert(buf.take(12) =~= h);
    let m = parsed_message(buf);
    assert(m.answers[0] == (AnswerModel {
        name: q.name,
        qtype: q.qtype,
        qclass: q.qclass,
        ttl: a.ttl,
        rdlength: a.rdlength,
        rdata: a.rdata,
    }));
    assert(m.questions[0] == q);
    assert(m.questions =~= seq![q]);
}

} // verus!
