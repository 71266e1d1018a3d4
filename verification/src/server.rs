//! The forwarding server: its address, and the decisions it takes on a
//! request (the reply skeleton, the query sent upstream for each question,
//! and the answers taken from the upstream replies). The socket loop that
//! carries these out lives with the program.
use vstd::prelude::*;

use crate::message::{
    answer_models, law_question_count_roundtrip, law_questions_roundtrip, message_bytes,
    leading_name, message_parse_ok, names_of, parsed_message, question_models, question_names,
    simple_name, with_id, with_opcode, with_qr, with_question_count, with_rcode, without_qr,
    without_rcode, zero_header, Answer, AnswerModel, Message, MessageModel, Question,
    QuestionModel,
};

verus! {

/// The character of a decimal digit.
pub open spec fn digit_char(d: nat) -> char {
    (d + 48) as char
}

/// The decimal text of `n`, without leading zeros.
pub open spec fn decimal(n: nat) -> Seq<char>
    decreases n,
{
    if n < 10 {
        seq![digit_char(n)]
    } else {
        decimal(n / 10).push(digit_char(n % 10))
    }
}

/// Decimal text of a port number, as `u16`'s `Display` writes it.
#[verifier::external_body]
fn port_text(port: u16) -> (res: String)
    ensures
        res@ == decimal(port as nat),
{
    port.to_string()
}

/// Where the server listens.
pub struct DnsServer {
    pub host: String,
    pub port: u16,
}

impl DnsServer {
    /// The server on 127.0.0.1, port 2053.
    pub fn new() -> (res: DnsServer)
        ensures
            res.host@ == "127.0.0.1"@,
            res.port == 2053,
    {
        DnsServer { host: "127.0.0.1".to_string(), port: 2053 }
    }

    /// The address to bind: host, a colon, then the port in decimal.
    pub fn get_address(&self) -> (res: String)
        ensures
            res@ == self.host@ + seq![':'] + decimal(self.port as nat),
    {
        let mut address = self.host.clone();
        address.append(":");
        let port = port_text(self.port);
        address.append(port.as_str());
        proof {
            reveal_strlit(":");
        }
        address
    }
}

/// The program's command-line arguments.
pub struct ServerArguments {
    /// The upstream resolver.
    pub resolver: String,
}

/// The header of the reply to `request`: the request's identifier, the QR
/// bit, the request's third byte or'ed in, and response code bit 0x04.
pub open spec fn reply_header(request: Seq<u8>) -> Seq<u8> {
    with_rcode(with_opcode(with_qr(with_id(zero_header(), request.take(2))), request[2]))
}

/// The reply skeleton for `request`: a fresh message whose header is
/// `reply_header(request)`, with no questions and no answers yet.
pub fn reply_skeleton(request: &[u8]) -> (res: Message)
    requires
        request@.len() >= 3,
    ensures
        res@ == (MessageModel {
            header: reply_header(request@),
            questions: Seq::empty(),
            answers: Seq::empty(),
        }),
{
    let mut message = Message::new();
    let mut id: Vec<u8> = Vec::new();
    id.push(request[0]);
    id.push(request[1]);
    assert(id@ =~= request@.take(2));
    message.header.set_id(id.as_slice());
    message.header.set_qr();
    message.header.set_opcode(&request[2]);
    message.header.set_rcode();
    message
}

/// The header of the query sent upstream for one question of a request
/// whose reply skeleton has header `h`.
pub open spec fn forward_header(h: Seq<u8>) -> Seq<u8> {
    with_question_count(without_rcode(without_qr(h)), 1)
}

/// The bytes sent upstream for `question`: the skeleton with its third and
/// fourth header bytes cleared, the question count set to one, and
/// `question` added to its questions.
pub fn forward_query(skeleton: &Message, question: Question) -> (res: Vec<u8>)
    ensures
        res@ == message_bytes(
            MessageModel {
                header: forward_header(skeleton@.header),
                questions: skeleton@.questions.push(question@),
                answers: skeleton@.answers,
            },
        ),
{
    let mut forwarder_message = skeleton.clone();
    forwarder_message.header.reset_qr();
    forwarder_message.header.reset_rcode();
    let ghost q = question@;
    let mut questions: Vec<Question> = Vec::new();
    questions.push(question);
    assert(question_models(questions@) =~= seq![q]);
    forwarder_message.set_question(questions);
    assert(forwarder_message@.questions =~= skeleton@.questions.push(q));
    forwarder_message.to_vec()
}

/// The answers of upstream replies, each read with `Message::parse`, in
/// order.
pub open spec fn answers_of(responses: Seq<Seq<u8>>) -> Seq<AnswerModel>
    decreases responses.len(),
{
    if responses.len() == 0 {
        Seq::empty()
    } else {
        answers_of(responses.drop_last()) + parsed_message(responses.last()).answers
    }
}

/// Every upstream reply can be read with `Message::parse`.
pub open spec fn all_parse(responses: Seq<Seq<u8>>) -> bool {
    forall|i: int| 0 <= i < responses.len() ==> message_parse_ok(#[trigger] responses[i])
}

/// The answers of the upstream replies, in order; `None` when one of them
/// cannot be read.
pub fn collect_answers(responses: &Vec<Vec<u8>>) -> (res: Option<Vec<Answer>>)
    ensures
        res is Some <==> all_parse(responses@.map_values(|r: Vec<u8>| r@)),
        res matches Some(a) ==> answer_models(a@) == answers_of(
            responses@.map_values(|r: Vec<u8>| r@),
        ),
{
    let ghost rs = responses@.map_values(|r: Vec<u8>| r@);
    let n = responses.len();
    let mut answers: Vec<Answer> = Vec::new();
    let mut i: usize = 0;
    while i < n
        invariant
            n == responses@.len(),
            rs == responses@.map_values(|r: Vec<u8>| r@),
            i <= n,
            all_parse(rs.take(i as int)),
            answer_models(answers@) == answers_of(rs.take(i as int)),
        decreases n - i,
    {
        assert(rs[i as int] == responses@[i as int]@);
        match Message::checked_parse(responses[i].as_slice()) {
            Some(message) => {
                let found = message.get_answers();
                let ghost before = answers@;
                let mut more = found;
                let ghost added = more@;
                answers.append(&mut more);
                proof {
                    assert(rs.take(i + 1).drop_last() =~= rs.take(i as int));
                    assert(rs.take(i + 1).last() == rs[i as int]);
                    assert(answer_models(answers@) =~= answer_models(before) + answer_models(
                        added,
                    ));
                    assert(all_parse(rs.take(i + 1)));
                }
                i = i + 1;
            },
            None => {
                assert(!message_parse_ok(rs[i as int]));
                assert(!all_parse(rs));
                return None;
            },
        }
    }
    assert(rs.take(n as int) =~= rs);
    Some(answers)
}

/// The query sent upstream for a question of a request announces exactly
/// that question: reading its questions back gives the question's name,
/// when that name ends with its only stop byte.
pub proof fn law_forwarded_query_carries_question(request: Seq<u8>, q: QuestionModel)
    requires
        request.len() >= 3,
        simple_name(q.name),
    ensures
        question_names(
            message_bytes(
                MessageModel {
                    header: forward_header(reply_header(request)),
                    questions: Seq::<QuestionModel>::empty().push(q),
                    answers: Seq::empty(),
                },
            ),
        ) == Some(seq![q.name]),
{
    let h = without_rcode(without_qr(reply_header(request)));
    let m = MessageModel {
        header: forward_header(reply_header(request)),
        questions: Seq::<QuestionModel>::empty().push(q),
        answers: Seq::empty(),
    };
    law_question_count_roundtrip(h, 1, Seq::empty());
    assert(with_question_count(h, 1) + Seq::<u8>::empty() =~= with_question_count(h, 1));
    assert(m.questions[0] == q);
    law_questions_roundtrip(m);
    assert(names_of(m.questions) =~= seq![q.name]);
}

/// The reply header carries the request's identifier unchanged, the
/// request's third byte with the QR bit set, 0x04 in the fourth byte, and
/// zero in every count.
pub proof fn law_reply_header_keeps_identifier(request: Seq<u8>)
    requires
        request.len() >= 3,
    ensures
        reply_header(request).take(2) == request.take(2),
        reply_header(request) == seq![
            request[0],
            request[1],
            request[2] | 0x80u8,
            0x04u8,
            0u8,
            0u8,
            0u8,
            0u8,
            0u8,
            0u8,
            0u8,
            0u8,
        ],
{
    let r2 = request[2];
    assert((0u8 | 0x80u8) | r2 == r2 | 0x80u8) by (bit_vector);
    assert(0u8 | 0x04u8 == 0x04u8) by (bit_vector);
    assert(reply_header(request) =~= seq![
        request[0],
        request[1],
        request[2] | 0x80u8,
        0x04u8,
        0u8,
        0u8,
        0u8,
        0u8,
        0u8,
        0u8,
        0u8,
        0u8,
    ]);
    assert(reply_header(request).take(2) =~= request.take(2));
}

/// The header of a forwarded query keeps every byte of the skeleton's
/// header (the identifier among them) except bytes 2 to 5: the third and
/// fourth become zero and the question count becomes one.
pub proof fn law_forward_header_keeps_identifier(h: Seq<u8>)
    requires
        h.len() == 12,
    ensures
        forward_header(h).len() == 12,
        forall|i: int| 0 <= i < 12 && !(2 <= i < 6) ==> #[trigger] forward_header(h)[i] == h[i],
        forward_header(h)[2] == 0,
        forward_header(h)[3] == 0,
        forward_header(h)[4] == 0,
        forward_header(h)[5] == 1,
{
}

/// A query forwarded for a request carries the request's identifier.
pub proof fn law_forwarded_query_keeps_request_identifier(request: Seq<u8>)
    requires
        request.len() >= 3,
    ensures
        forward_header(reply_header(request)).take(2) == request.take(2),
{
    law_reply_header_keeps_identifier(request);
    law_forward_header_keeps_identifier(reply_header(request));
    assert(forward_header(reply_header(request)).take(2) =~= request.take(2));
}

/// Collecting the answers of readable upstream replies keeps one answer per
/// reply, in order, and drops none: the i-th answer carries the i-th reply's
/// name, and the TTL, data length and data written in that reply's last ten
/// bytes.
pub proof fn law_one_answer_per_reply(rs: Seq<Seq<u8>>)
    requires
        all_parse(rs),
    ensures
        answers_of(rs).len() == rs.len(),
        forall|i: int|
            0 <= i < rs.len() ==> #[trigger] answers_of(rs)[i] == parsed_message(rs[i]).answers[0],
        forall|i: int|
            0 <= i < rs.len() ==> {
                let r = rs[i];
                let a = #[trigger] answers_of(rs)[i];
                &&& a.name == leading_name(r.skip(12))
                &&& a.ttl == crate::wire::from_be32(r.subrange(r.len() - 10, r.len() - 6))
                &&& a.rdlength == crate::wire::from_be16(r.subrange(r.len() - 6, r.len() - 4))
                &&& a.rdata == crate::wire::from_be32(r.subrange(r.len() - 4, r.len() as int))
            },
    decreases rs.len(),
{
    if rs.len() > 0 {
        let init = rs.drop_last();
        assert forall|i: int| 0 <= i < init.len() implies message_parse_ok(#[trigger] init[i]) by {
            assert(init[i] == rs[i]);
        }
        law_one_answer_per_reply(init);
        let last = rs.last();
        assert(message_parse_ok(rs[rs.len() - 1]));
        let prev = answers_of(init);
        let added = parsed_message(last).answers;
        assert(answers_of(rs) == prev + added);
        assert forall|i: int| 0 <= i < rs.len() implies #[trigger] answers_of(rs)[i]
            == parsed_message(rs[i]).answers[0] by {
            if i < rs.len() - 1 {
                assert(rs[i] == init[i]);
            }
        }
        assert forall|i: int| 0 <= i < rs.len() implies {
            let r = rs[i];
            let a = #[trigger] answers_of(rs)[i];
            &&& a.name == leading_name(r.skip(12))
            &&& a.ttl == crate::wire::from_be32(r.subrange(r.len() - 10, r.len() - 6))
            &&& a.rdlength == crate::wire::from_be16(r.subrange(r.len() - 6, r.len() - 4))
            &&& a.rdata == crate::wire::from_be32(r.subrange(r.len() - 4, r.len() as int))
        } by {
            let r = rs[i];
            assert(message_parse_ok(r));
            let body = r.skip(12);
            let n = leading_name(body).len() as int;
            let rr = 2 * n + 8;
            assert(body.subrange(rr, rr + 4) =~= r.subrange(r.len() - 10, r.len() - 6));
            assert(body.subrange(rr + 4, rr + 6) =~= r.subrange(r.len() - 6, r.len() - 4));
            assert(body.subrange(rr + 6, rr + 10) =~= r.subrange(r.len() - 4, r.len() as int));
        }
    }
}

} // verus!
