use dns_forwarder::message::{parse_name, parse_questions_count, Answer, Header, Message, QClass, QType, Question};

#[test]
fn parse_qtype_from_bytes() {
    let bytes: [u8; 2] = [0, 1];
    let qtype = QType::try_from(u16::from_be_bytes(bytes)).unwrap();
    assert_eq!(qtype, QType::A);
}

#[test]
fn parse_questions_from_request_payload() {
    let request_payload: Vec<u8> = vec![
        194, 154, 1, 0, 0, 3, 0, 0, 0, 0, 0, 0, 3, 97, 98, 99, 17, 108, 111, 110, 103, 97, 115,
        115, 100, 111, 109, 97, 105, 110, 110, 97, 109, 101, 3, 99, 111, 109, 0, 0, 1, 0, 1, 3,
        100, 101, 102, 192, 16, 0, 1, 0, 1, 3, 104, 101, 102, 192, 16, 0, 1, 0, 1, 0, 0, 0, 0,
        0, 0, 0, 0, 0, 0, 0, 0, 0,
    ];
    println!("{:?}", request_payload);
    let questions = Question::parse(request_payload.as_slice());

    assert_eq!(questions.len(), 3);
}

#[test]
fn parse_bytes_into_message() {
    let buf = vec![
        197, 90, 128, 0, 0, 1, 0, 1, 0, 0, 0, 0, 3, 97, 98, 99, 12, 99, 111, 100, 101, 99, 114,
        97, 102, 116, 101, 114, 115, 2, 105, 111, 0, 0, 1, 0, 1, 3, 97, 98, 99, 12, 99, 111,
        100, 101, 99, 114, 97, 102, 116, 101, 114, 115, 2, 105, 111, 0, 0, 1, 0, 1, 0, 0, 14,
        16, 0, 4, 76, 76, 21, 21,
    ];

    let mut message = Message::parse(&buf);

    assert_eq!(message.to_vec(), buf)
}

fn name(labels: &[&str]) -> Vec<u8> {
    let mut out = Vec::new();
    for l in labels {
        out.push(l.len() as u8);
        out.extend_from_slice(l.as_bytes());
    }
    out.push(0);
    out
}

#[test]
fn qtype_and_qclass_codes() {
    assert_eq!(QType::A.to_byte(), 1);
    assert_eq!(QClass::IN.to_byte(), 1);
    assert_eq!(QType::try_from(QType::A.to_byte()), Ok(QType::A));
    assert_eq!(QClass::try_from(QClass::IN.to_byte()), Ok(QClass::IN));
    assert_eq!(QType::try_from(2u16), Err(()));
    assert_eq!(QType::try_from(0u16), Err(()));
    assert_eq!(QClass::try_from(3u16), Err(()));
    assert_eq!(QType::default(), QType::A);
    assert_eq!(QClass::default(), QClass::IN);
}

#[test]
fn header_flag_setters() {
    let mut h = Header::default();
    assert_eq!(h.inner, [0u8; 12]);
    h.set_id(&[0xAB, 0xCD]);
    h.set_qr();
    h.set_opcode(&0x09);
    h.set_rcode();
    assert_eq!(h.inner[..4], [0xAB, 0xCD, 0x89, 0x04]);
    h.set_qr();
    assert_eq!(h.inner[2], 0x89);
    h.reset_qr();
    h.reset_rcode();
    assert_eq!(h.inner[..4], [0xAB, 0xCD, 0x00, 0x00]);
}

#[test]
fn header_counts_are_big_endian_and_truncated() {
    let mut h = Header::default();
    h.set_question(0x0102);
    h.set_answer(70000);
    assert_eq!(h.inner[4..8], [0x01, 0x02, 0x11, 0x70]);
    assert_eq!(parse_questions_count(&h.inner), 0x0102);
}

#[test]
fn question_count_roundtrip() {
    let mut m = Message::new();
    m.set_question(vec![
        Question::new(name(&["a"]), QType::A, QClass::IN),
        Question::new(name(&["b", "c"]), QType::A, QClass::IN),
    ]);
    let bytes = m.to_vec();
    assert_eq!(parse_questions_count(&bytes), 2);
}

#[test]
fn parse_name_stops_at_first_zero() {
    assert_eq!(parse_name(vec![3, 97, 98, 99, 0, 7, 0]), vec![3, 97, 98, 99, 0]);
    assert_eq!(parse_name(vec![0, 5]), vec![0]);
    assert_eq!(parse_name(vec![3, 97, 98, 99]), Vec::<u8>::new());
    assert_eq!(parse_name(vec![]), Vec::<u8>::new());
}

#[test]
fn question_and_answer_bytes() {
    let q = Question::new(name(&["ab"]), QType::A, QClass::IN);
    assert_eq!(q.to_vec(), vec![2, 97, 98, 0, 0, 1, 0, 1]);
    let a = Answer {
        name: vec![0],
        qtype: QType::A,
        qclass: QClass::IN,
        ttl: 0x01020304,
        rdlength: 4,
        rdata: 0x7F000001,
    };
    assert_eq!(a.to_vec(), vec![0, 0, 1, 0, 1, 1, 2, 3, 4, 0, 4, 127, 0, 0, 1]);
}

#[test]
fn new_message_serialises_to_zero_header() {
    let mut m = Message::new();
    assert_eq!(m.to_vec(), vec![0u8; 12]);
}

#[test]
fn questions_roundtrip_through_bytes() {
    let names = vec![name(&["www", "example", "com"]), name(&["mail", "example", "org"])];
    let mut m = Message::new();
    m.set_question(names.iter().map(|n| Question::new(n.clone(), QType::A, QClass::IN)).collect());
    let bytes = m.to_vec();
    let parsed = Question::parse(&bytes);
    assert_eq!(parsed.len(), 2);
    assert_eq!(parsed[0].name, names[0]);
    assert_eq!(parsed[1].name, names[1]);
}

#[test]
fn compressed_name_takes_the_base_after_four_bytes() {
    let request_payload: Vec<u8> = vec![
        194, 154, 1, 0, 0, 3, 0, 0, 0, 0, 0, 0, 3, 97, 98, 99, 17, 108, 111, 110, 103, 97, 115,
        115, 100, 111, 109, 97, 105, 110, 110, 97, 109, 101, 3, 99, 111, 109, 0, 0, 1, 0, 1, 3,
        100, 101, 102, 192, 16, 0, 1, 0, 1, 3, 104, 101, 102, 192, 16, 0, 1, 0, 1, 0, 0, 0, 0,
        0, 0, 0, 0, 0, 0, 0, 0, 0,
    ];
    let questions = Question::parse(&request_payload);
    let base_tail = name(&["longassdomainname", "com"]);
    assert_eq!(questions[0].name, [vec![3, 97, 98, 99], base_tail.clone()].concat());
    assert_eq!(questions[1].name, [vec![3, 100, 101, 102], base_tail.clone()].concat());
    assert_eq!(questions[2].name, [vec![1, 3, 104, 101, 102], base_tail].concat());
}

#[test]
fn zero_question_count_reads_one_byte() {
    let mut buf = vec![0u8; 12];
    buf.extend_from_slice(&[0, 0, 1, 0, 1]);
    let qs = Question::parse(&buf);
    assert_eq!(qs.len(), 1);
    assert_eq!(qs[0].name, vec![0]);
    let mut buf2 = vec![0u8; 12];
    buf2.extend_from_slice(&[3, 97, 98, 99, 0]);
    assert_eq!(Question::parse(&buf2).len(), 0);
}

#[test]
fn question_parse_refusals() {
    assert!(Question::checked_parse(&[0u8; 11]).is_none());
    let mut buf = vec![0, 0, 0, 0, 0, 1, 0, 0, 0, 0, 0, 0];
    buf.extend_from_slice(&[3, 97, 98, 99, 0xC0, 12, 0, 1, 0, 1]);
    assert!(Question::checked_parse(&buf).is_none());
    let mut ok = vec![0, 0, 0, 0, 0, 1, 0, 0, 0, 0, 0, 0];
    ok.extend_from_slice(&[3, 97, 98, 99]);
    assert_eq!(Question::checked_parse(&ok).map(|q| q.len()), Some(0));
}

fn reply(name: &[u8], ttl: [u8; 4], data: [u8; 4]) -> Vec<u8> {
    let mut buf = vec![1, 2, 0x81, 0x80, 0, 1, 0, 1, 0, 0, 0, 0];
    buf.extend_from_slice(name);
    buf.extend_from_slice(&[0, 1, 0, 1]);
    buf.extend_from_slice(name);
    buf.extend_from_slice(&[0, 1, 0, 1]);
    buf.extend_from_slice(&ttl);
    buf.extend_from_slice(&[0, 4]);
    buf.extend_from_slice(&data);
    buf
}

#[test]
fn message_parse_reads_answer_fields() {
    let n = name(&["a", "io"]);
    let buf = reply(&n, [0, 0, 1, 44], [10, 0, 0, 7]);
    let m = Message::parse(&buf);
    let answers = m.get_answers();
    assert_eq!(answers.len(), 1);
    assert_eq!(answers[0].name, n);
    assert_eq!(answers[0].ttl, 300);
    assert_eq!(answers[0].rdlength, 4);
    assert_eq!(answers[0].rdata, 0x0A000007);
    assert_eq!(m.questions.len(), 1);
    assert_eq!(m.questions[0].name, n);
}

#[test]
fn message_checked_parse_refusals() {
    let n = name(&["a"]);
    let good = reply(&n, [0, 0, 0, 1], [1, 2, 3, 4]);
    assert!(Message::checked_parse(&good).is_some());
    assert!(Message::checked_parse(&good[..11]).is_none());
    let mut long = good.clone();
    long.push(9);
    assert!(Message::checked_parse(&long).is_none());
    let mut bad_type = good.clone();
    bad_type[12 + n.len() + 1] = 5;
    assert!(Message::checked_parse(&bad_type).is_none());
    let mut bad_class = good.clone();
    bad_class[12 + n.len() + 3] = 3;
    assert!(Message::checked_parse(&bad_class).is_none());
}

#[test]
fn parse_skips_the_answer_name() {
    let n = name(&["a"]);
    let mut buf = reply(&n, [0, 0, 0, 1], [1, 2, 3, 4]);
    let answer_name_at = 12 + n.len() + 4;
    buf[answer_name_at + 1] = b'z';
    let mut m = Message::parse(&buf);
    let out = m.to_vec();
    assert_ne!(out, buf);
    assert_eq!(out[answer_name_at + 1], b'a');
}

#[test]
fn set_answers_writes_count_and_appends() {
    let mut m = Message::new();
    let a = Answer { name: vec![0], qtype: QType::A, qclass: QClass::IN, ttl: 1, rdlength: 4, rdata: 2 };
    m.set_fowarder_answer(vec![a.clone(), a]);
    assert_eq!(m.header.inner[6..8], [0, 2]);
    assert_eq!(m.get_answers().len(), 2);
    let bytes = m.to_vec();
    assert_eq!(bytes.len(), 12 + 2 * 15);
}
