use dns_forwarder::message::{Message, QClass, QType, Question};
use dns_forwarder::server::{collect_answers, forward_query, reply_skeleton, DnsServer};

fn name(labels: &[&str]) -> Vec<u8> {
    let mut out = Vec::new();
    for l in labels {
        out.push(l.len() as u8);
        out.extend_from_slice(l.as_bytes());
    }
    out.push(0);
    out
}

#[test]
fn server_address() {
    let server = DnsServer::new();
    assert_eq!(server.host, "127.0.0.1");
    assert_eq!(server.port, 2053);
    assert_eq!(server.get_address(), "127.0.0.1:2053");
}

#[test]
fn address_port_is_decimal() {
    let s = DnsServer { host: "h".to_string(), port: 0 };
    assert_eq!(s.get_address(), "h:0");
    let s = DnsServer { host: "h".to_string(), port: 65535 };
    assert_eq!(s.get_address(), "h:65535");
    let s = DnsServer { host: String::new(), port: 53 };
    assert_eq!(s.get_address(), ":53");
}

#[test]
fn reply_skeleton_header() {
    let request = [0x12, 0x34, 0x01, 0x20, 0, 1, 0, 0, 0, 0, 0, 0];
    let mut m = reply_skeleton(&request);
    assert_eq!(m.to_vec(), vec![0x12, 0x34, 0x81, 0x04, 0, 0, 0, 0, 0, 0, 0, 0]);
}

#[test]
fn forwarded_query_bytes() {
    let request = [0x12, 0x34, 0x01, 0x20, 0, 1, 0, 0, 0, 0, 0, 0];
    let skeleton = reply_skeleton(&request);
    let n = name(&["ab"]);
    let q = Question::new(n.clone(), QType::A, QClass::IN);
    let bytes = forward_query(&skeleton, q);
    assert_eq!(
        bytes,
        vec![0x12, 0x34, 0, 0, 0, 1, 0, 0, 0, 0, 0, 0, 2, 97, 98, 0, 0, 1, 0, 1]
    );
    let back = Question::parse(&bytes);
    assert_eq!(back.len(), 1);
    assert_eq!(back[0].name, n);
}

fn reply(name: &[u8], data: [u8; 4]) -> Vec<u8> {
    let mut buf = vec![1, 2, 0x81, 0x80, 0, 1, 0, 1, 0, 0, 0, 0];
    buf.extend_from_slice(name);
    buf.extend_from_slice(&[0, 1, 0, 1]);
    buf.extend_from_slice(name);
    buf.extend_from_slice(&[0, 1, 0, 1, 0, 0, 0, 60, 0, 4]);
    buf.extend_from_slice(&data);
    buf
}

#[test]
fn answers_are_collected_in_order() {
    let r1 = reply(&name(&["a"]), [1, 1, 1, 1]);
    let r2 = reply(&name(&["b", "c"]), [2, 2, 2, 2]);
    let answers = collect_answers(&vec![r1, r2]).unwrap();
    assert_eq!(answers.len(), 2);
    assert_eq!(answers[0].rdata, 0x01010101);
    assert_eq!(answers[1].rdata, 0x02020202);
    assert_eq!(answers[1].name, name(&["b", "c"]));
    assert_eq!(collect_answers(&Vec::new()).map(|a| a.len()), Some(0));
}

#[test]
fn unreadable_reply_refuses_all_answers() {
    let r1 = reply(&name(&["a"]), [1, 1, 1, 1]);
    let mut r2 = reply(&name(&["b"]), [2, 2, 2, 2]);
    r2.pop();
    assert!(collect_answers(&vec![r1, r2]).is_none());
}

#[test]
fn full_reply_round() {
    let request = [0x12, 0x34, 0x01, 0x00, 0, 1, 0, 0, 0, 0, 0, 0, 1, 97, 0, 0, 1, 0, 1];
    let mut message = reply_skeleton(&request);
    let questions = Question::parse(&request);
    let responses: Vec<Vec<u8>> = vec![reply(&name(&["a"]), [9, 9, 9, 9])];
    let answers = collect_answers(&responses).unwrap();
    message.set_question(questions);
    message.set_fowarder_answer(answers);
    let out = message.to_vec();
    assert_eq!(out[..12], [0x12, 0x34, 0x81, 0x04, 0, 1, 0, 1, 0, 0, 0, 0]);
    let again = Message::parse(&out);
    assert_eq!(again.get_answers()[0].rdata, 0x09090909);
}
