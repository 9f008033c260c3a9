use totally_incomplete_dns::model::{Answer, Header, Message, Question};
use totally_incomplete_dns::name::labels_from_dotted;
use totally_incomplete_dns::resolver::{
    build_response, forward_request, reply_answers, Action, Resolution,
};

fn name(dotted: &str) -> Vec<Vec<u8>> {
    labels_from_dotted(dotted.as_bytes())
}

fn header(id: u16, opcode: u8, qdcount: u16) -> Header {
    Header {
        id,
        qr: 0,
        opcode,
        aa: 0,
        tc: 0,
        rd: 1,
        ra: 0,
        z: 0,
        rcode: 0,
        qdcount,
        ancount: 0,
        nscount: 0,
        arcount: 0,
    }
}

fn question(dotted: &str) -> Question {
    Question { name: name(dotted), record_type: 1, record_class: 1 }
}

fn answer(dotted: &str, ip: [u8; 4]) -> Answer {
    Answer { name: name(dotted), record_type: 1, record_class: 1, ttl: 60, data: ip.to_vec() }
}

fn encode(m: &Message) -> Vec<u8> {
    let mut buf = Vec::new();
    m.to_bytes(&mut buf).unwrap();
    buf
}

fn query(id: u16, opcode: u8, names: &[&str]) -> Message {
    Message {
        header: header(id, opcode, names.len() as u16),
        question: names.iter().map(|n| question(n)).collect(),
        answer: vec![],
    }
}

/// An upstream reply that echoes the forwarded query with the given answers,
/// each name written as a pointer to the question at offset 12.
fn upstream_reply(forwarded: &[u8], ips: &[[u8; 4]]) -> Vec<u8> {
    let mut reply = forwarded.to_vec();
    reply[2] |= 0x80;
    reply[7] = ips.len() as u8;
    for ip in ips {
        reply.extend_from_slice(&[0xc0, 12, 0, 1, 0, 1, 0, 0, 0, 60, 0, 4]);
        reply.extend_from_slice(ip);
    }
    reply
}

fn expect_forward(a: Action) -> Vec<u8> {
    match a {
        Action::Forward(b) => b,
        other => panic!("expected a forwarded query, got {:?}", other),
    }
}

fn expect_respond(a: Action) -> Vec<u8> {
    match a {
        Action::Respond(b) => b,
        other => panic!("expected a response, got {:?}", other),
    }
}

#[test]
fn end_to_end_single_question() {
    let client = encode(&query(0x1234, 0, &["codecrafters.io"]));
    let (state, action) = Resolution::start(&client);
    let mut state = state.unwrap();
    let forwarded = expect_forward(action);
    let fwd = Message::from_bytes(&forwarded).unwrap();
    assert_eq!(fwd.header.id, 0x1234);
    assert_eq!((fwd.header.qr, fwd.header.opcode, fwd.header.rd), (0, 0, 1));
    assert_eq!((fwd.header.qdcount, fwd.header.ancount), (1, 0));
    assert_eq!(fwd.question[0].name, name("codecrafters.io"));

    let reply = upstream_reply(&forwarded, &[[8, 8, 8, 8]]);
    let response = expect_respond(state.on_reply(&reply));
    let r = Message::from_bytes(&response).unwrap();
    assert_eq!(r.header.id, 0x1234);
    assert_eq!(r.header.qr, 1);
    assert_eq!(r.header.qdcount, 1);
    assert_eq!(r.header.ancount, 1);
    assert_eq!(r.header.rcode, 0);
    assert_eq!(r.question.len(), 1);
    assert_eq!(r.question[0].name, name("codecrafters.io"));
    assert_eq!((r.question[0].record_type, r.question[0].record_class), (1, 1));
    let a = &r.answer[0];
    assert_eq!(a.name, name("codecrafters.io"));
    assert_eq!((a.record_type, a.record_class, a.ttl), (1, 1, 60));
    assert_eq!(a.data, vec![8, 8, 8, 8]);
}

#[test]
fn answers_of_all_questions_are_gathered_in_order() {
    let client = encode(&query(9, 0, &["a.example", "b.example"]));
    let (state, action) = Resolution::start(&client);
    let mut state = state.unwrap();
    let first = expect_forward(action);
    assert_eq!(Message::from_bytes(&first).unwrap().question[0].name, name("a.example"));
    let second = expect_forward(state.on_reply(&upstream_reply(&first, &[[1, 1, 1, 1]])));
    assert_eq!(state.next, 1);
    assert_eq!(Message::from_bytes(&second).unwrap().question[0].name, name("b.example"));
    let reply = upstream_reply(&second, &[[2, 2, 2, 2], [3, 3, 3, 3]]);
    let r = Message::from_bytes(&expect_respond(state.on_reply(&reply))).unwrap();
    assert_eq!(r.header.qdcount, 2);
    assert_eq!(r.header.ancount, 3);
    assert_eq!(r.answer[0].name, name("a.example"));
    assert_eq!(r.answer[1].name, name("b.example"));
    assert_eq!(r.answer[2].data, vec![3, 3, 3, 3]);
}

#[test]
fn upstream_without_answers_gives_empty_answer_section() {
    let client = encode(&query(5, 0, &["nothing.example"]));
    let (state, action) = Resolution::start(&client);
    let mut state = state.unwrap();
    let forwarded = expect_forward(action);
    let r = Message::from_bytes(&expect_respond(state.on_reply(&upstream_reply(&forwarded, &[]))))
        .unwrap();
    assert_eq!((r.header.qdcount, r.header.ancount), (1, 0));
    assert!(r.answer.is_empty());
}

#[test]
fn truncated_datagram_gets_no_response() {
    let (state, action) = Resolution::start(&[0x12, 0x34, 0x01]);
    assert!(state.is_none());
    assert!(matches!(action, Action::Drop));
}

#[test]
fn malformed_upstream_reply_ends_the_query() {
    let client = encode(&query(5, 0, &["x.example"]));
    let (state, _) = Resolution::start(&client);
    let mut state = state.unwrap();
    assert!(matches!(state.on_reply(&[0, 1, 2]), Action::Drop));
}

#[test]
fn query_without_questions_is_answered_at_once() {
    let client = encode(&query(77, 0, &[]));
    let (state, action) = Resolution::start(&client);
    assert!(state.is_none());
    let r = Message::from_bytes(&expect_respond(action)).unwrap();
    assert_eq!((r.header.id, r.header.qr, r.header.qdcount, r.header.ancount), (77, 1, 0, 0));
}

#[test]
fn rcode_follows_opcode() {
    let standard = query(1, 0, &["a.example"]);
    let r = build_response(&standard, &vec![answer("a.example", [1, 2, 3, 4])]);
    assert_eq!(r.header.rcode, 0);
    let other = query(1, 2, &["a.example"]);
    let r = build_response(&other, &vec![answer("a.example", [1, 2, 3, 4])]);
    assert_eq!(r.header.rcode, 4);
    assert_eq!(r.header.opcode, 2);
    let bytes = encode(&r);
    assert_eq!(bytes[3] & 0x0f, 4);
    assert_eq!(bytes[2] & 0x80, 0x80);
}

#[test]
fn response_counts_match_sections() {
    let mut q = query(3, 0, &["a.example", "b.example", "c.example"]);
    q.header.ancount = 9;
    q.header.nscount = 2;
    q.header.arcount = 1;
    let answers = vec![answer("a.example", [1, 1, 1, 1]), answer("c.example", [3, 3, 3, 3])];
    let r = build_response(&q, &answers);
    let bytes = encode(&r);
    assert_eq!(&bytes[4..12], &[0, 3, 0, 2, 0, 0, 0, 0]);
    assert_eq!(r.question.len(), 3);
    assert_eq!(r.answer.len(), 2);
}

#[test]
fn forwarded_request_has_one_question() {
    let mut q = query(0xbeef, 0, &["a.example", "b.example"]);
    q.header.ancount = 4;
    q.header.arcount = 1;
    let f = forward_request(&q, 1);
    assert_eq!(f.header.id, 0xbeef);
    assert_eq!((f.header.qr, f.header.qdcount, f.header.ancount), (0, 1, 0));
    assert_eq!((f.header.nscount, f.header.arcount), (0, 0));
    assert_eq!(f.question.len(), 1);
    assert_eq!(f.question[0].name, name("b.example"));
    assert!(f.answer.is_empty());
}

#[test]
fn reply_answers_reads_answer_section() {
    let forwarded = encode(&query(1, 0, &["a.example"]));
    let reply = upstream_reply(&forwarded, &[[4, 3, 2, 1]]);
    let answers = reply_answers(&reply).unwrap();
    assert_eq!(answers.len(), 1);
    assert_eq!(answers[0].name, name("a.example"));
    assert_eq!(answers[0].data, vec![4, 3, 2, 1]);
    assert!(reply_answers(&reply[..20]).is_err());
}
