use totally_incomplete_dns::error::{DnsError, EncodingError};
use totally_incomplete_dns::model::{Answer, Header, Message, Question};
use totally_incomplete_dns::name::{copy_name, decode_name, encode_name, labels_from_dotted};
use totally_incomplete_dns::util::{
    encode_lookup_to_dns, encode_u16_from_two_u8s, encode_u32_from_four_u8s,
};

fn name(dotted: &str) -> Vec<Vec<u8>> {
    labels_from_dotted(dotted.as_bytes())
}

fn query_header() -> Header {
    Header {
        id: 0x1234,
        qr: 0,
        opcode: 0,
        aa: 0,
        tc: 0,
        rd: 1,
        ra: 0,
        z: 0,
        rcode: 0,
        qdcount: 1,
        ancount: 0,
        nscount: 0,
        arcount: 0,
    }
}

#[test]
fn u16_from_two_bytes() {
    assert_eq!(encode_u16_from_two_u8s(&[0x12, 0x34], 0, 1), 0x1234);
    assert_eq!(encode_u16_from_two_u8s(&[0x12, 0x34], 1, 0), 0x3412);
}

#[test]
fn u32_from_four_bytes() {
    let b = [0xde, 0xad, 0xbe, 0xef];
    assert_eq!(encode_u32_from_four_u8s(&b, 0, 1, 2, 3), 0xdeadbeef);
    assert_eq!(encode_u32_from_four_u8s(&b, 3, 2, 1, 0), 0xefbeadde);
}

#[test]
fn header_encodes_big_endian_bits() {
    let h = query_header();
    assert_eq!(h.to_bytes(), vec![0x12, 0x34, 0x01, 0x00, 0, 1, 0, 0, 0, 0, 0, 0]);
    let full = Header {
        id: 0xabcd,
        qr: 1,
        opcode: 2,
        aa: 1,
        tc: 0,
        rd: 1,
        ra: 1,
        z: 0,
        rcode: 4,
        qdcount: 0x0102,
        ancount: 3,
        nscount: 0x0400,
        arcount: 0xffff,
    };
    assert_eq!(
        full.to_bytes(),
        vec![0xab, 0xcd, 0x95, 0x84, 0x01, 0x02, 0x00, 0x03, 0x04, 0x00, 0xff, 0xff]
    );
}

#[test]
fn header_masks_fields_to_their_width() {
    let mut h = query_header();
    h.qr = 3;
    h.opcode = 0x1f;
    h.z = 0x0f;
    h.rcode = 0x13;
    let b = h.to_bytes();
    assert_eq!(b[2], 0x80 | 0x78 | 0x01);
    assert_eq!(b[3], 0x70 | 0x03);
}

#[test]
fn header_round_trip() {
    let h = Header {
        id: 7,
        qr: 1,
        opcode: 15,
        aa: 1,
        tc: 1,
        rd: 0,
        ra: 1,
        z: 5,
        rcode: 9,
        qdcount: 1,
        ancount: 2,
        nscount: 3,
        arcount: 4,
    };
    let (back, used) = Header::from_bytes(&h.to_bytes()).unwrap();
    assert_eq!(back, h);
    assert_eq!(used, 12);
}

#[test]
fn header_from_short_buffer_is_malformed() {
    for len in 0..12 {
        let buf = vec![0u8; len];
        assert_eq!(Header::from_bytes(&buf), Err(DnsError::MalformedHeader));
    }
}

#[test]
fn dotted_name_splits_into_labels() {
    assert_eq!(name("codecrafters.io"), vec![b"codecrafters".to_vec(), b"io".to_vec()]);
    assert_eq!(name("a..b"), vec![b"a".to_vec(), vec![], b"b".to_vec()]);
    assert_eq!(name(""), vec![Vec::<u8>::new()]);
}

#[test]
fn lookup_encodes_labels_with_lengths() {
    let r = encode_lookup_to_dns(&b"codecrafters.io".to_vec()).unwrap();
    let mut expected = vec![12u8];
    expected.extend_from_slice(b"codecrafters");
    expected.push(2);
    expected.extend_from_slice(b"io");
    expected.push(0);
    assert_eq!(r, expected);
}

#[test]
fn lookup_rejects_long_label() {
    let mut dotted = vec![b'a'; 64];
    dotted.extend_from_slice(b".com");
    assert_eq!(encode_lookup_to_dns(&dotted), Err(EncodingError::LabelTooLong));
    let ok = vec![b'a'; 63];
    assert_eq!(encode_lookup_to_dns(&ok).unwrap().len(), 65);
}

#[test]
fn name_round_trip() {
    let labels = vec![vec![0u8, 1, 2], vec![b'x'; 63], b"com".to_vec()];
    let wire = encode_name(&labels).unwrap();
    let mut buf = vec![9u8, 9];
    buf.extend_from_slice(&wire);
    buf.push(7);
    let (back, end) = decode_name(&buf, 2).unwrap();
    assert_eq!(back, labels);
    assert_eq!(end, 2 + wire.len());
    assert_eq!(copy_name(&labels), labels);
}

#[test]
fn empty_name_is_one_zero_byte() {
    let wire = encode_name(&Vec::new()).unwrap();
    assert_eq!(wire, vec![0]);
    assert_eq!(decode_name(&wire, 0).unwrap(), (Vec::<Vec<u8>>::new(), 1));
}

#[test]
fn name_decode_errors() {
    // length byte past the end
    assert_eq!(decode_name(&[3, b'a', b'b', b'c'], 0), Err(DnsError::MalformedName));
    // label longer than what remains
    assert_eq!(decode_name(&[5, b'a', 0], 0), Err(DnsError::MalformedName));
    // reserved length byte
    assert_eq!(decode_name(&[0x40, 0], 0), Err(DnsError::MalformedName));
    // pointer cut in half
    assert_eq!(decode_name(&[0xc0], 0), Err(DnsError::MalformedName));
    // pointer target at or past the end
    assert_eq!(decode_name(&[0, 0xc0, 0x03], 1), Err(DnsError::MalformedName));
    // start past the end
    assert_eq!(decode_name(&[0], 4), Err(DnsError::MalformedName));
}

#[test]
fn pointer_completes_name_and_resumes_after_it() {
    // 0: "com" 0 ; 5: "mail" then pointer to 0
    let mut buf = vec![3, b'c', b'o', b'm', 0, 4, b'm', b'a', b'i', b'l', 0xc0, 0x00, 0xaa];
    let (labels, end) = decode_name(&buf, 5).unwrap();
    assert_eq!(labels, vec![b"mail".to_vec(), b"com".to_vec()]);
    assert_eq!(end, 12);
    // a pointer alone
    let (labels, end) = decode_name(&buf, 10).unwrap();
    assert_eq!(labels, vec![b"com".to_vec()]);
    assert_eq!(end, 12);
    // a further pointer at the target ends the name
    buf[4] = 0xc0;
    buf.push(0);
    let (labels, end) = decode_name(&buf, 5).unwrap();
    assert_eq!(labels, vec![b"mail".to_vec(), b"com".to_vec()]);
    assert_eq!(end, 12);
}

fn example_message_bytes() -> Vec<u8> {
    // header: one question, one answer
    let mut buf = vec![0x00, 0x01, 0x81, 0x00, 0, 1, 0, 1, 0, 0, 0, 0];
    buf.extend_from_slice(&encode_lookup_to_dns(&b"example.com".to_vec()).unwrap());
    buf.extend_from_slice(&[0, 1, 0, 1]);
    // answer: pointer to offset 12
    buf.extend_from_slice(&[0xc0, 12, 0, 1, 0, 1, 0, 0, 0x0e, 0x10, 0, 4, 93, 184, 216, 34]);
    buf
}

#[test]
fn compressed_answer_name_resolves_to_question_name() {
    let buf = example_message_bytes();
    let (questions, end) = Question::read_questions(&buf, 1, 12).unwrap();
    assert_eq!(questions[0].name, name("example.com"));
    let (answers, after) = Answer::read_answers(&buf, 1, end).unwrap();
    assert_eq!(after, buf.len());
    assert_eq!(answers[0].name, name("example.com"));
    assert_eq!(answers[0].ttl, 3600);
    assert_eq!(answers[0].data, vec![93, 184, 216, 34]);
    let m = Message::from_bytes(&buf).unwrap();
    assert_eq!(m.answer[0].name, name("example.com"));
    assert_eq!(m.header.ancount, 1);
}

#[test]
fn question_codec() {
    let q = Question { name: name("codecrafters.io"), record_type: 1, record_class: 1 };
    let mut buf = vec![0xee];
    let n = q.to_bytes(&mut buf).unwrap();
    assert_eq!(n, 17 + 4);
    assert_eq!(&buf[buf.len() - 4..], &[0, 1, 0, 1]);
    let (back, end) = Question::from_bytes(&buf, 1).unwrap();
    assert_eq!(back.name, q.name);
    assert_eq!((back.record_type, back.record_class), (1, 1));
    assert_eq!(end, buf.len());
    let d = q.duplicate();
    assert_eq!((d.name, d.record_type, d.record_class), (q.name.clone(), 1, 1));
}

#[test]
fn question_too_short_is_malformed() {
    let buf = [0u8, 0, 1, 0];
    assert_eq!(Question::from_bytes(&buf, 0).err(), Some(DnsError::MalformedQuestion));
    assert_eq!(Question::from_bytes(&[7u8], 0).err(), Some(DnsError::MalformedName));
}

#[test]
fn question_with_long_label_writes_nothing() {
    let q = Question { name: vec![vec![b'a'; 64]], record_type: 1, record_class: 1 };
    let mut buf = vec![1u8, 2];
    assert_eq!(q.to_bytes(&mut buf), Err(EncodingError::LabelTooLong));
    assert_eq!(buf, vec![1, 2]);
}

#[test]
fn answer_codec_recomputes_length() {
    let a = Answer {
        name: name("codecrafters.io"),
        record_type: 1,
        record_class: 1,
        ttl: 0x0102_0304,
        data: vec![8, 8, 8, 8],
    };
    let mut buf = Vec::new();
    let n = a.to_bytes(&mut buf).unwrap();
    assert_eq!(n, 17 + 10 + 4);
    assert_eq!(&buf[17..], &[0, 1, 0, 1, 1, 2, 3, 4, 0, 4, 8, 8, 8, 8]);
    let (back, end) = Answer::from_bytes(&buf, 0).unwrap();
    assert_eq!(end, buf.len());
    assert_eq!(back.name, a.name);
    assert_eq!(back.ttl, a.ttl);
    assert_eq!(back.data, a.data);
    let d = a.duplicate();
    assert_eq!(d.data, a.data);
}

#[test]
fn answer_errors() {
    // data length larger than what remains
    let buf = [0u8, 0, 1, 0, 1, 0, 0, 0, 1, 0, 5, 1, 2];
    assert_eq!(Answer::from_bytes(&buf, 0).err(), Some(DnsError::MalformedRecord));
    // fixed fields cut short
    let buf = [0u8, 0, 1, 0, 1, 0];
    assert_eq!(Answer::from_bytes(&buf, 0).err(), Some(DnsError::MalformedRecord));
    assert_eq!(Answer::read_answers(&[0x41u8], 1, 0).err(), Some(DnsError::MalformedName));
    // none asked for
    assert_eq!(Answer::read_answers(&[], 0, 0).unwrap().1, 0);
}

#[test]
fn message_round_trip() {
    let mut header = query_header();
    header.qdcount = 2;
    header.ancount = 1;
    let m = Message {
        header,
        question: vec![
            Question { name: name("a.example"), record_type: 1, record_class: 1 },
            Question { name: name("b.example"), record_type: 28, record_class: 1 },
        ],
        answer: vec![Answer {
            name: name("a.example"),
            record_type: 1,
            record_class: 1,
            ttl: 60,
            data: vec![1, 2, 3, 4],
        }],
    };
    let mut buf = vec![0xffu8];
    let len = m.to_bytes(&mut buf).unwrap();
    assert_eq!(len, buf.len());
    let back = Message::from_bytes(&buf[1..]).unwrap();
    assert_eq!(back.header, header);
    assert_eq!(back.question.len(), 2);
    assert_eq!(back.question[1].name, name("b.example"));
    assert_eq!(back.question[1].record_type, 28);
    assert_eq!(back.answer.len(), 1);
    assert_eq!(back.answer[0].data, vec![1, 2, 3, 4]);
}

#[test]
fn message_decode_propagates_first_error() {
    let mut buf = query_header().to_bytes();
    buf.extend_from_slice(&[1, b'a', 0, 0, 1]);
    assert_eq!(Message::from_bytes(&buf).err(), Some(DnsError::MalformedQuestion));
    assert_eq!(Message::from_bytes(&buf[..5]).err(), Some(DnsError::MalformedHeader));
    let mut with_record = example_message_bytes();
    with_record[11] = 1; // one additional record that is not there
    assert_eq!(Message::from_bytes(&with_record).err(), Some(DnsError::MalformedName));
}

#[test]
fn message_with_long_label_writes_nothing() {
    let m = Message {
        header: query_header(),
        question: vec![Question { name: vec![vec![b'q'; 70]], record_type: 1, record_class: 1 }],
        answer: vec![],
    };
    let mut buf = Vec::new();
    assert_eq!(m.to_bytes(&mut buf), Err(EncodingError::LabelTooLong));
    assert!(buf.is_empty());
}
