use dns_forwarder::forward::{aggregate, forward_queries};
use dns_forwarder::header::Header;
use dns_forwarder::message::Message;
use dns_forwarder::name::{parse_labels, write_labels};
use dns_forwarder::record::Question;
use dns_forwarder::DnsError;

fn example_com() -> Vec<Vec<u8>> {
    vec![b"example".to_vec(), b"com".to_vec()]
}

fn sample_header() -> Header {
    Header {
        packet_id: 1234,
        qr_indicator: false,
        opcode: 0,
        aa: false,
        truncation: false,
        recursion_desired: true,
        recursion_available: true,
        reserved: 0,
        r_code: 0,
        question_count: 1,
        answer_record_count: 0,
        authoritative_record_count: 0,
        additional_record_count: 0,
    }
}

fn question(names: Vec<Vec<u8>>, q_type: u16) -> Question {
    Question { names, q_type, class: 1, ttl: 0, data: Vec::new() }
}

#[test]
fn header_write_exact_bytes() {
    let h = Header {
        packet_id: 0x04d2,
        qr_indicator: true,
        opcode: 2,
        aa: true,
        truncation: false,
        recursion_desired: true,
        recursion_available: true,
        reserved: 0,
        r_code: 3,
        question_count: 1,
        answer_record_count: 2,
        authoritative_record_count: 0x0102,
        additional_record_count: 0xffff,
    };
    let bytes = h.write();
    assert_eq!(
        bytes,
        vec![0x04, 0xd2, 0x95, 0x83, 0x00, 0x01, 0x00, 0x02, 0x01, 0x02, 0xff, 0xff]
    );
}

#[test]
fn header_round_trip() {
    let mut h = sample_header();
    h.opcode = 9;
    h.reserved = 0;
    h.r_code = 15;
    h.aa = true;
    h.truncation = true;
    h.additional_record_count = 7;
    let bytes = h.write();
    assert_eq!(bytes.len(), 12);
    assert_eq!(Header::parse(&bytes), Ok(h));
}

#[test]
fn header_parse_reads_fields() {
    let bytes = [0xab, 0xcd, 0x7a, 0x05, 0, 3, 0, 4, 0, 5, 0, 6, 99];
    let h = Header::parse(&bytes).unwrap();
    assert_eq!(h.packet_id, 0xabcd);
    assert!(!h.qr_indicator);
    assert_eq!(h.opcode, 15);
    assert!(!h.aa);
    assert!(h.truncation);
    assert!(!h.recursion_desired);
    assert!(!h.recursion_available);
    assert_eq!(h.reserved, 0);
    assert_eq!(h.r_code, 5);
    assert_eq!(h.question_count, 3);
    assert_eq!(h.answer_record_count, 4);
    assert_eq!(h.authoritative_record_count, 5);
    assert_eq!(h.additional_record_count, 6);
}

#[test]
fn header_too_short() {
    assert_eq!(Header::parse(&[0u8; 11]), Err(DnsError::TruncatedInput));
    assert_eq!(Message::new(&[0u8; 5], false), Err(DnsError::TruncatedInput));
}

#[test]
fn response_rules() {
    let mut h = sample_header();
    h.reserved = 5;
    let r = h.response();
    assert!(r.qr_indicator);
    assert_eq!(r.r_code, 0);
    assert!(!r.recursion_available);
    assert!(r.recursion_desired);
    assert_eq!(r.reserved, 0);
    h.opcode = 5;
    let r = h.response();
    assert_eq!(r.r_code, 4);
    let decoded = Header::parse(&r.write()).unwrap();
    assert_eq!(decoded.r_code, 4);
    assert!(!decoded.recursion_available);
    assert!(decoded.qr_indicator);
}

#[test]
fn name_encode_and_round_trip() {
    let bytes = write_labels(&example_com()).unwrap();
    let mut expected = vec![7u8];
    expected.extend_from_slice(b"example");
    expected.push(3);
    expected.extend_from_slice(b"com");
    expected.push(0);
    assert_eq!(bytes, expected);
    assert_eq!(parse_labels(&bytes, 0), Ok((example_com(), 13)));
}

#[test]
fn empty_name() {
    let bytes = write_labels(&Vec::new()).unwrap();
    assert_eq!(bytes, vec![0u8]);
    assert_eq!(parse_labels(&bytes, 0), Ok((Vec::new(), 1)));
}

#[test]
fn compressed_name_follows_pointer() {
    let mut buf = vec![0u8; 12];
    buf.extend(write_labels(&example_com()).unwrap());
    assert_eq!(buf.len(), 25);
    buf.extend_from_slice(&[3, b'w', b'w', b'w', 0xc0, 12, 0xee]);
    let (names, end) = parse_labels(&buf, 25).unwrap();
    assert_eq!(names, vec![b"www".to_vec(), b"example".to_vec(), b"com".to_vec()]);
    assert_eq!(end, 31);
}

#[test]
fn pointer_cycle_is_rejected() {
    let mut buf = vec![0u8; 12];
    buf.extend_from_slice(&[0xc0, 14, 0xc0, 12]);
    assert_eq!(parse_labels(&buf, 12), Err(DnsError::MalformedPointer));
    assert_eq!(parse_labels(&buf, 14), Err(DnsError::MalformedPointer));
    let self_loop = [0xc0u8, 0];
    assert_eq!(parse_labels(&self_loop, 0), Err(DnsError::MalformedPointer));
}

#[test]
fn reserved_label_prefix_is_rejected() {
    assert_eq!(parse_labels(&[0x40, 0], 0), Err(DnsError::UnsupportedLabelFormat));
    assert_eq!(parse_labels(&[0x80, 0], 0), Err(DnsError::UnsupportedLabelFormat));
}

#[test]
fn truncated_name() {
    assert_eq!(parse_labels(&[5, b'a', b'b'], 0), Err(DnsError::TruncatedInput));
    assert_eq!(parse_labels(&[1, b'a'], 0), Err(DnsError::TruncatedInput));
    assert_eq!(parse_labels(&[0xc0], 0), Err(DnsError::TruncatedInput));
}

#[test]
fn label_too_long() {
    let q = question(vec![vec![b'a'; 64]], 1);
    assert_eq!(q.write(false), Err(DnsError::LabelTooLong));
    let ok = question(vec![vec![b'a'; 63]], 1);
    assert_eq!(ok.write(false).unwrap().len(), 1 + 63 + 1 + 4);
}

#[test]
fn answer_record_bytes_and_round_trip() {
    let rr = Question {
        names: example_com(),
        q_type: 1,
        class: 1,
        ttl: 0x0102_0304,
        data: vec![8, 8, 4, 4],
    };
    let bytes = rr.write(true).unwrap();
    let mut expected = write_labels(&example_com()).unwrap();
    expected.extend_from_slice(&[0, 1, 0, 1, 1, 2, 3, 4, 0, 4, 8, 8, 4, 4]);
    assert_eq!(bytes, expected);
    assert_eq!(Question::parse(&bytes, 0, true), Ok((rr.clone(), bytes.len())));
    let (q, end) = Question::parse(&bytes, 0, false).unwrap();
    assert_eq!(q, question(example_com(), 1));
    assert_eq!(end, 17);
}

#[test]
fn answer_data_truncated() {
    let mut bytes = write_labels(&example_com()).unwrap();
    bytes.extend_from_slice(&[0, 1, 0, 1, 0, 0, 0, 1, 0, 9, 1, 2]);
    assert_eq!(Question::parse(&bytes, 0, true), Err(DnsError::TruncatedInput));
}

#[test]
fn message_too_large() {
    let mut m = Message {
        header: sample_header(),
        questions: vec![question(example_com(), 1)],
        answers: vec![Question {
            names: example_com(),
            q_type: 1,
            class: 1,
            ttl: 60,
            data: vec![0u8; 500],
        }],
    };
    m.header.answer_record_count = 1;
    assert_eq!(m.write(true), Err(DnsError::MessageTooLarge));
    m.answers[0].data = vec![0u8; 100];
    assert!(m.write(true).is_ok());
}

#[test]
fn message_exactly_at_ceiling() {
    let mut m = Message {
        header: sample_header(),
        questions: vec![question(example_com(), 1)],
        answers: vec![],
    };
    // 12 header bytes, 17 question bytes, 23 answer bytes before the data.
    let data_len = 512 - 12 - 17 - 23;
    m.answers.push(Question { names: example_com(), q_type: 1, class: 1, ttl: 1, data: vec![7u8; data_len] });
    assert_eq!(m.encode().unwrap().len(), 512);
    m.answers[0].data.push(7);
    assert_eq!(m.encode(), Err(DnsError::MessageTooLarge));
}

#[test]
fn passthrough_echoes_questions() {
    let mut query = Message {
        header: sample_header(),
        questions: vec![question(example_com(), 1), question(vec![b"rust-lang".to_vec(), b"org".to_vec()], 28)],
        answers: vec![],
    };
    query.header.question_count = 2;
    let bytes = query.encode().unwrap();
    let mut decoded = Message::new(&bytes, false).unwrap();
    assert_eq!(decoded, query);
    let response = decoded.write(true).unwrap();
    let back = Message::new(&response, false).unwrap();
    assert!(back.header.qr_indicator);
    assert_eq!(back.questions, query.questions);
    assert!(back.answers.is_empty());
    assert_eq!(back.header.packet_id, 1234);
}

#[test]
fn forwarding_aggregates_in_question_order() {
    let mut query = Message {
        header: sample_header(),
        questions: vec![question(example_com(), 1), question(example_com(), 28)],
        answers: vec![],
    };
    query.header.question_count = 2;
    let singles = forward_queries(&query);
    assert_eq!(singles.len(), 2);
    let mut replies = Vec::new();
    for (i, single) in singles.iter().enumerate() {
        assert_eq!(single.header.packet_id, i as u16);
        assert_eq!(single.header.question_count, 1);
        assert_eq!(single.questions, vec![query.questions[i].clone()]);
        let mut reply = single.clone();
        let data = if single.questions[0].q_type == 1 { vec![93, 184, 216, 34] } else { vec![0x26; 16] };
        reply.answers.push(Question {
            names: example_com(),
            q_type: single.questions[0].q_type,
            class: 1,
            ttl: 300,
            data,
        });
        reply.header.answer_record_count = 1;
        let wire = reply.write(true).unwrap();
        replies.push(Message::new(&wire, true).unwrap());
    }
    let mut combined = aggregate(&query, &replies);
    assert_eq!(combined.header.answer_record_count, 2);
    assert_eq!(combined.header.question_count, 2);
    assert!(combined.header.qr_indicator);
    assert_eq!(combined.questions, query.questions);
    assert_eq!(combined.answers.len(), 2);
    assert_eq!(combined.answers[0].q_type, 1);
    assert_eq!(combined.answers[1].q_type, 28);
    let wire = combined.write(true).unwrap();
    let back = Message::new(&wire, true).unwrap();
    assert_eq!(back.answers, combined.answers);
    assert_eq!(back.header.packet_id, 1234);
}

#[test]
fn reserved_bits_written_as_zero() {
    let mut h = sample_header();
    h.reserved = 5;
    let bytes = h.write();
    assert_eq!((bytes[3] >> 4) & 0x7, 0);
    let back = Header::parse(&bytes).unwrap();
    assert_eq!(back.reserved, 0);
    h.reserved = 0;
    assert_eq!(back, h);
}

#[test]
fn non_utf8_label_rejected() {
    assert_eq!(parse_labels(&[1, 0xff, 0], 0), Err(DnsError::InvalidUtf8Label));
    assert_eq!(parse_labels(&[2, 0xc0, 0x80, 0], 0), Err(DnsError::InvalidUtf8Label));
    assert_eq!(parse_labels(&[3, 0xed, 0xa0, 0x80, 0], 0), Err(DnsError::InvalidUtf8Label));
    let mut buf = vec![0u8; 12];
    buf.extend_from_slice(&[1, 0xfe, 0, 0, 1, 0, 1]);
    buf[5] = 1;
    assert_eq!(Message::new(&buf, false), Err(DnsError::InvalidUtf8Label));
}

#[test]
fn multibyte_utf8_label_accepted() {
    let bytes = [2, 0xc3, 0xa9, 4, 0xf0, 0x9f, 0xa6, 0x80, 0];
    assert_eq!(
        parse_labels(&bytes, 0),
        Ok((vec![vec![0xc3, 0xa9], vec![0xf0, 0x9f, 0xa6, 0x80]], 9))
    );
}

#[test]
fn trailing_bytes_ignored() {
    let mut query = Message {
        header: sample_header(),
        questions: vec![question(example_com(), 1)],
        answers: vec![],
    };
    query.header.question_count = 1;
    let mut bytes = query.encode().unwrap();
    let exact = Message::new(&bytes, false).unwrap();
    bytes.extend_from_slice(&[0xde, 0xad, 0xbe, 0xef]);
    assert_eq!(Message::new(&bytes, false), Ok(exact));
}
