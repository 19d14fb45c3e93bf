use dnscache::message::{DnsError, DnsRequest, DnsResourceRecord, DnsResponseData};

fn make_query(id: u16, name: &str, qtype: u16, qclass: u16) -> Vec<u8> {
    let mut req = DnsRequest::new();
    req.id = id;
    req.rd = 1;
    req.qdcount = 1;
    req.qname = name.as_bytes().to_vec();
    req.qtype = qtype;
    req.qclass = qclass;
    req.binarize()
}

#[test]
fn round_trip_query() {
    let mut req = DnsRequest::new();
    req.id = 0x1234;
    req.qr = 0;
    req.opcode = 2;
    req.aa = 1;
    req.tc = 0;
    req.rd = 1;
    req.ra = 1;
    req.z = 3;
    req.rcode = 5;
    req.qdcount = 1;
    req.ancount = 2;
    req.nscount = 3;
    req.arcount = 4;
    req.qname = b"luca.civ.dev".to_vec();
    req.qtype = 1;
    req.qclass = 1;
    let bytes = req.binarize();

    let mut back = DnsRequest::new();
    assert_eq!(back.parse(&bytes), Ok(()));
    assert_eq!(back.id, 0x1234);
    assert_eq!(back.qr, 0);
    assert_eq!(back.opcode, 2);
    assert_eq!(back.aa, 1);
    assert_eq!(back.tc, 0);
    assert_eq!(back.rd, 1);
    assert_eq!(back.ra, 1);
    assert_eq!(back.z, 3);
    assert_eq!(back.rcode, 5);
    assert_eq!(back.qdcount, 1);
    assert_eq!(back.ancount, 2);
    assert_eq!(back.nscount, 3);
    assert_eq!(back.arcount, 4);
    assert_eq!(back.qname, b"luca.civ.dev".to_vec());
    assert_eq!(back.qtype, 1);
    assert_eq!(back.qclass, 1);

    // a second decode of a re-encode is byte-identical
    let again = back.binarize();
    assert_eq!(again, bytes);
}

#[test]
fn encode_exact_bytes() {
    let bytes = make_query(0xABCD, "ab.c", 1, 1);
    let expected: Vec<u8> = vec![
        0xAB, 0xCD, 0x01, 0x00, 0x00, 0x01, 0x00, 0x00, 0x00, 0x00, 0x00, 0x00, 2, b'a', b'b', 1,
        b'c', 0, 0x00, 0x01, 0x00, 0x01,
    ];
    assert_eq!(bytes, expected);
}

#[test]
fn id_substitution() {
    let stored = make_query(0x1111, "example.org", 1, 1);
    let mut req = DnsRequest::new();
    assert_eq!(req.parse_response(&stored), Ok(()));
    req.id = 0x2222;
    let out = req.binarize();
    assert_eq!(out[0], 0x22);
    assert_eq!(out[1], 0x22);
    assert_eq!(&out[2..], &stored[2..]);
}

#[test]
fn header_too_short() {
    let mut req = DnsRequest::new();
    let before = req.clone();
    assert_eq!(req.parse(&[0u8; 11]), Err(DnsError::HeaderTooShort));
    assert_eq!(req.qname, before.qname);
    assert_eq!(req.id, before.id);
}

#[test]
fn name_past_end() {
    // label declares 5 bytes but only 1 follows
    let mut buf = vec![0u8; 12];
    buf.push(5);
    buf.push(b'a');
    let mut req = DnsRequest::new();
    assert_eq!(req.parse(&buf), Err(DnsError::NameTooShort));
}

#[test]
fn missing_terminator() {
    // name runs to the end of the buffer without a zero byte
    let mut buf = vec![0u8; 12];
    buf.push(1);
    buf.push(b'a');
    let mut req = DnsRequest::new();
    assert_eq!(req.parse(&buf), Err(DnsError::NameTooShort));
}

#[test]
fn question_too_short() {
    // name terminates but qtype/qclass are missing
    let mut buf = vec![0u8; 12];
    buf.push(1);
    buf.push(b'a');
    buf.push(0);
    buf.push(0);
    buf.push(1);
    let mut req = DnsRequest::new();
    assert_eq!(req.parse(&buf), Err(DnsError::QuestionTooShort));
}

#[test]
fn record_too_short() {
    // a record name followed by too few fixed bytes
    let buf = vec![1, b'a', 0, 0, 1];
    let req = DnsRequest::new();
    let mut offset = 0usize;
    assert_eq!(
        req.parse_resource_record(&buf, &mut offset).unwrap_err(),
        DnsError::RecordTooShort
    );
    assert_eq!(offset, 0);
}

#[test]
fn pointer_cycle_rejected() {
    // a pointer at offset 0 aiming at itself must not loop forever
    let buf = vec![0xC0, 0x00];
    let req = DnsRequest::new();
    let mut offset = 0usize;
    assert_eq!(
        req.parse_name(&buf, &mut offset),
        Err(DnsError::TooManyPointers)
    );
    assert_eq!(offset, 0);
}

#[test]
fn compression_pointer_resolves_to_question_name() {
    // response: header, question "ab.c", one answer whose name is a
    // pointer back to offset 12 (the question's name)
    let mut buf: Vec<u8> = Vec::new();
    buf.extend_from_slice(&[0xDB, 0x7C, 0x81, 0x00, 0x00, 0x01, 0x00, 0x01, 0x00, 0x00, 0x00, 0x00]);
    buf.extend_from_slice(&[2, b'a', b'b', 1, b'c', 0]); // name at offset 12
    buf.extend_from_slice(&[0x00, 0x01, 0x00, 0x01]); // qtype, qclass
    let answer_at = buf.len();
    buf.extend_from_slice(&[0xC0, 12]); // pointer to offset 12
    buf.extend_from_slice(&[0x00, 0x01, 0x00, 0x01]); // type, class
    buf.extend_from_slice(&[0x00, 0x00, 0x00, 0x3C]); // ttl 60
    buf.extend_from_slice(&[0x00, 0x04, 10, 20, 30, 40]); // rdlength, rdata

    let req = DnsRequest::new();
    let mut offset = answer_at;
    let rec = req.parse_resource_record(&buf, &mut offset).unwrap();
    assert_eq!(rec.name, b"ab.c".to_vec());
    assert_eq!(rec.rr_type, 1);
    assert_eq!(rec.rr_class, 1);
    assert_eq!(rec.ttl, 60);
    assert_eq!(rec.rdlength, 4);
    assert_eq!(rec.rdata, vec![10, 20, 30, 40]);
    assert_eq!(offset, buf.len());

    // decoding the whole response finds the same record
    let mut resp = DnsRequest::new();
    assert_eq!(resp.parse_response(&buf), Ok(()));
    let data = resp.parse_response_data().unwrap();
    assert_eq!(data.answer_records.len(), 1);
    assert_eq!(data.answer_records[0].name, b"ab.c".to_vec());
    assert_eq!(data.query.0, b"ab.c".to_vec());
}

#[test]
fn pointer_resume_position() {
    // a label, then a pointer: scanning resumes after the first pointer
    let mut buf: Vec<u8> = vec![1, b'x', 0]; // name "x" at offset 0
    let start = buf.len();
    buf.extend_from_slice(&[1, b'y', 0xC0, 0x00]); // "y" + pointer to 0
    buf.push(0xFF); // trailing byte that must not be consumed

    let req = DnsRequest::new();
    let mut offset = start;
    let name = req.parse_name(&buf, &mut offset).unwrap();
    assert_eq!(name, b"y.x".to_vec());
    assert_eq!(offset, start + 4);
}

#[test]
fn structured_encode_decode() {
    let body = DnsResponseData {
        id: 55804,
        flags: 129,
        questions: 1,
        answers: 1,
        authority_rrs: 0,
        additional_rrs: 0,
        query: (b"luca.civ.dev".to_vec(), 1, 1),
        answer_records: vec![DnsResourceRecord {
            name: b"luca.civ.dev".to_vec(),
            rr_type: 1,
            rr_class: 1,
            ttl: 10,
            rdlength: 4,
            rdata: vec![69, 69, 14, 88],
        }],
        authority_records: vec![],
        additional_records: vec![],
    };
    let mut req = DnsRequest::new();
    req.binarize_response_data(body);
    let bytes = req.response_data.clone();
    assert_eq!(bytes[0], 0xD9); // 55804 = 0xD9FC
    assert_eq!(bytes[1], 0xFC);
    assert_eq!(bytes[2], 129);

    let mut back = DnsRequest::new();
    assert_eq!(back.parse_response(&bytes), Ok(()));
    assert_eq!(back.qname, b"luca.civ.dev".to_vec());
    let data = back.parse_response_data().unwrap();
    assert_eq!(data.answer_records.len(), 1);
    assert_eq!(data.answer_records[0].ttl, 10);
    assert_eq!(data.answer_records[0].rdata, vec![69, 69, 14, 88]);
}

#[test]
fn root_name_query() {
    // a query for the root name: empty label sequence, only a terminator
    let mut buf = vec![0u8; 12];
    buf[5] = 1; // qdcount 1
    buf.push(0); // root name
    buf.extend_from_slice(&[0x00, 0x02, 0x00, 0x01]);
    let mut req = DnsRequest::new();
    assert_eq!(req.parse(&buf), Ok(()));
    assert_eq!(req.qname, Vec::<u8>::new());
    assert_eq!(req.qtype, 2);
    assert_eq!(req.qclass, 1);
}

#[test]
fn record_with_empty_rdata() {
    let buf = vec![1, b'a', 0, 0, 1, 0, 1, 0, 0, 0, 7, 0, 0];
    let req = DnsRequest::new();
    let mut offset = 0usize;
    let rec = req.parse_resource_record(&buf, &mut offset).unwrap();
    assert_eq!(rec.name, b"a".to_vec());
    assert_eq!(rec.ttl, 7);
    assert_eq!(rec.rdlength, 0);
    assert_eq!(rec.rdata, Vec::<u8>::new());
    assert_eq!(offset, buf.len());
}
