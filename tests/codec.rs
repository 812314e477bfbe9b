use dnrs::{
    set_response_flags, AData, CNameData, DnsError, Flags, Header, Message, Name, Question,
    RecordData, RecordType, ResourceRecord,
};

fn rr(name: &str, type_: u16, ttl: u32, data: RecordData) -> ResourceRecord {
    ResourceRecord { name: Name::new(name), type_, class: 1, ttl, data }
}

#[test]
fn record_type_codes() {
    assert_eq!(RecordType::Aaaa.to_int(), 28);
    assert_eq!(RecordType::Opt.to_int(), 41);
    assert_eq!(RecordType::from_int(15), Some(RecordType::Mx));
    assert_eq!(RecordType::from_int(99), None);
    assert_eq!(RecordType::from_int(0), None);
}

#[test]
fn header_round_trip() {
    let h = Header {
        id: 0xbeef,
        flags: Flags(0x8183),
        num_questions: 1,
        num_answers: 2,
        num_authorities: 3,
        num_additionals: 4,
    };
    let b = h.to_bytes();
    assert_eq!(b, vec![0xbe, 0xef, 0x81, 0x83, 0, 1, 0, 2, 0, 3, 0, 4]);
    let (back, end) = Header::from_bytes(&b, 0).unwrap();
    assert_eq!(back, h);
    assert_eq!(end, 12);
    assert!(matches!(Header::from_bytes(&b[..11], 0), Err(DnsError::FormatError)));
}

#[test]
fn response_flags_keep_reserved_bits() {
    let f = Flags(0x0570); // AA, RD, Z, AD, CD set
    let r = set_response_flags(f);
    assert_eq!(r.0, 0x8570 & !0x0400 | 0x0080);
    assert!(r.qr());
    assert!(!r.aa());
    assert!(r.ra());
    assert!(r.rd());
    let mut g = r;
    g.set_rcode(4);
    assert_eq!(g.rcode(), 4);
    assert_eq!(g.0 & 0xfff0, r.0 & 0xfff0);
}

#[test]
fn question_refuses_long_names() {
    let long = vec!["abcdefghij"; 24].join(".");
    assert!(long.len() > 253);
    assert!(matches!(Question::new(Name::new(&long), RecordType::A), Err(DnsError::FormatError)));
    let q = Question::new(Name::new("example.com"), RecordType::Mx).unwrap();
    assert_eq!(q.class, 1);
    let b = q.to_bytes().unwrap();
    assert_eq!(&b[b.len() - 4..], &[0, 15, 0, 1]);
}

#[test]
fn records_round_trip() {
    let records = vec![
        rr("example.com", 1, 300, RecordData::A([93, 184, 216, 34])),
        rr("example.com", 2, 300, RecordData::Ns(Name::new("ns1.example.com"))),
        rr("www.example.com", 5, 60, RecordData::Cname(Name::new("example.com"))),
        rr("34.216.184.93.in-addr.arpa", 12, 60, RecordData::Ptr(Name::new("example.com"))),
        rr(
            "example.com",
            6,
            3600,
            RecordData::Soa {
                mname: Name::new("ns.icann.org"),
                rname: Name::new("noc.dns.icann.org"),
                serial: 2024010101,
                refresh: 7200,
                retry: 3600,
                expire: 1209600,
                minimum: 3600,
            },
        ),
        rr("example.com", 15, 300, RecordData::Mx { preference: 10, exchange: Name::new("mail.example.com") }),
        rr("example.com", 16, 300, RecordData::Txt(vec![b"v=spf1 -all".to_vec(), b"hello".to_vec()])),
        rr("example.com", 28, 300, RecordData::Aaaa([0x26, 0x06, 0x28, 0, 0x02, 0x20, 0, 1, 0x2, 0x48, 0x18, 0x93, 0x25, 0xc8, 0x19, 0x46])),
        rr("example.com", 99, 300, RecordData::Other(vec![1, 2, 3])),
    ];
    for r in records {
        let b = r.to_bytes().unwrap();
        let (back, end) = ResourceRecord::from_bytes(&b, 0).unwrap();
        assert_eq!(end, b.len());
        assert!(back == r);
        assert_eq!(back.ttl, r.ttl);
        assert_eq!(back.type_, r.type_);
        assert_eq!(back.to_bytes().unwrap(), b);
    }
}

#[test]
fn record_equality_ignores_ttl() {
    let a = rr("example.com", 1, 300, RecordData::A([1, 2, 3, 4]));
    let b = rr("example.com", 1, 5, RecordData::A([1, 2, 3, 4]));
    let c = rr("example.com", 1, 300, RecordData::A([1, 2, 3, 5]));
    assert!(a == b);
    assert!(a != c);
}

#[test]
fn record_data_length_is_that_of_the_data() {
    let r = rr("a", 1, 1, RecordData::A([9, 9, 9, 9]));
    let b = r.to_bytes().unwrap();
    // name (3) + type, class, ttl (8) + rdlen (2) + data (4)
    assert_eq!(b.len(), 3 + 8 + 2 + 4);
    assert_eq!(&b[11..13], &[0, 4]);
}

#[test]
fn txt_needs_a_string() {
    let r = rr("a", 16, 1, RecordData::Txt(vec![]));
    assert!(matches!(r.to_bytes(), Err(DnsError::FormatError)));
    let r = rr("a", 16, 1, RecordData::Txt(vec![vec![0u8; 256]]));
    assert!(matches!(r.to_bytes(), Err(DnsError::FormatError)));
}

#[test]
fn message_length_and_counts() {
    let q = Question::new(Name::new("example.com"), RecordType::A).unwrap();
    let mut m = Message::new(Header::new(7, Flags::new()));
    m.add_question(q.clone());
    let a = rr("example.com", 1, 300, RecordData::A([93, 184, 216, 34]));
    let ns = rr("com", 2, 300, RecordData::Ns(Name::new("a.gtld-servers.net")));
    let glue = rr("a.gtld-servers.net", 1, 300, RecordData::A([192, 5, 6, 30]));
    m.add_answer(a.clone());
    m.add_authority(ns.clone());
    m.add_additional(glue.clone());
    assert_eq!(m.header.num_questions, 1);
    assert_eq!(m.header.num_answers, 1);
    assert_eq!(m.header.num_authorities, 1);
    assert_eq!(m.header.num_additionals, 1);
    let b = m.to_bytes().unwrap();
    let parts = q.to_bytes().unwrap().len()
        + a.to_bytes().unwrap().len()
        + ns.to_bytes().unwrap().len()
        + glue.to_bytes().unwrap().len();
    assert_eq!(b.len(), 12 + parts);
    let back = Message::from_bytes(&b).unwrap();
    assert_eq!(back.header, m.header);
    assert_eq!(back.questions.len(), 1);
    assert!(back.answers[0] == a);
    assert!(back.authorities[0] == ns);
    assert!(back.additionals[0] == glue);
}

#[test]
fn message_new_starts_counts_at_zero() {
    let mut h = Header::new(9, Flags::new());
    h.num_answers = 5;
    let m = Message::new(h);
    assert_eq!(m.header.num_answers, 0);
    assert_eq!(m.header.id, 9);
}

#[test]
fn truncated_message_is_a_format_error() {
    let q = Question::new(Name::new("example.com"), RecordType::A).unwrap();
    let mut m = Message::new(Header::new(7, Flags::new()));
    m.add_question(q);
    let b = m.to_bytes().unwrap();
    assert!(matches!(Message::from_bytes(&b[..b.len() - 1]), Err(DnsError::FormatError)));
    assert!(matches!(Message::from_bytes(&b[..5]), Err(DnsError::FormatError)));
}

#[test]
fn compressed_answer_parses_like_uncompressed() {
    let q = Question::new(Name::new("example.com"), RecordType::A).unwrap();
    let mut plain = Message::new(Header::new(1, Flags::new()));
    plain.add_question(q);
    plain.add_answer(rr("example.com", 1, 300, RecordData::A([93, 184, 216, 34])));
    let plain_bytes = plain.to_bytes().unwrap();

    // the same message with the answer's name as a pointer to the question's name
    let mut packed = plain_bytes[..12 + 13 + 4].to_vec();
    packed.extend_from_slice(&[0xc0, 12]);
    packed.extend_from_slice(&plain_bytes[12 + 13 + 4 + 13..]);
    assert_eq!(packed.len(), plain_bytes.len() - 11);

    let a = Message::from_bytes(&plain_bytes).unwrap();
    let b = Message::from_bytes(&packed).unwrap();
    assert!(a.answers[0] == b.answers[0]);
    assert_eq!(b.answers[0].name.as_str(), "example.com");
    assert_eq!(b.answers[0].ttl, 300);
}

#[test]
fn unknown_type_is_kept_verbatim() {
    let q = Question::new(Name::new("x.test"), RecordType::A).unwrap();
    let mut m = Message::new(Header::new(3, Flags::new()));
    m.add_question(q);
    let head = m.to_bytes().unwrap();
    let mut bytes = head.clone();
    bytes[7] = 1; // one answer
    // answer: name pointer to the question, type 99, class 1, ttl 60, rdlen 7
    bytes.extend_from_slice(&[0xc0, 12, 0, 99, 0, 1, 0, 0, 0, 60, 0, 7]);
    let data = [1u8, 2, 3, 4, 5, 6, 7];
    bytes.extend_from_slice(&data);
    let parsed = Message::from_bytes(&bytes).unwrap();
    assert_eq!(parsed.answers.len(), 1);
    assert_eq!(parsed.answers[0].type_, 99);
    match &parsed.answers[0].data {
        RecordData::Other(raw) => assert_eq!(raw, &data.to_vec()),
        other => panic!("unexpected data {:?}", other),
    }
    let out = parsed.to_bytes().unwrap();
    let off = out.len() - 7;
    assert_eq!(&out[off..], &data);
    assert_eq!(&out[off - 2..off], &[0, 7]);
}

#[test]
fn rdata_parse_stops_at_rdlen() {
    // an A record whose rdlen (6) is longer than the address: the cursor still moves by 6
    let mut b = vec![0u8, 0, 1, 0, 1, 0, 0, 0, 1, 0, 6, 10, 0, 0, 1, 0xaa, 0xbb];
    b.extend_from_slice(&[0]);
    let (r, end) = ResourceRecord::from_bytes(&b, 0).unwrap();
    assert_eq!(end, 17);
    match r.data {
        RecordData::A(a) => assert_eq!(a, [10, 0, 0, 1]),
        other => panic!("unexpected data {:?}", other),
    }
}

#[test]
fn typed_bodies() {
    let a = AData::from_data(&[1, 2, 3, 4, 5]).unwrap();
    assert_eq!(a.0, [1, 2, 3, 4]);
    assert_eq!(a.to_data(), vec![1, 2, 3, 4]);
    assert!(matches!(AData::from_data(&[1, 2]), Err(DnsError::FormatError)));
    let c = CNameData::from_data(b"example.com").unwrap();
    assert_eq!(c.as_str(), "example.com");
    assert_eq!(c.to_data(), b"example.com".to_vec());
    assert!(matches!(CNameData::from_data(&[0xff]), Err(DnsError::FormatError)));
}

#[test]
fn error_rcodes() {
    assert_eq!(DnsError::FormatError.rcode(), 1);
    assert_eq!(DnsError::ServerFailure(String::new()).rcode(), 2);
    assert_eq!(DnsError::NameError.rcode(), 3);
    assert_eq!(DnsError::NotImplemented.rcode(), 4);
    assert_eq!(DnsError::Refused.rcode(), 5);
}
