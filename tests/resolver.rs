use dnrs::{
    build_response, screen_request, Action, Cache, DnsError, Event, Flags, Header, IpAddress,
    Message, Name, Question, RecordData, RecordType, Resolution, ResourceRecord, Screening,
};

const ID: u16 = 0x4242;

fn rr(name: &str, type_: u16, data: RecordData) -> ResourceRecord {
    ResourceRecord { name: Name::new(name), type_, class: 1, ttl: 300, data }
}

fn question(name: &str) -> Question {
    Question::new(Name::new(name), RecordType::A).unwrap()
}

fn reply(
    q: &Question,
    answers: Vec<ResourceRecord>,
    authorities: Vec<ResourceRecord>,
    additionals: Vec<ResourceRecord>,
) -> Vec<u8> {
    let mut m = Message::new(Header::new(ID, Flags(0x8000)));
    m.add_question(q.clone());
    for r in answers {
        m.add_answer(r);
    }
    for r in authorities {
        m.add_authority(r);
    }
    for r in additionals {
        m.add_additional(r);
    }
    m.to_bytes().unwrap()
}

fn queried(a: &Action) -> [u8; 4] {
    match a {
        Action::Query { ip: IpAddress::V4(ip), port, bytes } => {
            assert_eq!(*port, 53);
            let m = Message::from_bytes(bytes).unwrap();
            assert_eq!(m.header.id, ID);
            ip.clone()
        },
        _ => panic!("expected a query"),
    }
}

fn done(a: Action) -> Vec<ResourceRecord> {
    match a {
        Action::Done(Ok(v)) => v,
        Action::Done(Err(e)) => panic!("resolution failed: {:?}", e),
        _ => panic!("expected the end"),
    }
}

#[test]
fn follows_delegations_to_the_answer() {
    let mut cache = Cache::new();
    let q = question("example.com");
    let mut res = Resolution::new(q.clone(), ID, 0, &cache).unwrap();
    let a = res.step(&mut cache, Event::Start);
    queried(&a);

    let root_reply = reply(
        &q,
        vec![],
        vec![rr("com", 2, RecordData::Ns(Name::new("a.gtld-servers.net")))],
        vec![rr("a.gtld-servers.net", 1, RecordData::A([192, 5, 6, 30]))],
    );
    let a = res.step(&mut cache, Event::Reply(root_reply));
    assert_eq!(queried(&a), [192, 5, 6, 30]);

    let com_reply = reply(
        &q,
        vec![],
        vec![rr("example.com", 2, RecordData::Ns(Name::new("ns1.example.com")))],
        vec![rr("ns1.example.com", 1, RecordData::A([199, 43, 135, 53]))],
    );
    let a = res.step(&mut cache, Event::Reply(com_reply));
    assert_eq!(queried(&a), [199, 43, 135, 53]);

    let final_reply = reply(&q, vec![rr("example.com", 1, RecordData::A([93, 184, 216, 34]))], vec![], vec![]);
    let result = done(res.step(&mut cache, Event::Reply(final_reply)));
    assert_eq!(result.len(), 1);
    assert!(matches!(result[0].data, RecordData::A([93, 184, 216, 34])));

    // the delegations, their glue and the answer were cached
    assert!(cache.get_record_set(&Name::new("com")).is_some());
    assert!(cache.get_record_set(&Name::new("a.gtld-servers.net")).is_some());
    assert!(cache.get_record_set(&Name::new("example.com")).is_some());
}

#[test]
fn cached_delegation_primes_the_queue() {
    let mut cache = Cache::new();
    cache.insert_record(Name::new("com"), rr("com", 2, RecordData::Ns(Name::new("a.gtld-servers.net"))));
    cache.insert_record(Name::new("a.gtld-servers.net"), rr("a.gtld-servers.net", 1, RecordData::A([192, 5, 6, 30])));
    let q = question("example.com");
    let mut res = Resolution::new(q, ID, 0, &cache).unwrap();
    let a = res.step(&mut cache, Event::Start);
    assert_eq!(queried(&a), [192, 5, 6, 30]);
}

#[test]
fn chases_an_alias() {
    let mut cache = Cache::new();
    let q = question("www.example.com");
    let mut res = Resolution::new(q.clone(), ID, 0, &cache).unwrap();
    res.step(&mut cache, Event::Start);
    let cname = rr("www.example.com", 5, RecordData::Cname(Name::new("example.com")));
    let a = res.step(&mut cache, Event::Reply(reply(&q, vec![cname], vec![], vec![])));
    let sub = match a {
        Action::Resolve(sub) => sub,
        _ => panic!("expected a sub-resolution"),
    };
    assert_eq!(sub.name.as_str(), "example.com");
    assert_eq!(sub.type_, RecordType::A);
    let answer = rr("example.com", 1, RecordData::A([93, 184, 216, 34]));
    let result = done(res.step(&mut cache, Event::Resolved(Ok(vec![answer]))));
    assert_eq!(result.len(), 2);
    assert_eq!(result[0].type_, 5);
    assert_eq!(result[1].type_, 1);
}

#[test]
fn alias_chain_failure_is_passed_on() {
    let mut cache = Cache::new();
    let q = question("www.example.com");
    let mut res = Resolution::new(q.clone(), ID, 0, &cache).unwrap();
    res.step(&mut cache, Event::Start);
    let cname = rr("www.example.com", 5, RecordData::Cname(Name::new("example.com")));
    res.step(&mut cache, Event::Reply(reply(&q, vec![cname], vec![], vec![])));
    let a = res.step(&mut cache, Event::Resolved(Err(DnsError::NameError)));
    assert!(matches!(a, Action::Done(Err(DnsError::NameError))));
}

#[test]
fn alias_too_deep_fails() {
    let mut cache = Cache::new();
    let q = question("www.example.com");
    let mut res = Resolution::new(q.clone(), ID, 16, &cache).unwrap();
    res.step(&mut cache, Event::Start);
    let cname = rr("www.example.com", 5, RecordData::Cname(Name::new("example.com")));
    let a = res.step(&mut cache, Event::Reply(reply(&q, vec![cname], vec![], vec![])));
    assert!(matches!(a, Action::Done(Err(DnsError::ServerFailure(_)))));
}

#[test]
fn authoritative_denial_returns_the_soa() {
    let mut cache = Cache::new();
    let q = question("nothing.example.com");
    let mut res = Resolution::new(q.clone(), ID, 0, &cache).unwrap();
    res.step(&mut cache, Event::Start);
    let soa = rr(
        "example.com",
        6,
        RecordData::Soa {
            mname: Name::new("ns.icann.org"),
            rname: Name::new("noc.dns.icann.org"),
            serial: 1,
            refresh: 2,
            retry: 3,
            expire: 4,
            minimum: 5,
        },
    );
    let result = done(res.step(&mut cache, Event::Reply(reply(&q, vec![], vec![soa.clone()], vec![]))));
    assert_eq!(result.len(), 1);
    assert!(result[0] == soa);
}

#[test]
fn delegation_without_glue_resolves_the_nameserver() {
    let mut cache = Cache::new();
    let q = question("example.tld");
    let mut res = Resolution::new(q.clone(), ID, 0, &cache).unwrap();
    res.step(&mut cache, Event::Start);
    let ns = rr("tld", 2, RecordData::Ns(Name::new("ns1.other.tld")));
    let a = res.step(&mut cache, Event::Reply(reply(&q, vec![], vec![ns], vec![])));
    let sub = match a {
        Action::Resolve(sub) => sub,
        _ => panic!("expected a sub-resolution"),
    };
    assert_eq!(sub.name.as_str(), "ns1.other.tld");
    assert_eq!(sub.type_, RecordType::A);
    let addr = rr("ns1.other.tld", 1, RecordData::A([5, 6, 7, 8]));
    let a = res.step(&mut cache, Event::Resolved(Ok(vec![addr])));
    assert_eq!(queried(&a), [5, 6, 7, 8]);
}

#[test]
fn mismatched_or_broken_replies_are_waited_past() {
    let mut cache = Cache::new();
    let q = question("example.com");
    let mut res = Resolution::new(q.clone(), ID, 0, &cache).unwrap();
    res.step(&mut cache, Event::Start);
    assert!(matches!(res.step(&mut cache, Event::Reply(vec![1, 2, 3])), Action::Listen));
    let other = reply(&question("example.org"), vec![], vec![], vec![]);
    assert!(matches!(res.step(&mut cache, Event::Reply(other)), Action::Listen));
}

#[test]
fn unexpected_answer_is_a_format_error() {
    let mut cache = Cache::new();
    let q = question("example.com");
    let mut res = Resolution::new(q.clone(), ID, 0, &cache).unwrap();
    res.step(&mut cache, Event::Start);
    let mx = rr("example.com", 15, RecordData::Mx { preference: 1, exchange: Name::new("m.example.com") });
    let a = res.step(&mut cache, Event::Reply(reply(&q, vec![mx], vec![], vec![])));
    assert!(matches!(a, Action::Done(Err(DnsError::FormatError))));
}

#[test]
fn empty_reply_is_a_server_failure() {
    let mut cache = Cache::new();
    let q = question("example.com");
    let mut res = Resolution::new(q.clone(), ID, 0, &cache).unwrap();
    res.step(&mut cache, Event::Start);
    let a = res.step(&mut cache, Event::Reply(reply(&q, vec![], vec![], vec![])));
    assert!(matches!(a, Action::Done(Err(DnsError::ServerFailure(_)))));
}

#[test]
fn running_out_of_nameservers_fails() {
    let mut cache = Cache::new();
    let q = question("example.com");
    let mut res = Resolution::new(q, ID, 0, &cache).unwrap();
    let mut a = res.step(&mut cache, Event::Start);
    let mut asked = 0;
    while let Action::Query { .. } = a {
        asked += 1;
        a = res.step(&mut cache, Event::NoReply);
    }
    assert_eq!(asked, 13);
    assert!(matches!(a, Action::Done(Err(DnsError::ServerFailure(_)))));
}

fn request_bytes(flags: u16, questions: usize) -> Vec<u8> {
    let mut m = Message::new(Header::new(77, Flags(flags)));
    for _ in 0..questions {
        m.add_question(question("example.com"));
    }
    m.to_bytes().unwrap()
}

#[test]
fn screening_requests() {
    assert!(matches!(screen_request(&[1, 2, 3]), Screening::Ignore));
    assert!(matches!(screen_request(&request_bytes(0x8000, 1)), Screening::Ignore));
    match screen_request(&request_bytes(0x0100, 2)) {
        Screening::Respond(m) => {
            assert_eq!(m.header.id, 77);
            assert_eq!(m.header.flags.rcode(), 4);
            assert!(m.header.flags.qr());
        },
        _ => panic!("expected a response"),
    }
    match screen_request(&request_bytes(0x0900, 1)) {
        Screening::Respond(m) => assert_eq!(m.header.flags.rcode(), 4),
        _ => panic!("expected a response"),
    }
    let mut broken = request_bytes(0x0100, 1);
    broken.truncate(14);
    match screen_request(&broken) {
        Screening::Respond(m) => assert_eq!(m.header.flags.rcode(), 1),
        _ => panic!("expected a response"),
    }
    match screen_request(&request_bytes(0x0100, 1)) {
        Screening::Resolve { header, question } => {
            assert_eq!(header.id, 77);
            assert_eq!(question.name.as_str(), "example.com");
        },
        _ => panic!("expected a resolution"),
    }
}

#[test]
fn responses_to_clients() {
    let req = Header::new(5, Flags(0x0100));
    let ok = build_response(req, question("example.com"), Ok(vec![rr("example.com", 1, RecordData::A([1, 2, 3, 4]))]));
    assert_eq!(ok.header.id, 5);
    assert_eq!(ok.header.num_answers, 1);
    assert_eq!(ok.header.num_questions, 1);
    assert!(ok.header.flags.qr() && ok.header.flags.ra() && ok.header.flags.rd());
    assert_eq!(ok.header.flags.rcode(), 0);
    let failed = build_response(req, question("example.com"), Err(DnsError::FormatError));
    assert_eq!(failed.header.flags.rcode(), 2);
    assert_eq!(failed.header.num_answers, 0);
    assert_eq!(failed.header.num_questions, 1);
}

#[test]
fn nameserver_sub_resolution_stops_at_the_depth_limit() {
    let mut cache = Cache::new();
    let q = question("example.tld");
    let mut res = Resolution::new(q.clone(), ID, 16, &cache).unwrap();
    res.step(&mut cache, Event::Start);
    let ns = rr("tld", 2, RecordData::Ns(Name::new("ns1.other.tld")));
    let a = res.step(&mut cache, Event::Reply(reply(&q, vec![], vec![ns], vec![])));
    // the glue-less nameserver cannot be resolved this deep: a root is asked instead
    assert!(matches!(a, Action::Query { .. }));
}
