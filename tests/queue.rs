use dnrs::{Host, IpAddress, Name, NsQueue};

const ROOTS: [[u8; 4]; 13] = [
    [198, 41, 0, 4],
    [199, 9, 14, 201],
    [192, 33, 4, 12],
    [199, 7, 91, 13],
    [192, 203, 230, 10],
    [192, 5, 5, 241],
    [192, 112, 36, 4],
    [198, 97, 190, 53],
    [192, 36, 148, 17],
    [192, 58, 128, 30],
    [193, 0, 14, 129],
    [199, 7, 83, 42],
    [202, 12, 27, 33],
];

fn v4(h: &Host) -> [u8; 4] {
    match h.get_ip() {
        Some(IpAddress::V4(a)) => a,
        other => panic!("no IPv4 address: {:?}", other),
    }
}

#[test]
fn seeded_pops_a_root() {
    let mut q = NsQueue::seeded();
    let h = q.pop().unwrap();
    assert!(ROOTS.contains(&v4(&h)));
    assert_eq!(q.top_level(), 0);
    let mut seen = vec![v4(&h)];
    while let Some(h) = q.pop() {
        seen.push(v4(&h));
    }
    seen.sort();
    let mut all = ROOTS.to_vec();
    all.sort();
    assert_eq!(seen, all);
}

#[test]
fn deeper_resolved_host_pops_first() {
    let mut q = NsQueue::seeded();
    let host = Host::new(Some(Name::new("a.gtld-servers.net")), Some([192, 5, 6, 30]), None).unwrap();
    q.insert(host, 1);
    let h = q.pop().unwrap();
    assert_eq!(v4(&h), [192, 5, 6, 30]);
    assert_eq!(q.top_level(), 1);
    // the level ran dry: the next one comes from the roots
    let next = q.pop().unwrap();
    assert!(ROOTS.contains(&v4(&next)));
    assert_eq!(q.top_level(), 0);
}

#[test]
fn resolved_hosts_go_before_unresolved_at_a_level() {
    let mut q = NsQueue::new();
    q.insert(Host::from_name(Name::new("ns1.example.com")), 2);
    q.insert(Host::from_ipv4([10, 0, 0, 1]), 2);
    let first = q.pop().unwrap();
    assert!(first.resolved());
    let second = q.pop().unwrap();
    assert!(!second.resolved());
    assert!(q.pop().is_none());
}

#[test]
fn unresolved_only_still_pops() {
    let mut q = NsQueue::seeded();
    q.insert(Host::from_name(Name::new("ns1.other.tld")), 3);
    q.insert(Host::from_name(Name::new("ns2.other.tld")), 3);
    let h = q.pop().unwrap();
    assert!(!h.resolved());
    let n = h.name().as_ref().unwrap().as_str().to_string();
    assert!(n == "ns1.other.tld" || n == "ns2.other.tld");
    assert_eq!(q.top_level(), 3);
}

#[test]
fn empty_queue_pops_nothing() {
    let mut q = NsQueue::new();
    assert!(q.pop().is_none());
    assert!(q.peek().is_none());
    let mut s = NsQueue::seeded();
    let p = s.peek().unwrap();
    assert!(ROOTS.contains(&v4(&p)));
}

#[test]
fn host_needs_something() {
    assert!(Host::new(None, None, None).is_none());
    let h = Host::new(None, None, Some([0u8; 16])).unwrap();
    assert!(h.resolved());
    assert!(matches!(h.get_ip(), Some(IpAddress::V6(_))));
    let v6 = Host::from_ipv6([0x20, 1, 0xd, 0xb8, 0, 0, 0, 0, 0, 0, 0, 0, 0, 0, 0, 1]);
    assert!(matches!(v6.get_ip(), Some(IpAddress::V6(a)) if a[0] == 0x20 && a[15] == 1));
    let n = Host::from_name(Name::new("x"));
    assert!(!n.resolved());
    assert!(n.get_ip().is_none());
}

#[test]
fn the_same_host_waits_once_per_level() {
    let mut q = NsQueue::new();
    q.insert(Host::from_name(Name::new("ns1.example.com")), 2);
    q.insert(Host::from_name(Name::new("ns1.example.com")), 2);
    assert!(q.holds(&Host::from_name(Name::new("ns1.example.com")), 2));
    assert!(q.pop().is_some());
    assert!(q.pop().is_none());
}
