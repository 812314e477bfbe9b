use dnrs::{DnsError, Name};

#[test]
fn generates_subdomain_iter() {
    let name = Name::new("www.google.com");
    let fact: Vec<String> = name.iter_subdomains();
    assert_eq!(fact, ["com", "google.com", "www.google.com"]);
}

#[test]
fn calculates_level() {
    let name1 = Name::new("asdf.google.com");
    let name2 = Name::new("jkl.google.com");

    assert_eq!(2, name1.matching_level(&name2));
}

#[test]
fn level_of_unrelated_names_is_zero() {
    let a = Name::new("example.com");
    let b = Name::new("example.org");
    assert_eq!(0, a.matching_level(&b));
    assert_eq!(0, Name::new("").matching_level(&a));
    assert_eq!(2, a.matching_level(&Name::new("www.example.com")));
}

#[test]
fn trailing_dot_starts_no_label() {
    let name = Name::new("google.com.");
    assert_eq!(name.iter_subdomains(), ["com.", "google.com."]);
}

#[test]
fn name_serialises_uncompressed() {
    let name = Name::new("www.google.com");
    let wire = name.to_bytes().unwrap();
    let mut expected = vec![3u8];
    expected.extend_from_slice(b"www");
    expected.push(6);
    expected.extend_from_slice(b"google");
    expected.push(3);
    expected.extend_from_slice(b"com");
    expected.push(0);
    assert_eq!(wire, expected);
    assert_eq!(Name::new("").to_bytes().unwrap(), vec![0u8]);
}

#[test]
fn name_round_trip() {
    for text in ["example.com", "a.b.c.d.e", "", "xn--bcher-kva.example"] {
        let name = Name::new(text);
        let wire = name.to_bytes().unwrap();
        let (back, end) = Name::from_bytes(&wire, 0).unwrap();
        assert_eq!(back, name);
        assert_eq!(end, wire.len());
        assert_eq!(back.as_str(), text);
    }
}

#[test]
fn names_that_do_not_fit_are_refused() {
    let long_label = "a".repeat(64);
    assert!(matches!(Name::new(&long_label).to_bytes(), Err(DnsError::FormatError)));
    assert!(matches!(Name::new("a..b").to_bytes(), Err(DnsError::FormatError)));
    let long_name = vec!["abcdefghi"; 26].join(".");
    assert!(matches!(Name::new(&long_name).to_bytes(), Err(DnsError::FormatError)));
    assert!(Name::new(&"a".repeat(63)).to_bytes().is_ok());
}

#[test]
fn compressed_name_follows_pointer() {
    // "example.com" at offset 0, then "www" followed by a pointer to offset 0
    let mut buf = vec![7u8];
    buf.extend_from_slice(b"example");
    buf.push(3);
    buf.extend_from_slice(b"com");
    buf.push(0);
    let start = buf.len();
    buf.push(3);
    buf.extend_from_slice(b"www");
    buf.push(0xc0);
    buf.push(0);
    let (name, end) = Name::from_bytes(&buf, start).unwrap();
    assert_eq!(name.as_str(), "www.example.com");
    assert_eq!(end, buf.len());
}

#[test]
fn bad_pointers_and_label_kinds_are_refused() {
    // a pointer to itself
    assert!(matches!(Name::from_bytes(&[0xc0, 0x00], 0), Err(DnsError::FormatError)));
    // a pointer forward
    assert!(matches!(Name::from_bytes(&[0xc0, 0x02, 0x00], 0), Err(DnsError::FormatError)));
    // label kinds 01 and 10
    assert!(matches!(Name::from_bytes(&[0x40, 0x00], 0), Err(DnsError::FormatError)));
    assert!(matches!(Name::from_bytes(&[0x80, 0x00], 0), Err(DnsError::FormatError)));
    // truncated
    assert!(matches!(Name::from_bytes(&[5, b'a', b'b'], 0), Err(DnsError::FormatError)));
    // not UTF-8
    assert!(matches!(Name::from_bytes(&[1, 0xff, 0], 0), Err(DnsError::FormatError)));
}
