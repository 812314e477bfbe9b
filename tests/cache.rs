use dnrs::{Cache, Name, RecordData, RecordType, ResourceRecord};

fn a(name: &str, ttl: u32, ip: [u8; 4]) -> ResourceRecord {
    ResourceRecord { name: Name::new(name), type_: 1, class: 1, ttl, data: RecordData::A(ip) }
}

#[test]
fn later_ttl_wins_and_one_copy_stays() {
    let mut cache = Cache::new();
    let owner = Name::new("example.com");
    cache.insert_record(owner.clone(), a("example.com", 300, [1, 2, 3, 4]));
    cache.insert_record(owner.clone(), a("example.com", 60, [1, 2, 3, 4]));
    let set = cache.get_record_set(&owner).unwrap();
    assert_eq!(set.len(), 1);
    assert_eq!(set[0].ttl, 60);
}

#[test]
fn different_data_makes_two_records() {
    let mut cache = Cache::new();
    let owner = Name::new("example.com");
    cache.insert_records(
        owner.clone(),
        vec![a("example.com", 300, [1, 2, 3, 4]), a("example.com", 300, [5, 6, 7, 8])],
    );
    assert_eq!(cache.get_record_set(&owner).unwrap().len(), 2);
}

#[test]
fn lookup_is_none_until_inserted() {
    let mut cache = Cache::new();
    let owner = Name::new("example.com");
    assert!(cache.get_record_set(&owner).is_none());
    cache.insert_records(owner.clone(), vec![]);
    assert!(cache.get_record_set(&owner).is_none());
    cache.insert_record(owner.clone(), a("example.com", 1, [1, 1, 1, 1]));
    assert!(cache.get_record_set(&owner).is_some());
    assert!(cache.get_record_set(&Name::new("example.org")).is_none());
}

#[test]
fn records_by_type() {
    let mut cache = Cache::new();
    let owner = Name::new("example.com");
    cache.insert_record(owner.clone(), a("example.com", 1, [1, 1, 1, 1]));
    cache.insert_record(
        owner.clone(),
        ResourceRecord {
            name: owner.clone(),
            type_: 2,
            class: 1,
            ttl: 1,
            data: RecordData::Ns(Name::new("ns1.example.com")),
        },
    );
    let ns = cache.get_records_by_type(&owner, RecordType::Ns);
    assert_eq!(ns.len(), 1);
    assert_eq!(ns[0].type_, 2);
    assert_eq!(cache.get_records_by_type(&owner, RecordType::A).len(), 1);
    assert!(cache.get_records_by_type(&Name::new("nowhere"), RecordType::A).is_empty());
}
