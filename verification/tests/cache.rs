use dnscache::cache::CacheStore;
use dnscache::message::{DnsRequest, DnsResourceRecord, DnsResponseData};

fn response_with_ttl(name: &str, ttl: u32) -> Vec<u8> {
    let body = DnsResponseData {
        id: 55804,
        flags: 129,
        questions: 1,
        answers: 1,
        authority_rrs: 0,
        additional_rrs: 0,
        query: (name.as_bytes().to_vec(), 1, 1),
        answer_records: vec![DnsResourceRecord {
            name: name.as_bytes().to_vec(),
            rr_type: 1,
            rr_class: 1,
            ttl,
            rdlength: 4,
            rdata: vec![69, 69, 14, 88],
        }],
        authority_records: vec![],
        additional_records: vec![],
    };
    let mut req = DnsRequest::new();
    req.binarize_response_data(body);
    req.response_data
}

#[test]
fn insert_and_lookup() {
    let mut cache = CacheStore::new();
    assert!(cache.lookup(&b"a.b".to_vec()).is_none());
    cache.insert(b"a.b".to_vec(), vec![1, 2, 3]);
    assert_eq!(cache.lookup(&b"a.b".to_vec()), Some(vec![1, 2, 3]));
    assert!(cache.lookup(&b"a.c".to_vec()).is_none());
}

#[test]
fn insert_overwrites() {
    let mut cache = CacheStore::new();
    cache.insert(b"a.b".to_vec(), vec![1]);
    cache.insert(b"a.b".to_vec(), vec![2]);
    assert_eq!(cache.lookup(&b"a.b".to_vec()), Some(vec![2]));
}

#[test]
fn remove_entry() {
    let mut cache = CacheStore::new();
    cache.insert(b"a.b".to_vec(), vec![1]);
    cache.insert(b"c.d".to_vec(), vec![2]);
    cache.remove(&b"a.b".to_vec());
    assert!(cache.lookup(&b"a.b".to_vec()).is_none());
    assert_eq!(cache.lookup(&b"c.d".to_vec()), Some(vec![2]));
}

#[test]
fn sweep_evicts_sentinel_ttl() {
    let mut cache = CacheStore::new();
    cache.insert(b"gone.example".to_vec(), response_with_ttl("gone.example", 10));
    cache.insert(b"kept.example".to_vec(), response_with_ttl("kept.example", 11));
    cache.sweep();
    assert!(cache.lookup(&b"gone.example".to_vec()).is_none());
    assert_eq!(
        cache.lookup(&b"kept.example".to_vec()),
        Some(response_with_ttl("kept.example", 11))
    );
}

#[test]
fn sweep_keeps_undecodable_entries() {
    let mut cache = CacheStore::new();
    cache.insert(b"junk.example".to_vec(), vec![1, 2, 3]);
    cache.sweep();
    assert_eq!(cache.lookup(&b"junk.example".to_vec()), Some(vec![1, 2, 3]));
}

#[test]
fn sweep_on_empty_store() {
    let mut cache = CacheStore::new();
    cache.sweep();
    assert!(cache.lookup(&b"a".to_vec()).is_none());
}
