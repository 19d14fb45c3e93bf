use dnscache::cache::CacheStore;
use dnscache::dispatch::{handle_query, DispatchAction};
use dnscache::message::{DnsError, DnsRequest, DnsResourceRecord, DnsResponseData};

fn make_query(id: u16, name: &str) -> Vec<u8> {
    let mut req = DnsRequest::new();
    req.id = id;
    req.rd = 1;
    req.qdcount = 1;
    req.qname = name.as_bytes().to_vec();
    req.qtype = 1;
    req.qclass = 1;
    req.binarize()
}

#[test]
fn end_to_end_cached_scenario() {
    // cache holds a response (id 55804, one answer, ttl 10, rdata
    // [69,69,14,88]) for luca.civ.dev; an incoming query with id 0x1234
    // is answered from it with the id substituted.
    let body = DnsResponseData {
        id: 55804,
        flags: 129,
        questions: 1,
        answers: 1,
        authority_rrs: 0,
        additional_rrs: 0,
        query: (b"luca.civ.dev".to_vec(), 1, 1),
        answer_records: vec![DnsResourceRecord {
            name: b"luca.civ.dev".to_vec(),
            rr_type: 1,
            rr_class: 1,
            ttl: 10,
            rdlength: 4,
            rdata: vec![69, 69, 14, 88],
        }],
        authority_records: vec![],
        additional_records: vec![],
    };
    let mut stored = DnsRequest::new();
    stored.binarize_response_data(body);

    let mut cache = CacheStore::new();
    cache.insert(b"luca.civ.dev".to_vec(), stored.response_data.clone());

    let query = make_query(0x1234, "luca.civ.dev");
    let reply = match handle_query(&cache, &query).unwrap() {
        DispatchAction::Reply(out) => out,
        DispatchAction::Forward(_, _) => panic!("expected a cache hit"),
    };
    assert_eq!(reply[0], 0x12);
    assert_eq!(reply[1], 0x34);
    assert_eq!(&reply[2..], &stored.response_data[2..]);

    let mut parsed = DnsRequest::new();
    assert_eq!(parsed.parse_response(&reply), Ok(()));
    assert_eq!(parsed.id, 0x1234);
    let data = parsed.parse_response_data().unwrap();
    assert_eq!(data.answer_records.len(), 1);
    assert_eq!(data.answer_records[0].rdata, vec![69, 69, 14, 88]);
}

#[test]
fn miss_forwards_reencoded_query() {
    let cache = CacheStore::new();
    let query = make_query(7, "a.b");
    match handle_query(&cache, &query).unwrap() {
        DispatchAction::Reply(_) => panic!("expected a miss"),
        DispatchAction::Forward(fwd, name) => {
            assert_eq!(fwd, query);
            assert_eq!(name, b"a.b".to_vec());
        }
    }
}

#[test]
fn malformed_query_is_contained() {
    let cache = CacheStore::new();
    assert_eq!(
        handle_query(&cache, &[0u8; 5]).unwrap_err(),
        DnsError::HeaderTooShort
    );
    let mut bad = vec![0u8; 12];
    bad.push(9); // label length pointing past the end
    assert_eq!(
        handle_query(&cache, &bad).unwrap_err(),
        DnsError::NameTooShort
    );
}

#[test]
fn hit_then_sweep_then_miss() {
    let query = make_query(3, "x.y");
    let mut cache = CacheStore::new();
    // a stored response whose only answer carries the sentinel ttl
    let body = DnsResponseData {
        id: 1,
        flags: 128,
        questions: 1,
        answers: 1,
        authority_rrs: 0,
        additional_rrs: 0,
        query: (b"x.y".to_vec(), 1, 1),
        answer_records: vec![DnsResourceRecord {
            name: b"x.y".to_vec(),
            rr_type: 1,
            rr_class: 1,
            ttl: 10,
            rdlength: 1,
            rdata: vec![9],
        }],
        authority_records: vec![],
        additional_records: vec![],
    };
    let mut stored = DnsRequest::new();
    stored.binarize_response_data(body);
    cache.insert(b"x.y".to_vec(), stored.response_data);

    match handle_query(&cache, &query).unwrap() {
        DispatchAction::Reply(_) => {}
        DispatchAction::Forward(_, _) => panic!("expected a hit before the sweep"),
    }
    cache.sweep();
    match handle_query(&cache, &query).unwrap() {
        DispatchAction::Reply(_) => panic!("expected a miss after the sweep"),
        DispatchAction::Forward(_, name) => assert_eq!(name, b"x.y".to_vec()),
    }
}
