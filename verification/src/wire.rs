//! Mathematical model of the RFC1035 wire format: header bit-fields,
//! length-prefixed label names, compression pointers, and resource records.
//! Every codec contract is stated over these functions.

use vstd::prelude::*;
use crate::message::{DnsError, DnsRequest, DnsResponseData, SpecQuery, SpecRecord, recs_view};

verus! {

/// Budget of compression-pointer jumps followed while decoding one name;
/// a longer chain is rejected so that decoding always terminates.
pub const MAX_POINTER_JUMPS: u32 = 64;

/// The 16-bit big-endian word formed by two bytes.
pub open spec fn be16(b0: u8, b1: u8) -> u16 {
    ((b0 as u16) << 8) | (b1 as u16)
}

/// The 32-bit big-endian word formed by four bytes.
pub open spec fn be32(b0: u8, b1: u8, b2: u8, b3: u8) -> u32 {
    ((b0 as u32) << 24) | ((b1 as u32) << 16) | ((b2 as u32) << 8) | (b3 as u32)
}

/// High byte of a 16-bit word.
pub open spec fn hi16(x: u16) -> u8 {
    (x >> 8) as u8
}

/// Low byte of a 16-bit word.
pub open spec fn lo16(x: u16) -> u8 {
    x as u8
}

/// Byte 2 of the header: qr, opcode, aa, tc, rd packed per RFC1035.
pub open spec fn flags_hi(qr: u8, opcode: u8, aa: u8, tc: u8, rd: u8) -> u8 {
    (qr << 7) | (opcode << 3) | (aa << 2) | (tc << 1) | rd
}

/// Byte 3 of the header: ra, z, rcode packed per RFC1035.
pub open spec fn flags_lo(ra: u8, z: u8, rcode: u8) -> u8 {
    (ra << 7) | (z << 4) | rcode
}

/// Index of the first dot in a dot-joined name, or its length if none.
pub open spec fn first_dot(name: Seq<u8>) -> nat
    decreases name.len(),
{
    if name.len() == 0 {
        0
    } else if name[0] == 46 {
        0
    } else {
        1 + first_dot(name.skip(1))
    }
}

/// Length-prefixed label encoding of a dot-joined name, without the
/// terminating zero byte. Splits on every dot, as the codec does.
pub open spec fn encode_name(name: Seq<u8>) -> Seq<u8>
    decreases name.len(),
{
    let k = first_dot(name);
    if k >= name.len() {
        seq![name.len() as u8] + name
    } else {
        seq![k as u8] + name.take(k as int) + encode_name(name.skip(k as int + 1))
    }
}

/// Every dot-separated label fits in a length byte. Needed so that
/// encoding does not truncate a label length.
pub open spec fn name_ok(name: Seq<u8>) -> bool
    decreases name.len(),
{
    let k = first_dot(name);
    if k >= name.len() {
        name.len() <= 255
    } else {
        k <= 255 && name_ok(name.skip(k as int + 1))
    }
}

/// A name whose encoding decodes back to itself: every dot-separated
/// label has 1 to 255 bytes (an empty label would act as a terminator).
pub open spec fn valid_name(name: Seq<u8>) -> bool
    decreases name.len(),
{
    let k = first_dot(name);
    if k >= name.len() {
        1 <= name.len() <= 255
    } else {
        1 <= k <= 255 && valid_name(name.skip(k as int + 1))
    }
}

/// Dot-join a leading label onto the rest of a name.
pub open spec fn join_name(label: Seq<u8>, rest: Seq<u8>) -> Seq<u8> {
    if rest.len() == 0 {
        label
    } else {
        label + seq![46u8] + rest
    }
}

/// Decode a question name at `i`: length-prefixed labels up to a zero
/// byte, no pointer interpretation. Yields the dot-joined name and the
/// index just past the terminator; `None` when the buffer runs out.
pub open spec fn parse_qname(buf: Seq<u8>, i: int) -> Option<(Seq<u8>, int)>
    decreases buf.len() - i,
{
    if i < 0 || i >= buf.len() {
        None
    } else if buf[i] == 0 {
        Some((Seq::<u8>::empty(), i + 1))
    } else {
        let l = buf[i] as int;
        if i + 1 + l > buf.len() {
            None
        } else {
            match parse_qname(buf, i + 1 + l) {
                Some((rest, next)) => Some((join_name(buf.subrange(i + 1, i + 1 + l), rest), next)),
                None => None,
            }
        }
    }
}

/// Decode of the header and question of a buffer, per the fixed RFC1035
/// bit layout; `None` exactly on truncated input.
pub open spec fn parse_query(buf: Seq<u8>) -> Option<SpecQuery> {
    if buf.len() < 12 {
        None
    } else {
        match parse_qname(buf, 12) {
            None => None,
            Some((name, i)) => {
                if i + 4 > buf.len() {
                    None
                } else {
                    Some(SpecQuery {
                        id: be16(buf[0], buf[1]),
                        qr: (buf[2] & 0x80) >> 7,
                        opcode: (buf[2] & 0x78) >> 3,
                        aa: (buf[2] & 0x04) >> 2,
                        tc: (buf[2] & 0x02) >> 1,
                        rd: buf[2] & 0x01,
                        ra: (buf[3] & 0x80) >> 7,
                        z: (buf[3] & 0x70) >> 4,
                        rcode: buf[3] & 0x0F,
                        qdcount: be16(buf[4], buf[5]),
                        ancount: be16(buf[6], buf[7]),
                        nscount: be16(buf[8], buf[9]),
                        arcount: be16(buf[10], buf[11]),
                        qname: name,
                        qtype: be16(buf[i], buf[i + 1]),
                        qclass: be16(buf[i + 2], buf[i + 3]),
                    })
                }
            }
        }
    }
}

/// Which error a failed header-plus-question decode reports.
pub open spec fn parse_query_err(buf: Seq<u8>) -> DnsError {
    if buf.len() < 12 {
        DnsError::HeaderTooShort
    } else if parse_qname(buf, 12) is None {
        DnsError::NameTooShort
    } else {
        DnsError::QuestionTooShort
    }
}

/// Target offset of the compression pointer whose first byte sits at `i`.
pub open spec fn pointer_target(buf: Seq<u8>, i: int) -> int {
    ((buf[i] & 0x3F) as int) * 256 + (buf[i + 1] as int)
}

/// Decode a possibly compressed name at `i`. A byte with top bits `11`
/// redirects decoding to a 14-bit offset; the position just after the
/// first pointer is where scanning resumes, so nested jumps do not move
/// the returned index. `fuel` bounds the pointer chain.
pub open spec fn parse_name_at(buf: Seq<u8>, i: int, fuel: nat) -> Option<(Seq<u8>, int)>
    decreases fuel, buf.len() - i,
{
    if i < 0 || i >= buf.len() {
        None
    } else if buf[i] == 0 {
        Some((Seq::<u8>::empty(), i + 1))
    } else if buf[i] & 0xC0 == 0xC0 {
        if i + 1 >= buf.len() {
            None
        } else if fuel == 0 {
            None
        } else {
            match parse_name_at(buf, pointer_target(buf, i), (fuel - 1) as nat) {
                Some((name, _)) => Some((name, i + 2)),
                None => None,
            }
        }
    } else {
        let l = buf[i] as int;
        if i + 1 + l > buf.len() {
            None
        } else {
            match parse_name_at(buf, i + 1 + l, fuel) {
                Some((rest, next)) => Some((join_name(buf.subrange(i + 1, i + 1 + l), rest), next)),
                None => None,
            }
        }
    }
}

/// Which error a failed compressed-name decode reports.
pub open spec fn name_err(buf: Seq<u8>, i: int, fuel: nat) -> DnsError
    decreases fuel, buf.len() - i,
{
    if i < 0 || i >= buf.len() {
        DnsError::NameTooShort
    } else if buf[i] == 0 {
        DnsError::NameTooShort
    } else if buf[i] & 0xC0 == 0xC0 {
        if i + 1 >= buf.len() {
            DnsError::NameTooShort
        } else if fuel == 0 {
            DnsError::TooManyPointers
        } else {
            name_err(buf, pointer_target(buf, i), (fuel - 1) as nat)
        }
    } else {
        let l = buf[i] as int;
        if i + 1 + l > buf.len() {
            DnsError::NameTooShort
        } else {
            name_err(buf, i + 1 + l, fuel)
        }
    }
}

/// Decode one resource record at `i`: compressed name, type, class, ttl,
/// rdlength, then exactly rdlength bytes of rdata.
pub open spec fn parse_rr(buf: Seq<u8>, i: int, fuel: nat) -> Option<(SpecRecord, int)> {
    match parse_name_at(buf, i, fuel) {
        None => None,
        Some((name, j)) => {
            if j + 10 > buf.len() {
                None
            } else {
                let rdlength = be16(buf[j + 8], buf[j + 9]);
                if j + 10 + rdlength > buf.len() {
                    None
                } else {
                    Some((
                        SpecRecord {
                            name: name,
                            rr_type: be16(buf[j], buf[j + 1]),
                            rr_class: be16(buf[j + 2], buf[j + 3]),
                            ttl: be32(buf[j + 4], buf[j + 5], buf[j + 6], buf[j + 7]),
                            rdlength: rdlength,
                            rdata: buf.subrange(j + 10, j + 10 + rdlength),
                        },
                        j + 10 + rdlength,
                    ))
                }
            }
        }
    }
}

/// Which error a failed record decode reports.
pub open spec fn rr_err(buf: Seq<u8>, i: int, fuel: nat) -> DnsError {
    if parse_name_at(buf, i, fuel) is None {
        name_err(buf, i, fuel)
    } else {
        DnsError::RecordTooShort
    }
}

/// Decode `count` consecutive resource records starting at `i`.
pub open spec fn parse_rrs(buf: Seq<u8>, i: int, count: nat, fuel: nat) -> Option<
    (Seq<SpecRecord>, int),
>
    decreases count,
{
    if count == 0 {
        Some((Seq::<SpecRecord>::empty(), i))
    } else {
        match parse_rr(buf, i, fuel) {
            None => None,
            Some((r, j)) => match parse_rrs(buf, j, (count - 1) as nat, fuel) {
                None => None,
                Some((rest, k)) => Some((seq![r] + rest, k)),
            },
        }
    }
}

/// Which error a failed run of `count` record decodes reports.
pub open spec fn rrs_err(buf: Seq<u8>, i: int, count: nat, fuel: nat) -> DnsError
    decreases count,
{
    if count == 0 {
        DnsError::RecordTooShort
    } else {
        match parse_rr(buf, i, fuel) {
            None => rr_err(buf, i, fuel),
            Some((r, j)) => rrs_err(buf, j, (count - 1) as nat, fuel),
        }
    }
}

/// Wire offset of the first record section: header, then the question,
/// whose length is taken as name length + 2 + 4, not re-parsed.
pub open spec fn sections_start(m: DnsRequest) -> int {
    12 + m.qname@.len() as int + 6
}

/// Decode the answer, authority and additional sections of the retained
/// response bytes, using the counts already parsed into the message.
pub open spec fn parse_body(m: DnsRequest) -> Option<
    (Seq<SpecRecord>, Seq<SpecRecord>, Seq<SpecRecord>),
> {
    let buf = m.response_data@;
    let fuel = MAX_POINTER_JUMPS as nat;
    match parse_rrs(buf, sections_start(m), m.ancount as nat, fuel) {
        None => None,
        Some((an, j)) => match parse_rrs(buf, j, m.nscount as nat, fuel) {
            None => None,
            Some((ns, k)) => match parse_rrs(buf, k, m.arcount as nat, fuel) {
                None => None,
                Some((ar, _)) => Some((an, ns, ar)),
            },
        },
    }
}

/// Which error a failed three-section decode reports.
pub open spec fn parse_body_err(m: DnsRequest) -> DnsError {
    let buf = m.response_data@;
    let fuel = MAX_POINTER_JUMPS as nat;
    match parse_rrs(buf, sections_start(m), m.ancount as nat, fuel) {
        None => rrs_err(buf, sections_start(m), m.ancount as nat, fuel),
        Some((an, j)) => match parse_rrs(buf, j, m.nscount as nat, fuel) {
            None => rrs_err(buf, j, m.nscount as nat, fuel),
            Some((ns, k)) => match parse_rrs(buf, k, m.arcount as nat, fuel) {
                None => rrs_err(buf, k, m.arcount as nat, fuel),
                Some(_) => DnsError::RecordTooShort,
            },
        },
    }
}

/// A message carries the fields of `q` as its header and question.
pub open spec fn query_matches(m: DnsRequest, q: SpecQuery) -> bool {
    &&& m.id == q.id
    &&& m.qr == q.qr
    &&& m.opcode == q.opcode
    &&& m.aa == q.aa
    &&& m.tc == q.tc
    &&& m.rd == q.rd
    &&& m.ra == q.ra
    &&& m.z == q.z
    &&& m.rcode == q.rcode
    &&& m.qdcount == q.qdcount
    &&& m.ancount == q.ancount
    &&& m.nscount == q.nscount
    &&& m.arcount == q.arcount
    &&& m.qname@ == q.qname
    &&& m.qtype == q.qtype
    &&& m.qclass == q.qclass
}

/// Full header-plus-question encoding of `q`, in fixed RFC1035 byte
/// order: 12 header bytes, labels, terminator, qtype, qclass.
pub open spec fn encode_query(q: SpecQuery) -> Seq<u8> {
    seq![
        hi16(q.id),
        lo16(q.id),
        flags_hi(q.qr, q.opcode, q.aa, q.tc, q.rd),
        flags_lo(q.ra, q.z, q.rcode),
        hi16(q.qdcount),
        lo16(q.qdcount),
        hi16(q.ancount),
        lo16(q.ancount),
        hi16(q.nscount),
        lo16(q.nscount),
        hi16(q.arcount),
        lo16(q.arcount),
    ] + encode_name(q.qname) + seq![0u8] + seq![
        hi16(q.qtype),
        lo16(q.qtype),
        hi16(q.qclass),
        lo16(q.qclass),
    ]
}

/// Wire encoding of one record: uncompressed name, fixed fields, rdata.
/// The rdlength field is written as stored, the rdata as given.
pub open spec fn encode_record(r: SpecRecord) -> Seq<u8> {
    encode_name(r.name) + seq![
        0u8,
        hi16(r.rr_type),
        lo16(r.rr_type),
        hi16(r.rr_class),
        lo16(r.rr_class),
        (r.ttl >> 24) as u8,
        (r.ttl >> 16) as u8,
        (r.ttl >> 8) as u8,
        r.ttl as u8,
        hi16(r.rdlength),
        lo16(r.rdlength),
    ] + r.rdata
}

/// Concatenated encodings of a record sequence, in order.
pub open spec fn encode_records(s: Seq<SpecRecord>) -> Seq<u8>
    decreases s.len(),
{
    if s.len() == 0 {
        Seq::<u8>::empty()
    } else {
        encode_record(s[0]) + encode_records(s.skip(1))
    }
}

/// Serialization of a reconstructed response: header (second flags byte
/// written as zero), question, then the three sections in order.
pub open spec fn encode_body(d: DnsResponseData) -> Seq<u8> {
    seq![
        hi16(d.id),
        lo16(d.id),
        d.flags,
        0u8,
        hi16(d.questions),
        lo16(d.questions),
        hi16(d.answers),
        lo16(d.answers),
        hi16(d.authority_rrs),
        lo16(d.authority_rrs),
        hi16(d.additional_rrs),
        lo16(d.additional_rrs),
    ] + encode_name(d.query.0@) + seq![
        0u8,
        hi16(d.query.1),
        lo16(d.query.1),
        hi16(d.query.2),
        lo16(d.query.2),
    ] + encode_records(recs_view(d.answer_records@)) + encode_records(
        recs_view(d.authority_records@),
    ) + encode_records(recs_view(d.additional_records@))
}

/// The stored bytes with the transaction id overwritten in place.
pub open spec fn id_patched(bytes: Seq<u8>, id: u16) -> Seq<u8> {
    bytes.update(0, hi16(id)).update(1, lo16(id))
}

/// The answer records of a cached raw response, when the whole response
/// (header, question, and all three sections) decodes.
pub open spec fn cached_answers(bytes: Seq<u8>) -> Option<Seq<SpecRecord>> {
    match parse_query(bytes) {
        None => None,
        Some(q) => {
            let fuel = MAX_POINTER_JUMPS as nat;
            let start = 12 + q.qname.len() + 6;
            match parse_rrs(bytes, start as int, q.ancount as nat, fuel) {
                None => None,
                Some((an, j)) => match parse_rrs(bytes, j, q.nscount as nat, fuel) {
                    None => None,
                    Some((ns, k)) => match parse_rrs(bytes, k, q.arcount as nat, fuel) {
                        None => None,
                        Some(_) => Some(an),
                    },
                },
            }
        }
    }
}

/// The sweeper's liveness test: an entry is evicted exactly when it
/// decodes fully and some answer record's ttl field is the sentinel 10.
pub open spec fn entry_expired(bytes: Seq<u8>) -> bool {
    match cached_answers(bytes) {
        None => false,
        Some(an) => exists|i: int| 0 <= i < an.len() && an[i].ttl == 10,
    }
}

/// `first_dot` points at a dot and nothing before it is one.
pub proof fn lemma_first_dot_props(s: Seq<u8>)
    ensures
        first_dot(s) <= s.len(),
        first_dot(s) < s.len() ==> s[first_dot(s) as int] == 46,
        forall|i: int| 0 <= i < first_dot(s) ==> s[i] != 46,
    decreases s.len(),
{
    if s.len() == 0 {
    } else if s[0] == 46 {
    } else {
        lemma_first_dot_props(s.skip(1));
        assert forall|i: int| 0 <= i < first_dot(s) implies s[i] != 46 by {
            if i > 0 {
                assert(s.skip(1)[i - 1] == s[i]);
            }
        }
    }
}

/// `first_dot` is the unique dot-free prefix length.
pub proof fn lemma_first_dot_at(s: Seq<u8>, k: int)
    requires
        0 <= k <= s.len(),
        forall|i: int| 0 <= i < k ==> s[i] != 46,
        k < s.len() ==> s[k] == 46,
    ensures
        first_dot(s) == k,
    decreases k,
{
    if k == 0 {
    } else {
        assert(s[0] != 46);
        assert forall|i: int| 0 <= i < k - 1 implies s.skip(1)[i] != 46 by {
            assert(s.skip(1)[i] == s[i + 1]);
        }
        assert(k - 1 < s.skip(1).len() ==> s.skip(1)[k - 1] == s[k]);
        lemma_first_dot_at(s.skip(1), k - 1);
    }
}

/// Dot-joining a label of at most 255 bytes onto an encodable name
/// keeps it encodable, whatever bytes the label holds.
pub proof fn lemma_join_name_ok(label: Seq<u8>, rest: Seq<u8>)
    requires
        label.len() <= 255,
        name_ok(rest),
    ensures
        name_ok(join_name(label, rest)),
    decreases label.len(),
{
    lemma_first_dot_props(label);
    let k = first_dot(label);
    if rest.len() == 0 {
        if k >= label.len() {
        } else {
            assert(label.skip(k as int + 1).len() < label.len());
            lemma_join_name_ok(label.skip(k as int + 1), rest);
            assert(join_name(label.skip(k as int + 1), rest) == label.skip(k as int + 1));
            lemma_first_dot_at(label, k as int);
            assert(name_ok(label));
        }
    } else {
        let n = join_name(label, rest);
        assert(n == label + seq![46u8] + rest);
        if k >= label.len() {
            assert forall|i: int| 0 <= i < label.len() implies n[i] != 46 by {
                assert(n[i] == label[i]);
            }
            assert(n[label.len() as int] == 46);
            lemma_first_dot_at(n, label.len() as int);
            assert(n.skip(label.len() as int + 1) =~= rest);
        } else {
            assert forall|i: int| 0 <= i < k implies n[i] != 46 by {
                assert(n[i] == label[i]);
            }
            assert(n[k as int] == label[k as int]);
            lemma_first_dot_at(n, k as int);
            assert(n.skip(k as int + 1) =~= join_name(label.skip(k as int + 1), rest));
            lemma_join_name_ok(label.skip(k as int + 1), rest);
        }
    }
}

/// A decoded question name is always encodable: its dot-free runs fit
/// in a length byte, since each came from one length-prefixed label.
/// The end position stays inside the buffer, past the start.
pub proof fn lemma_parse_qname_ok(buf: Seq<u8>, i: int)
    requires
        parse_qname(buf, i) is Some,
    ensures
        name_ok(parse_qname(buf, i).unwrap().0),
        parse_qname(buf, i).unwrap().0.len() <= parse_qname(buf, i).unwrap().1 - i - 1,
        i < parse_qname(buf, i).unwrap().1 <= buf.len(),
    decreases buf.len() - i,
{
    if buf[i] == 0 {
    } else {
        let l = buf[i] as int;
        lemma_parse_qname_ok(buf, i + 1 + l);
        let label = buf.subrange(i + 1, i + 1 + l);
        let rest = parse_qname(buf, i + 1 + l).unwrap().0;
        lemma_join_name_ok(label, rest);
    }
}

/// Appending one more successfully decoded record extends a record run.
pub proof fn lemma_rrs_snoc(buf: Seq<u8>, i: int, n: nat, fuel: nat, s: Seq<SpecRecord>, j: int, r: SpecRecord, k: int)
    requires
        parse_rrs(buf, i, n, fuel) == Some((s, j)),
        parse_rr(buf, j, fuel) == Some((r, k)),
    ensures
        parse_rrs(buf, i, n + 1, fuel) == Some((s.push(r), k)),
    decreases n,
{
    if n == 0 {
        assert(s == Seq::<SpecRecord>::empty() && j == i);
        assert(parse_rrs(buf, k, 0, fuel) == Some((Seq::<SpecRecord>::empty(), k)));
        assert(seq![r] + Seq::<SpecRecord>::empty() =~= s.push(r));
    } else {
        let (r0, j0) = parse_rr(buf, i, fuel).unwrap();
        let (s1, _) = parse_rrs(buf, j0, (n - 1) as nat, fuel).unwrap();
        assert(s == seq![r0] + s1);
        lemma_rrs_snoc(buf, j0, (n - 1) as nat, fuel, s1, j, r, k);
        assert(seq![r0] + s1.push(r) =~= s.push(r));
    }
}

/// A record run of `count` fails when record `n` of it fails.
pub proof fn lemma_rrs_fail(buf: Seq<u8>, i: int, n: nat, count: nat, fuel: nat, s: Seq<SpecRecord>, j: int)
    requires
        parse_rrs(buf, i, n, fuel) == Some((s, j)),
        n < count,
        parse_rr(buf, j, fuel) is None,
    ensures
        parse_rrs(buf, i, count, fuel) is None,
        rrs_err(buf, i, count, fuel) == rr_err(buf, j, fuel),
    decreases n,
{
    if n == 0 {
        assert(j == i);
    } else {
        let (r0, j0) = parse_rr(buf, i, fuel).unwrap();
        let (s1, _) = parse_rrs(buf, j0, (n - 1) as nat, fuel).unwrap();
        lemma_rrs_fail(buf, j0, (n - 1) as nat, (count - 1) as nat, fuel, s1, j);
    }
}

/// Encoding distributes over appending one record.
pub proof fn lemma_encode_records_push(s: Seq<SpecRecord>, r: SpecRecord)
    ensures
        encode_records(s.push(r)) == encode_records(s) + encode_record(r),
    decreases s.len(),
{
    if s.len() == 0 {
        let t = s.push(r);
        assert(t[0] == r);
        assert(t.skip(1) =~= Seq::<SpecRecord>::empty());
        assert(encode_records(t) == encode_record(r) + encode_records(Seq::<SpecRecord>::empty()));
        assert(encode_records(Seq::<SpecRecord>::empty()) == Seq::<u8>::empty());
        assert(encode_records(s) == Seq::<u8>::empty());
        assert(encode_records(t) =~= encode_records(s) + encode_record(r));
    } else {
        let t = s.push(r);
        assert(t[0] == s[0]);
        assert(t.skip(1) =~= s.skip(1).push(r));
        assert(encode_records(t) == encode_record(s[0]) + encode_records(s.skip(1).push(r)));
        lemma_encode_records_push(s.skip(1), r);
        assert(encode_records(s) == encode_record(s[0]) + encode_records(s.skip(1)));
        assert(encode_records(t) =~= encode_records(s) + encode_record(r));
    }
}

} // verus!
