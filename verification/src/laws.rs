//! Library-wide laws, proved once over the wire model: the encode /
//! decode round trip and compression-pointer resolution.

use vstd::prelude::*;
use crate::message::SpecQuery;
use crate::wire::{
    be16, hi16, lo16, flags_hi, flags_lo, first_dot, encode_name, encode_query, valid_name,
    parse_qname, parse_query, parse_name_at, pointer_target, join_name, lemma_first_dot_props,
};

verus! {

/// A message whose fields sit inside their wire-format bit widths and
/// whose name encodes reversibly.
pub open spec fn wf_query(q: SpecQuery) -> bool {
    &&& q.qr <= 1
    &&& q.opcode <= 15
    &&& q.aa <= 1
    &&& q.tc <= 1
    &&& q.rd <= 1
    &&& q.ra <= 1
    &&& q.z <= 7
    &&& q.rcode <= 15
    &&& valid_name(q.qname)
}

/// Decoding inverts name encoding: the length-prefixed labels written
/// for a valid name, wherever they sit in a buffer, decode back to the
/// same dot-joined name, ending just past the terminator.
pub proof fn lemma_name_round_trip(name: Seq<u8>, pre: Seq<u8>, post: Seq<u8>)
    requires
        valid_name(name),
    ensures
        parse_qname(pre + encode_name(name) + seq![0u8] + post, pre.len() as int) == Some(
            (name, pre.len() + encode_name(name).len() + 1int),
        ),
    decreases name.len(),
{
    let buf = pre + encode_name(name) + seq![0u8] + post;
    let p = pre.len() as int;
    let enc = encode_name(name);
    lemma_first_dot_props(name);
    let k = first_dot(name);
    if k >= name.len() {
        assert(enc =~= seq![name.len() as u8] + name);
        assert(buf[p] == (name.len() as u8));
        assert(buf[p] != 0);
        let l = buf[p] as int;
        assert(l == name.len());
        assert(p + 1 + l < buf.len());
        assert(buf[p + 1 + l] == 0);
        assert(parse_qname(buf, p + 1 + l) == Some((Seq::<u8>::empty(), p + 1 + l + 1)));
        assert(buf.subrange(p + 1, p + 1 + l) =~= name);
        assert(join_name(name, Seq::<u8>::empty()) == name);
        assert(parse_qname(buf, p) == Some((name, p + enc.len() + 1)));
    } else {
        let rest = name.skip(k as int + 1);
        let head = name.take(k as int);
        assert(enc =~= seq![k as u8] + head + encode_name(rest));
        let pre2 = pre + seq![k as u8] + head;
        assert(pre2 + encode_name(rest) + seq![0u8] + post =~= buf);
        lemma_name_round_trip(rest, pre2, post);
        assert(parse_qname(buf, pre2.len() as int) == Some(
            (rest, pre2.len() + encode_name(rest).len() + 1int),
        ));
        assert(buf[p] == (k as u8));
        assert(buf[p] != 0);
        let l = buf[p] as int;
        assert(l == k);
        assert(p + 1 + l <= buf.len());
        assert(pre2.len() == p + 1 + k);
        assert(buf.subrange(p + 1, p + 1 + l) =~= head);
        assert(rest.len() >= 1);
        assert(join_name(head, rest) =~= name);
        assert(parse_qname(buf, p) == Some((name, p + enc.len() + 1)));
    }
}

/// Round trip: decoding the bytes produced by encoding a well-formed
/// message yields exactly the same header fields and question.
pub proof fn lemma_query_round_trip(q: SpecQuery)
    requires
        wf_query(q),
    ensures
        parse_query(encode_query(q)) == Some(q),
{
    let buf = encode_query(q);
    let hdr = seq![
        hi16(q.id),
        lo16(q.id),
        flags_hi(q.qr, q.opcode, q.aa, q.tc, q.rd),
        flags_lo(q.ra, q.z, q.rcode),
        hi16(q.qdcount),
        lo16(q.qdcount),
        hi16(q.ancount),
        lo16(q.ancount),
        hi16(q.nscount),
        lo16(q.nscount),
        hi16(q.arcount),
        lo16(q.arcount),
    ];
    let tail = seq![hi16(q.qtype), lo16(q.qtype), hi16(q.qclass), lo16(q.qclass)];
    let enc = encode_name(q.qname);
    assert(hdr.len() == 12);
    lemma_name_round_trip(q.qname, hdr, tail);
    assert(buf == hdr + enc + seq![0u8] + tail);
    assert(buf.len() == 17 + enc.len());
    assert(parse_qname(buf, 12) == Some((q.qname, 13 + enc.len() as int)));
    let i = 13 + enc.len() as int;
    assert(i + 4 == buf.len());
    assert(buf[0] == hi16(q.id) && buf[1] == lo16(q.id));
    assert(buf[2] == flags_hi(q.qr, q.opcode, q.aa, q.tc, q.rd));
    assert(buf[3] == flags_lo(q.ra, q.z, q.rcode));
    assert(buf[4] == hi16(q.qdcount) && buf[5] == lo16(q.qdcount));
    assert(buf[6] == hi16(q.ancount) && buf[7] == lo16(q.ancount));
    assert(buf[8] == hi16(q.nscount) && buf[9] == lo16(q.nscount));
    assert(buf[10] == hi16(q.arcount) && buf[11] == lo16(q.arcount));
    assert(buf[i] == hi16(q.qtype) && buf[i + 1] == lo16(q.qtype));
    assert(buf[i + 2] == hi16(q.qclass) && buf[i + 3] == lo16(q.qclass));
    let id = q.id;
    let qd = q.qdcount;
    let an = q.ancount;
    let ns = q.nscount;
    let ar = q.arcount;
    let qt = q.qtype;
    let qc = q.qclass;
    assert(be16(hi16(id), lo16(id)) == id && be16(hi16(qd), lo16(qd)) == qd && be16(
        hi16(an),
        lo16(an),
    ) == an && be16(hi16(ns), lo16(ns)) == ns && be16(hi16(ar), lo16(ar)) == ar && be16(
        hi16(qt),
        lo16(qt),
    ) == qt && be16(hi16(qc), lo16(qc)) == qc) by (bit_vector);
    let qr = q.qr;
    let opcode = q.opcode;
    let aa = q.aa;
    let tc = q.tc;
    let rd = q.rd;
    assert((flags_hi(qr, opcode, aa, tc, rd) & 0x80) >> 7 == qr && (flags_hi(
        qr,
        opcode,
        aa,
        tc,
        rd,
    ) & 0x78) >> 3 == opcode && (flags_hi(qr, opcode, aa, tc, rd) & 0x04) >> 2 == aa && (
    flags_hi(qr, opcode, aa, tc, rd) & 0x02) >> 1 == tc && flags_hi(qr, opcode, aa, tc, rd) & 0x01
        == rd) by (bit_vector)
        requires
            qr <= 1,
            opcode <= 15,
            aa <= 1,
            tc <= 1,
            rd <= 1,
    ;
    let ra = q.ra;
    let z = q.z;
    let rcode = q.rcode;
    assert((flags_lo(ra, z, rcode) & 0x80) >> 7 == ra && (flags_lo(ra, z, rcode) & 0x70) >> 4 == z
        && flags_lo(ra, z, rcode) & 0x0F == rcode) by (bit_vector)
        requires
            ra <= 1,
            z <= 7,
            rcode <= 15,
    ;
    assert(parse_query(buf).unwrap() =~= q);
}

/// A name region free of compression pointers: every label-length byte
/// reached from `i` has top bits other than `11`.
pub open spec fn plain_from(buf: Seq<u8>, i: int) -> bool
    decreases buf.len() - i,
{
    if i < 0 || i >= buf.len() {
        true
    } else if buf[i] == 0 {
        true
    } else {
        let l = buf[i] as int;
        buf[i] & 0xC0 != 0xC0 && (i + 1 + l > buf.len() || plain_from(buf, i + 1 + l))
    }
}

/// On a pointer-free region the compression-aware decoder agrees with
/// the plain question-name decoder, whatever its jump budget.
pub proof fn lemma_plain_name_agrees(buf: Seq<u8>, i: int, fuel: nat)
    requires
        parse_qname(buf, i) is Some,
        plain_from(buf, i),
    ensures
        parse_name_at(buf, i, fuel) == parse_qname(buf, i),
    decreases buf.len() - i,
{
    if buf[i] == 0 {
    } else {
        let l = buf[i] as int;
        lemma_plain_name_agrees(buf, i + 1 + l, fuel);
    }
}

/// Compression resolution: a name that is a pointer decodes to exactly
/// the name at the pointer's target, and scanning resumes two bytes
/// after the pointer.
pub proof fn lemma_compression_resolves(buf: Seq<u8>, i: int, fuel: nat)
    requires
        0 <= i,
        i + 1 < buf.len(),
        buf[i] & 0xC0 == 0xC0,
        fuel >= 1,
        parse_name_at(buf, pointer_target(buf, i), (fuel - 1) as nat) is Some,
    ensures
        parse_name_at(buf, i, fuel) == Some(
            (parse_name_at(buf, pointer_target(buf, i), (fuel - 1) as nat).unwrap().0, i + 2),
        ),
{
    let b = buf[i];
    assert(b != 0) by (bit_vector)
        requires
            b & 0xC0 == 0xC0,
    ;
}

/// A record name given as a pointer back to the question's offset
/// parses to exactly the parsed question name.
pub proof fn lemma_pointer_to_question(buf: Seq<u8>, i: int, fuel: nat)
    requires
        parse_qname(buf, 12) is Some,
        plain_from(buf, 12),
        0 <= i,
        i + 1 < buf.len(),
        buf[i] & 0xC0 == 0xC0,
        pointer_target(buf, i) == 12,
        fuel >= 1,
    ensures
        parse_name_at(buf, i, fuel) == Some((parse_qname(buf, 12).unwrap().0, i + 2)),
{
    lemma_plain_name_agrees(buf, 12, (fuel - 1) as nat);
    lemma_compression_resolves(buf, i, fuel);
}

} // verus!
