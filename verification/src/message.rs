//! In-memory model of a DNS message: header fields, single question,
//! resource records, and the retained raw bytes of a response.

use vstd::prelude::*;

verus! {

/// One DNS query or response. Names are kept dot-joined, as raw bytes.
/// `response_data` retains the original wire bytes of a response so the
/// unparsed sections can be replayed verbatim.
#[derive(Debug, Clone)]
pub struct DnsRequest {
    pub id: u16,
    pub qr: u8,
    pub opcode: u8,
    pub aa: u8,
    pub tc: u8,
    pub rd: u8,
    pub ra: u8,
    pub z: u8,
    pub rcode: u8,
    pub qdcount: u16,
    pub ancount: u16,
    pub nscount: u16,
    pub arcount: u16,
    pub qname: Vec<u8>,
    pub qtype: u16,
    pub qclass: u16,
    pub response_data: Vec<u8>,
}

/// A resource record: dot-joined name, type, class, ttl, and opaque rdata.
#[derive(Debug, Clone)]
pub struct DnsResourceRecord {
    pub name: Vec<u8>,
    pub rr_type: u16,
    pub rr_class: u16,
    pub ttl: u32,
    pub rdlength: u16,
    pub rdata: Vec<u8>,
}

/// A fully decoded response: header summary, the question, and the three
/// resource-record sections.
#[derive(Debug)]
pub struct DnsResponseData {
    pub id: u16,
    pub flags: u8,
    pub questions: u16,
    pub answers: u16,
    pub authority_rrs: u16,
    pub additional_rrs: u16,
    pub query: (Vec<u8>, u16, u16),
    pub answer_records: Vec<DnsResourceRecord>,
    pub authority_records: Vec<DnsResourceRecord>,
    pub additional_records: Vec<DnsResourceRecord>,
}

/// Why a buffer failed to decode.
#[derive(Debug, Clone, Copy, PartialEq, Eq, Structural)]
pub enum DnsError {
    /// Fewer than 12 bytes: no room for a header.
    HeaderTooShort,
    /// A name ran past the end of the buffer, or its terminator is missing.
    NameTooShort,
    /// No room for qtype and qclass after the question name.
    QuestionTooShort,
    /// A resource record's fixed fields or rdata ran past the buffer end.
    RecordTooShort,
    /// A compression-pointer chain exceeded the jump budget.
    TooManyPointers,
}

/// Mathematical image of a resource record.
#[verifier::ext_equal]
pub struct SpecRecord {
    pub name: Seq<u8>,
    pub rr_type: u16,
    pub rr_class: u16,
    pub ttl: u32,
    pub rdlength: u16,
    pub rdata: Seq<u8>,
}

/// Mathematical image of a parsed header plus question.
#[verifier::ext_equal]
pub struct SpecQuery {
    pub id: u16,
    pub qr: u8,
    pub opcode: u8,
    pub aa: u8,
    pub tc: u8,
    pub rd: u8,
    pub ra: u8,
    pub z: u8,
    pub rcode: u8,
    pub qdcount: u16,
    pub ancount: u16,
    pub nscount: u16,
    pub arcount: u16,
    pub qname: Seq<u8>,
    pub qtype: u16,
    pub qclass: u16,
}

impl View for DnsResourceRecord {
    type V = SpecRecord;

    open spec fn view(&self) -> SpecRecord {
        SpecRecord {
            name: self.name@,
            rr_type: self.rr_type,
            rr_class: self.rr_class,
            ttl: self.ttl,
            rdlength: self.rdlength,
            rdata: self.rdata@,
        }
    }
}

/// The header and question fields of a message, as a `SpecQuery`.
pub open spec fn query_of(m: DnsRequest) -> SpecQuery {
    SpecQuery {
        id: m.id,
        qr: m.qr,
        opcode: m.opcode,
        aa: m.aa,
        tc: m.tc,
        rd: m.rd,
        ra: m.ra,
        z: m.z,
        rcode: m.rcode,
        qdcount: m.qdcount,
        ancount: m.ancount,
        nscount: m.nscount,
        arcount: m.arcount,
        qname: m.qname@,
        qtype: m.qtype,
        qclass: m.qclass,
    }
}

/// The sequence of record images behind a vector of records.
pub open spec fn recs_view(s: Seq<DnsResourceRecord>) -> Seq<SpecRecord> {
    s.map_values(|r: DnsResourceRecord| r@)
}

impl DnsRequest {
    /// A zeroed message with an empty name and no retained bytes.
    pub fn new() -> (r: DnsRequest)
        ensures
            r.id == 0 && r.qr == 0 && r.opcode == 0 && r.aa == 0 && r.tc == 0,
            r.rd == 0 && r.ra == 0 && r.z == 0 && r.rcode == 0,
            r.qdcount == 0 && r.ancount == 0 && r.nscount == 0 && r.arcount == 0,
            r.qname@ == Seq::<u8>::empty(),
            r.qtype == 0 && r.qclass == 0,
            r.response_data@ == Seq::<u8>::empty(),
    {
        DnsRequest {
            id: 0,
            qr: 0,
            opcode: 0,
            aa: 0,
            tc: 0,
            rd: 0,
            ra: 0,
            z: 0,
            rcode: 0,
            qdcount: 0,
            ancount: 0,
            nscount: 0,
            arcount: 0,
            qname: Vec::new(),
            qtype: 0,
            qclass: 0,
            response_data: Vec::new(),
        }
    }
}

} // verus!
