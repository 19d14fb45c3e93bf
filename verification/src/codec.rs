//! Executable wire codec: decoding of headers, names (with compression
//! pointers), questions and resource records, and the two encode paths.
//! Every function's contract ties it to the model in `wire`.

use vstd::prelude::*;
use crate::message::{DnsError, DnsRequest, DnsResourceRecord, DnsResponseData, recs_view, query_of};
use crate::wire::{
    MAX_POINTER_JUMPS, parse_qname, parse_query, parse_query_err, parse_name_at, name_err,
    parse_rr, rr_err, parse_rrs, rrs_err, parse_body, parse_body_err, sections_start,
    encode_name, encode_query, encode_record, encode_records, encode_body, id_patched,
    first_dot, name_ok, join_name, query_matches, flags_hi, pointer_target,
    lemma_first_dot_at, lemma_first_dot_props, lemma_rrs_snoc, lemma_rrs_fail,
    lemma_encode_records_push,
};

verus! {

/// Copy a byte slice into a fresh vector.
pub(crate) fn bytes_of(buf: &[u8]) -> (r: Vec<u8>)
    ensures
        r@ == buf@,
{
    let mut v: Vec<u8> = Vec::new();
    let mut i: usize = 0;
    while i < buf.len()
        invariant
            i <= buf@.len(),
            v@ == buf@.take(i as int),
        decreases buf@.len() - i,
    {
        proof {
            assert(buf@.take(i + 1) =~= buf@.take(i as int).push(buf@[i as int]));
        }
        v.push(buf[i]);
        i += 1;
    }
    proof {
        assert(buf@.take(buf@.len() as int) =~= buf@);
    }
    v
}

/// Index of the first dot at or after `from`, or the name's length.
fn find_dot(name: &Vec<u8>, from: usize) -> (k: usize)
    requires
        from <= name@.len(),
    ensures
        from <= k <= name@.len(),
        k - from == first_dot(name@.skip(from as int)),
        k < name@.len() ==> name@[k as int] == 46,
{
    let mut j = from;
    while j < name.len() && name[j] != 46
        invariant
            from <= j <= name@.len(),
            forall|m: int| from <= m < j ==> name@[m] != 46,
        decreases name@.len() - j,
    {
        j += 1;
    }
    proof {
        let s = name@.skip(from as int);
        assert forall|i2: int| 0 <= i2 < j - from implies s[i2] != 46 by {
            assert(s[i2] == name@[from + i2]);
        }
        if j < name@.len() {
            assert(s[j - from] == name@[j as int]);
        }
        lemma_first_dot_at(s, j - from);
    }
    j
}

/// Append the length-prefixed label encoding of `name[from..]`.
fn write_name_from(bin: &mut Vec<u8>, name: &Vec<u8>, from: usize)
    requires
        from <= name@.len(),
        name_ok(name@.skip(from as int)),
    ensures
        final(bin)@ == old(bin)@ + encode_name(name@.skip(from as int)),
    decreases name@.len() - from,
{
    let ghost bin0 = bin@;
    let ghost s = name@.skip(from as int);
    let k = find_dot(name, from);
    proof {
        lemma_first_dot_props(s);
    }
    bin.push((k - from) as u8);
    let mut j = from;
    while j < k
        invariant
            from <= j <= k,
            k <= name@.len(),
            bin@ == bin0 + seq![(k - from) as u8] + name@.subrange(from as int, j as int),
        decreases k - j,
    {
        proof {
            assert(name@.subrange(from as int, j + 1) =~= name@.subrange(
                from as int,
                j as int,
            ).push(name@[j as int]));
        }
        bin.push(name[j]);
        j += 1;
    }
    if k == name.len() {
        proof {
            assert(first_dot(s) >= s.len());
            assert(name@.subrange(from as int, k as int) =~= s);
            assert(encode_name(s) =~= seq![s.len() as u8] + s);
            assert((k - from) as u8 == s.len() as u8);
            assert(bin@ =~= bin0 + encode_name(s));
        }
    } else {
        proof {
            assert(first_dot(s) < s.len());
            assert(name_ok(s.skip(first_dot(s) as int + 1)));
            assert(name@.skip(k + 1) =~= s.skip(first_dot(s) as int + 1));
        }
        write_name_from(bin, name, k + 1);
        proof {
            assert(s.take(first_dot(s) as int) =~= name@.subrange(from as int, k as int));
            assert(bin@ =~= bin0 + encode_name(s));
        }
    }
}

/// Append the length-prefixed label encoding of a whole name.
fn write_name(bin: &mut Vec<u8>, name: &Vec<u8>)
    requires
        name_ok(name@),
    ensures
        final(bin)@ == old(bin)@ + encode_name(name@),
{
    proof {
        assert(name@.skip(0) =~= name@);
    }
    write_name_from(bin, name, 0);
}

/// Decode a question name: labels only, no pointer interpretation.
fn parse_plain_name(buf: &[u8], i: usize) -> (r: Result<(Vec<u8>, usize), DnsError>)
    ensures
        match r {
            Ok(p) => parse_qname(buf@, i as int) == Some((p.0@, p.1 as int)) && p.1 <= buf@.len(),
            Err(e) => parse_qname(buf@, i as int) is None && e == DnsError::NameTooShort,
        },
    decreases buf@.len() - i,
{
    if i >= buf.len() {
        return Err(DnsError::NameTooShort);
    }
    let b = buf[i];
    if b == 0 {
        return Ok((Vec::new(), i + 1));
    }
    let l = b as usize;
    if l > buf.len() - (i + 1) {
        return Err(DnsError::NameTooShort);
    }
    match parse_plain_name(buf, i + 1 + l) {
        Err(e) => Err(e),
        Ok((rest, next)) => {
            let ghost rest_v = rest@;
            let mut name: Vec<u8> = Vec::new();
            let end = i + 1 + l;
            let mut j = i + 1;
            while j < end
                invariant
                    i + 1 <= j <= end,
                    end == i + 1 + l,
                    end <= buf@.len(),
                    name@ == buf@.subrange(i + 1, j as int),
                decreases end - j,
            {
                proof {
                    assert(buf@.subrange(i + 1, j + 1) =~= buf@.subrange(i + 1, j as int).push(
                        buf@[j as int],
                    ));
                }
                name.push(buf[j]);
                j += 1;
            }
            if rest.len() > 0 {
                name.push(46);
                let mut rest2 = rest;
                name.append(&mut rest2);
            }
            proof {
                assert(name@ =~= join_name(buf@.subrange(i + 1, i + 1 + l as int), rest_v));
            }
            Ok((name, next))
        }
    }
}

/// Decode a possibly compressed name; `fuel` bounds the pointer chain.
fn parse_name_rec(buf: &[u8], i: usize, fuel: u32) -> (r: Result<(Vec<u8>, usize), DnsError>)
    ensures
        match r {
            Ok(p) => parse_name_at(buf@, i as int, fuel as nat) == Some((p.0@, p.1 as int))
                && p.1 <= buf@.len(),
            Err(e) => parse_name_at(buf@, i as int, fuel as nat) is None && e == name_err(
                buf@,
                i as int,
                fuel as nat,
            ),
        },
    decreases fuel, buf@.len() - i,
{
    if i >= buf.len() {
        return Err(DnsError::NameTooShort);
    }
    let b = buf[i];
    if b == 0 {
        return Ok((Vec::new(), i + 1));
    }
    if b & 0xC0 == 0xC0 {
        if i + 1 >= buf.len() {
            return Err(DnsError::NameTooShort);
        }
        if fuel == 0 {
            return Err(DnsError::TooManyPointers);
        }
        let t = ((b & 0x3F) as usize) * 256 + (buf[i + 1] as usize);
        proof {
            assert(t as int == pointer_target(buf@, i as int));
        }
        match parse_name_rec(buf, t, fuel - 1) {
            Ok((name, _)) => Ok((name, i + 2)),
            Err(e) => Err(e),
        }
    } else {
        let l = b as usize;
        if l > buf.len() - (i + 1) {
            return Err(DnsError::NameTooShort);
        }
        match parse_name_rec(buf, i + 1 + l, fuel) {
            Err(e) => Err(e),
            Ok((rest, next)) => {
                let ghost rest_v = rest@;
                let mut name: Vec<u8> = Vec::new();
                let end = i + 1 + l;
                let mut j = i + 1;
                while j < end
                    invariant
                        i + 1 <= j <= end,
                        end == i + 1 + l,
                        end <= buf@.len(),
                        name@ == buf@.subrange(i + 1, j as int),
                    decreases end - j,
                {
                    proof {
                        assert(buf@.subrange(i + 1, j + 1) =~= buf@.subrange(i + 1, j as int).push(
                            buf@[j as int],
                        ));
                    }
                    name.push(buf[j]);
                    j += 1;
                }
                if rest.len() > 0 {
                    name.push(46);
                    let mut rest2 = rest;
                    name.append(&mut rest2);
                }
                proof {
                    assert(name@ =~= join_name(buf@.subrange(i + 1, i + 1 + l as int), rest_v));
                }
                Ok((name, next))
            }
        }
    }
}

impl DnsRequest {
    /// Decode a header and question out of `buf` into this message.
    /// On any truncation the message is left unchanged and the error
    /// says what was missing.
    pub fn parse(&mut self, buf: &[u8]) -> (r: Result<(), DnsError>)
        ensures
            match r {
                Ok(()) => parse_query(buf@) matches Some(q) && query_matches(*final(self), q)
                    && final(self).response_data@ == old(self).response_data@,
                Err(e) => *final(self) == *old(self) && parse_query(buf@) is None && e
                    == parse_query_err(buf@),
            },
    {
        if buf.len() < 12 {
            return Err(DnsError::HeaderTooShort);
        }
        let (name, idx) = match parse_plain_name(buf, 12) {
            Ok(p) => p,
            Err(e) => {
                return Err(e);
            }
        };
        if buf.len() - idx < 4 {
            return Err(DnsError::QuestionTooShort);
        }
        self.id = ((buf[0] as u16) << 8) | (buf[1] as u16);
        self.qr = (buf[2] & 0x80) >> 7;
        self.opcode = (buf[2] & 0x78) >> 3;
        self.aa = (buf[2] & 0x04) >> 2;
        self.tc = (buf[2] & 0x02) >> 1;
        self.rd = buf[2] & 0x01;
        self.ra = (buf[3] & 0x80) >> 7;
        self.z = (buf[3] & 0x70) >> 4;
        self.rcode = buf[3] & 0x0F;
        self.qdcount = ((buf[4] as u16) << 8) | (buf[5] as u16);
        self.ancount = ((buf[6] as u16) << 8) | (buf[7] as u16);
        self.nscount = ((buf[8] as u16) << 8) | (buf[9] as u16);
        self.arcount = ((buf[10] as u16) << 8) | (buf[11] as u16);
        self.qname = name;
        self.qtype = ((buf[idx] as u16) << 8) | (buf[idx + 1] as u16);
        self.qclass = ((buf[idx + 2] as u16) << 8) | (buf[idx + 3] as u16);
        Ok(())
    }

    /// Decode a response: like `parse`, and retain the whole buffer for
    /// verbatim replay.
    pub fn parse_response(&mut self, buf: &[u8]) -> (r: Result<(), DnsError>)
        ensures
            match r {
                Ok(()) => parse_query(buf@) matches Some(q) && query_matches(*final(self), q)
                    && final(self).response_data@ == buf@,
                Err(e) => *final(self) == *old(self) && parse_query(buf@) is None && e
                    == parse_query_err(buf@),
            },
    {
        match self.parse(buf) {
            Ok(()) => {
                self.response_data = bytes_of(buf);
                Ok(())
            }
            Err(e) => Err(e),
        }
    }

    /// Encode this message. With retained response bytes this is a pure
    /// id substitution: the stored bytes with their first two bytes
    /// overwritten (so there must be at least two; any retained
    /// response has its full 12-byte header). Otherwise the
    /// header-plus-question form is built, which needs every label of
    /// the name to fit its length byte.
    pub fn binarize(&self) -> (r: Vec<u8>)
        requires
            self.response_data@.len() != 1,
            self.response_data@.len() == 0 ==> name_ok(self.qname@),
        ensures
            self.response_data@.len() >= 2 ==> r@ == id_patched(self.response_data@, self.id),
            self.response_data@.len() == 0 ==> r@ == encode_query(query_of(*self)),
    {
        if self.response_data.len() > 0 {
            let mut response = bytes_of(self.response_data.as_slice());
            response[0] = (self.id >> 8) as u8;
            response[1] = self.id as u8;
            proof {
                assert(response@ =~= id_patched(self.response_data@, self.id));
            }
            return response;
        }
        let mut bin: Vec<u8> = Vec::new();
        bin.push((self.id >> 8) as u8);
        bin.push(self.id as u8);
        bin.push((self.qr << 7) | (self.opcode << 3) | (self.aa << 2) | (self.tc << 1) | self.rd);
        bin.push((self.ra << 7) | (self.z << 4) | self.rcode);
        bin.push((self.qdcount >> 8) as u8);
        bin.push(self.qdcount as u8);
        bin.push((self.ancount >> 8) as u8);
        bin.push(self.ancount as u8);
        bin.push((self.nscount >> 8) as u8);
        bin.push(self.nscount as u8);
        bin.push((self.arcount >> 8) as u8);
        bin.push(self.arcount as u8);
        write_name(&mut bin, &self.qname);
        bin.push(0);
        bin.push((self.qtype >> 8) as u8);
        bin.push(self.qtype as u8);
        bin.push((self.qclass >> 8) as u8);
        bin.push(self.qclass as u8);
        proof {
            assert(bin@ =~= encode_query(query_of(*self)));
        }
        bin
    }

    /// Decode a possibly compressed name at `*offset`, leaving `*offset`
    /// just past the name (after the first pointer, if any was taken).
    pub fn parse_name(&self, buf: &[u8], offset: &mut usize) -> (r: Result<Vec<u8>, DnsError>)
        ensures
            match r {
                Ok(name) => parse_name_at(buf@, *old(offset) as int, MAX_POINTER_JUMPS as nat)
                    == Some((name@, *final(offset) as int)) && *final(offset) <= buf@.len(),
                Err(e) => parse_name_at(buf@, *old(offset) as int, MAX_POINTER_JUMPS as nat)
                    is None && e == name_err(buf@, *old(offset) as int, MAX_POINTER_JUMPS as nat)
                    && *final(offset) == *old(offset),
            },
    {
        match parse_name_rec(buf, *offset, MAX_POINTER_JUMPS) {
            Ok((name, next)) => {
                *offset = next;
                Ok(name)
            }
            Err(e) => Err(e),
        }
    }

    /// Decode one resource record at `*offset`: name, fixed fields, then
    /// exactly rdlength bytes of rdata; `*offset` moves past all of it.
    pub fn parse_resource_record(&self, buf: &[u8], offset: &mut usize) -> (r: Result<
        DnsResourceRecord,
        DnsError,
    >)
        ensures
            match r {
                Ok(rec) => parse_rr(buf@, *old(offset) as int, MAX_POINTER_JUMPS as nat) == Some(
                    (rec@, *final(offset) as int),
                ) && *final(offset) <= buf@.len(),
                Err(e) => parse_rr(buf@, *old(offset) as int, MAX_POINTER_JUMPS as nat) is None
                    && e == rr_err(buf@, *old(offset) as int, MAX_POINTER_JUMPS as nat)
                    && *final(offset) == *old(offset),
            },
    {
        let mut pos = *offset;
        let name = match self.parse_name(buf, &mut pos) {
            Ok(n) => n,
            Err(e) => {
                return Err(e);
            }
        };
        if buf.len() - pos < 10 {
            return Err(DnsError::RecordTooShort);
        }
        let rr_type = ((buf[pos] as u16) << 8) | (buf[pos + 1] as u16);
        let rr_class = ((buf[pos + 2] as u16) << 8) | (buf[pos + 3] as u16);
        let ttl = ((buf[pos + 4] as u32) << 24) | ((buf[pos + 5] as u32) << 16) | ((buf[pos
            + 6] as u32) << 8) | (buf[pos + 7] as u32);
        let rdlength = ((buf[pos + 8] as u16) << 8) | (buf[pos + 9] as u16);
        let rdl = rdlength as usize;
        if rdl > buf.len() - (pos + 10) {
            return Err(DnsError::RecordTooShort);
        }
        let mut rdata: Vec<u8> = Vec::new();
        let end = pos + 10 + rdl;
        let mut j = pos + 10;
        while j < end
            invariant
                pos + 10 <= j <= end,
                end == pos + 10 + rdl,
                end <= buf@.len(),
                rdata@ == buf@.subrange(pos + 10, j as int),
            decreases end - j,
        {
            proof {
                assert(buf@.subrange(pos + 10, j + 1) =~= buf@.subrange(pos + 10, j as int).push(
                    buf@[j as int],
                ));
            }
            rdata.push(buf[j]);
            j += 1;
        }
        *offset = pos + 10 + rdl;
        Ok(DnsResourceRecord { name, rr_type, rr_class, ttl, rdlength, rdata })
    }

    /// Decode the three record sections of the retained response bytes,
    /// using the counts and question length already in this message.
    /// The question's wire length is taken as name length + 2 + 4, not
    /// re-parsed; the name-length bound only keeps that sum a `usize`.
    pub fn parse_response_data(&self) -> (r: Result<DnsResponseData, DnsError>)
        requires
            self.qname@.len() + 18 <= usize::MAX,
        ensures
            match r {
                Ok(d) => ({
                    &&& parse_body(*self) matches Some(b)
                    &&& recs_view(d.answer_records@) == b.0
                    &&& recs_view(d.authority_records@) == b.1
                    &&& recs_view(d.additional_records@) == b.2
                    &&& d.id == self.id
                    &&& d.flags == flags_hi(self.qr, self.opcode, self.aa, self.tc, self.rd)
                    &&& d.questions == self.qdcount
                    &&& d.answers == self.ancount
                    &&& d.authority_rrs == self.nscount
                    &&& d.additional_rrs == self.arcount
                    &&& d.query.0@ == self.qname@
                    &&& d.query.1 == self.qtype
                    &&& d.query.2 == self.qclass
                }),
                Err(e) => parse_body(*self) is None && e == parse_body_err(*self),
            },
    {
        let ghost buf = self.response_data@;
        let ghost fuel = MAX_POINTER_JUMPS as nat;
        let flags = (self.qr << 7) | (self.opcode << 3) | (self.aa << 2) | (self.tc << 1)
            | self.rd;
        let mut pos: usize = 12 + self.qname.len() + 6;
        let ghost start0 = pos as int;
        proof {
            assert(start0 == sections_start(*self));
        }

        let mut answer_records: Vec<DnsResourceRecord> = Vec::new();
        let mut n: u16 = 0;
        while n < self.ancount
            invariant
                n <= self.ancount,
                buf == self.response_data@,
                fuel == MAX_POINTER_JUMPS as nat,
                start0 == sections_start(*self),
                parse_rrs(buf, start0, n as nat, fuel) == Some(
                    (recs_view(answer_records@), pos as int),
                ),
            decreases self.ancount - n,
        {
            let ghost prev = pos as int;
            match self.parse_resource_record(self.response_data.as_slice(), &mut pos) {
                Ok(rec) => {
                    proof {
                        lemma_rrs_snoc(
                            buf,
                            start0,
                            n as nat,
                            fuel,
                            recs_view(answer_records@),
                            prev,
                            rec@,
                            pos as int,
                        );
                        assert(recs_view(answer_records@.push(rec)) =~= recs_view(
                            answer_records@,
                        ).push(rec@));
                    }
                    answer_records.push(rec);
                    n += 1;
                }
                Err(e) => {
                    proof {
                        lemma_rrs_fail(
                            buf,
                            start0,
                            n as nat,
                            self.ancount as nat,
                            fuel,
                            recs_view(answer_records@),
                            prev,
                        );
                    }
                    return Err(e);
                }
            }
        }
        let ghost pos1 = pos as int;

        let mut authority_records: Vec<DnsResourceRecord> = Vec::new();
        let mut n2: u16 = 0;
        while n2 < self.nscount
            invariant
                n2 <= self.nscount,
                buf == self.response_data@,
                fuel == MAX_POINTER_JUMPS as nat,
                start0 == sections_start(*self),
                parse_rrs(buf, start0, self.ancount as nat, fuel) == Some(
                    (recs_view(answer_records@), pos1),
                ),
                parse_rrs(buf, pos1, n2 as nat, fuel) == Some(
                    (recs_view(authority_records@), pos as int),
                ),
            decreases self.nscount - n2,
        {
            let ghost prev = pos as int;
            match self.parse_resource_record(self.response_data.as_slice(), &mut pos) {
                Ok(rec) => {
                    proof {
                        lemma_rrs_snoc(
                            buf,
                            pos1,
                            n2 as nat,
                            fuel,
                            recs_view(authority_records@),
                            prev,
                            rec@,
                            pos as int,
                        );
                        assert(recs_view(authority_records@.push(rec)) =~= recs_view(
                            authority_records@,
                        ).push(rec@));
                    }
                    authority_records.push(rec);
                    n2 += 1;
                }
                Err(e) => {
                    proof {
                        lemma_rrs_fail(
                            buf,
                            pos1,
                            n2 as nat,
                            self.nscount as nat,
                            fuel,
                            recs_view(authority_records@),
                            prev,
                        );
                    }
                    return Err(e);
                }
            }
        }
        let ghost pos2 = pos as int;

        let mut additional_records: Vec<DnsResourceRecord> = Vec::new();
        let mut n3: u16 = 0;
        while n3 < self.arcount
            invariant
                n3 <= self.arcount,
                buf == self.response_data@,
                fuel == MAX_POINTER_JUMPS as nat,
                start0 == sections_start(*self),
                parse_rrs(buf, start0, self.ancount as nat, fuel) == Some(
                    (recs_view(answer_records@), pos1),
                ),
                parse_rrs(buf, pos1, self.nscount as nat, fuel) == Some(
                    (recs_view(authority_records@), pos2),
                ),
                parse_rrs(buf, pos2, n3 as nat, fuel) == Some(
                    (recs_view(additional_records@), pos as int),
                ),
            decreases self.arcount - n3,
        {
            let ghost prev = pos as int;
            match self.parse_resource_record(self.response_data.as_slice(), &mut pos) {
                Ok(rec) => {
                    proof {
                        lemma_rrs_snoc(
                            buf,
                            pos2,
                            n3 as nat,
                            fuel,
                            recs_view(additional_records@),
                            prev,
                            rec@,
                            pos as int,
                        );
                        assert(recs_view(additional_records@.push(rec)) =~= recs_view(
                            additional_records@,
                        ).push(rec@));
                    }
                    additional_records.push(rec);
                    n3 += 1;
                }
                Err(e) => {
                    proof {
                        lemma_rrs_fail(
                            buf,
                            pos2,
                            n3 as nat,
                            self.arcount as nat,
                            fuel,
                            recs_view(additional_records@),
                            prev,
                        );
                    }
                    return Err(e);
                }
            }
        }

        let qname_copy = bytes_of(self.qname.as_slice());
        Ok(
            DnsResponseData {
                id: self.id,
                flags,
                questions: self.qdcount,
                answers: self.ancount,
                authority_rrs: self.nscount,
                additional_rrs: self.arcount,
                query: (qname_copy, self.qtype, self.qclass),
                answer_records,
                authority_records,
                additional_records,
            },
        )
    }

    /// Serialize a reconstructed response (header, question, and the
    /// three record sections, in order) into the retained bytes.
    pub fn binarize_response_data(&mut self, body: DnsResponseData)
        requires
            name_ok(body.query.0@),
            forall|i: int| 0 <= i < body.answer_records@.len() ==> name_ok(
                #[trigger] body.answer_records@[i].name@,
            ),
            forall|i: int| 0 <= i < body.authority_records@.len() ==> name_ok(
                #[trigger] body.authority_records@[i].name@,
            ),
            forall|i: int| 0 <= i < body.additional_records@.len() ==> name_ok(
                #[trigger] body.additional_records@[i].name@,
            ),
        ensures
            final(self).response_data@ == encode_body(body),
            final(self).id == old(self).id && final(self).qr == old(self).qr,
            final(self).opcode == old(self).opcode && final(self).aa == old(self).aa,
            final(self).tc == old(self).tc && final(self).rd == old(self).rd,
            final(self).ra == old(self).ra && final(self).z == old(self).z,
            final(self).rcode == old(self).rcode,
            final(self).qdcount == old(self).qdcount && final(self).ancount == old(self).ancount,
            final(self).nscount == old(self).nscount && final(self).arcount == old(self).arcount,
            final(self).qname@ == old(self).qname@ && final(self).qtype == old(self).qtype
                && final(self).qclass == old(self).qclass,
    {
        let mut bin: Vec<u8> = Vec::new();
        bin.push((body.id >> 8) as u8);
        bin.push(body.id as u8);
        bin.push(body.flags);
        bin.push(0);
        bin.push((body.questions >> 8) as u8);
        bin.push(body.questions as u8);
        bin.push((body.answers >> 8) as u8);
        bin.push(body.answers as u8);
        bin.push((body.authority_rrs >> 8) as u8);
        bin.push(body.authority_rrs as u8);
        bin.push((body.additional_rrs >> 8) as u8);
        bin.push(body.additional_rrs as u8);
        write_name(&mut bin, &body.query.0);
        bin.push(0);
        bin.push((body.query.1 >> 8) as u8);
        bin.push(body.query.1 as u8);
        bin.push((body.query.2 >> 8) as u8);
        bin.push(body.query.2 as u8);

        let ghost an_v = recs_view(body.answer_records@);
        let ghost ns_v = recs_view(body.authority_records@);
        let ghost ar_v = recs_view(body.additional_records@);
        let ghost pre = bin@;

        let mut j: usize = 0;
        while j < body.answer_records.len()
            invariant
                j <= body.answer_records@.len(),
                an_v == recs_view(body.answer_records@),
                forall|i: int| 0 <= i < body.answer_records@.len() ==> name_ok(
                    #[trigger] body.answer_records@[i].name@,
                ),
                bin@ == pre + encode_records(an_v.take(j as int)),
            decreases body.answer_records@.len() - j,
        {
            proof {
                assert(an_v.take(j + 1) =~= an_v.take(j as int).push(an_v[j as int]));
                lemma_encode_records_push(an_v.take(j as int), an_v[j as int]);
            }
            self.binarize_record(&body.answer_records[j], &mut bin);
            j += 1;
        }
        proof {
            assert(an_v.take(an_v.len() as int) =~= an_v);
        }

        let mut j2: usize = 0;
        while j2 < body.authority_records.len()
            invariant
                j2 <= body.authority_records@.len(),
                ns_v == recs_view(body.authority_records@),
                forall|i: int| 0 <= i < body.authority_records@.len() ==> name_ok(
                    #[trigger] body.authority_records@[i].name@,
                ),
                bin@ == pre + encode_records(an_v) + encode_records(ns_v.take(j2 as int)),
            decreases body.authority_records@.len() - j2,
        {
            proof {
                assert(ns_v.take(j2 + 1) =~= ns_v.take(j2 as int).push(ns_v[j2 as int]));
                lemma_encode_records_push(ns_v.take(j2 as int), ns_v[j2 as int]);
            }
            self.binarize_record(&body.authority_records[j2], &mut bin);
            j2 += 1;
        }
        proof {
            assert(ns_v.take(ns_v.len() as int) =~= ns_v);
        }

        let mut j3: usize = 0;
        while j3 < body.additional_records.len()
            invariant
                j3 <= body.additional_records@.len(),
                ar_v == recs_view(body.additional_records@),
                forall|i: int| 0 <= i < body.additional_records@.len() ==> name_ok(
                    #[trigger] body.additional_records@[i].name@,
                ),
                bin@ == pre + encode_records(an_v) + encode_records(ns_v) + encode_records(
                    ar_v.take(j3 as int),
                ),
            decreases body.additional_records@.len() - j3,
        {
            proof {
                assert(ar_v.take(j3 + 1) =~= ar_v.take(j3 as int).push(ar_v[j3 as int]));
                lemma_encode_records_push(ar_v.take(j3 as int), ar_v[j3 as int]);
            }
            self.binarize_record(&body.additional_records[j3], &mut bin);
            j3 += 1;
        }
        proof {
            assert(ar_v.take(ar_v.len() as int) =~= ar_v);
            assert(bin@ =~= encode_body(body));
        }

        self.response_data = bin;
    }

    /// Append the wire encoding of one record: uncompressed name,
    /// terminator, type, class, ttl, rdlength, rdata.
    pub fn binarize_record(&self, record: &DnsResourceRecord, bin: &mut Vec<u8>)
        requires
            name_ok(record.name@),
        ensures
            final(bin)@ == old(bin)@ + encode_record(record@),
    {
        let ghost bin0 = bin@;
        write_name(bin, &record.name);
        bin.push(0);
        bin.push((record.rr_type >> 8) as u8);
        bin.push(record.rr_type as u8);
        bin.push((record.rr_class >> 8) as u8);
        bin.push(record.rr_class as u8);
        bin.push((record.ttl >> 24) as u8);
        bin.push((record.ttl >> 16) as u8);
        bin.push((record.ttl >> 8) as u8);
        bin.push(record.ttl as u8);
        bin.push((record.rdlength >> 8) as u8);
        bin.push(record.rdlength as u8);
        let ghost mid = bin@;
        let mut j: usize = 0;
        while j < record.rdata.len()
            invariant
                j <= record.rdata@.len(),
                bin@ == mid + record.rdata@.take(j as int),
            decreases record.rdata@.len() - j,
        {
            proof {
                assert(record.rdata@.take(j + 1) =~= record.rdata@.take(j as int).push(
                    record.rdata@[j as int],
                ));
            }
            bin.push(record.rdata[j]);
            j += 1;
        }
        proof {
            assert(record.rdata@.take(record.rdata@.len() as int) =~= record.rdata@);
            assert(bin@ =~= bin0 + encode_record(record@));
        }
    }
}

} // verus!
