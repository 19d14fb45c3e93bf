//! The cache store: a map from query name to the raw wire bytes of the
//! last forwarded response, with the sweeper's eviction pass.

use vstd::prelude::*;
use vstd::map::*;
use crate::message::{DnsRequest, recs_view};
use crate::wire::{entry_expired, cached_answers, parse_query, sections_start, parse_rr,
    parse_name_at, MAX_POINTER_JUMPS};
use crate::codec::bytes_of;

verus! {

/// The map held by a sequence of entries; a later entry with the same
/// key would win, but well-formed stores keep keys unique.
pub open spec fn map_of(s: Seq<(Vec<u8>, Vec<u8>)>) -> Map<Seq<u8>, Seq<u8>>
    decreases s.len(),
{
    if s.len() == 0 {
        Map::<Seq<u8>, Seq<u8>>::empty()
    } else {
        map_of(s.drop_last()).insert(s.last().0@, s.last().1@)
    }
}

/// No two entries share a key.
pub open spec fn wf_entries(s: Seq<(Vec<u8>, Vec<u8>)>) -> bool {
    forall|i: int, j: int| 0 <= i < j < s.len() ==> s[i].0@ != s[j].0@
}

/// Appending an entry inserts its pair into the map.
proof fn lemma_map_of_push(s: Seq<(Vec<u8>, Vec<u8>)>, e: (Vec<u8>, Vec<u8>))
    ensures
        map_of(s.push(e)) == map_of(s).insert(e.0@, e.1@),
{
    assert(s.push(e).drop_last() =~= s);
    assert(s.push(e).last() == e);
}

/// In a well-formed store each entry is visible in the map, unshadowed.
proof fn lemma_entry_value(s: Seq<(Vec<u8>, Vec<u8>)>, i: int)
    requires
        wf_entries(s),
        0 <= i < s.len(),
    ensures
        map_of(s).contains_key(s[i].0@),
        map_of(s)[s[i].0@] == s[i].1@,
    decreases s.len(),
{
    if i == s.len() - 1 {
    } else {
        assert(wf_entries(s.drop_last()));
        assert(s.drop_last()[i] == s[i]);
        lemma_entry_value(s.drop_last(), i);
        assert(s[i].0@ != s.last().0@);
    }
}

/// A key under no entry is absent from the map.
proof fn lemma_absent(s: Seq<(Vec<u8>, Vec<u8>)>, k: Seq<u8>)
    requires
        forall|i: int| 0 <= i < s.len() ==> s[i].0@ != k,
    ensures
        !map_of(s).contains_key(k),
    decreases s.len(),
{
    if s.len() > 0 {
        assert(forall|i: int| 0 <= i < s.drop_last().len() ==> s.drop_last()[i] == s[i]);
        lemma_absent(s.drop_last(), k);
        assert(s.last().0@ != k);
    }
}

/// Byte-for-byte equality of two vectors.
fn bytes_eq(a: &Vec<u8>, b: &Vec<u8>) -> (r: bool)
    ensures
        r == (a@ == b@),
{
    if a.len() != b.len() {
        return false;
    }
    let mut i: usize = 0;
    while i < a.len()
        invariant
            i <= a@.len(),
            a@.len() == b@.len(),
            forall|m: int| 0 <= m < i ==> a@[m] == b@[m],
        decreases a@.len() - i,
    {
        if a[i] != b[i] {
            return false;
        }
        i += 1;
    }
    proof {
        assert(a@ =~= b@);
    }
    true
}

/// Whether a cached raw response is due for eviction: it decodes fully
/// and some answer record carries the sentinel ttl 10.
fn is_expired(bytes: &Vec<u8>) -> (r: bool)
    ensures
        r == entry_expired(bytes@),
{
    let mut req = DnsRequest::new();
    match req.parse_response(bytes.as_slice()) {
        Err(_) => {
            return false;
        }
        Ok(()) => {}
    }
    let ghost q = parse_query(bytes@).unwrap();
    if req.qname.len() > usize::MAX - 18 {
        proof {
            lemma_expired_start_oob(bytes@);
        }
        return false;
    }
    proof {
        assert(sections_start(req) == 12 + q.qname.len() + 6);
    }
    let data = match req.parse_response_data() {
        Err(_) => {
            return false;
        }
        Ok(d) => d,
    };
    let ghost an = recs_view(data.answer_records@);
    proof {
        assert(cached_answers(bytes@) == Some(an));
    }
    let mut i: usize = 0;
    while i < data.answer_records.len()
        invariant
            i <= data.answer_records@.len(),
            an == recs_view(data.answer_records@),
            cached_answers(bytes@) == Some(an),
            forall|m: int| 0 <= m < i ==> an[m].ttl != 10,
        decreases data.answer_records@.len() - i,
    {
        if data.answer_records[i].ttl == 10 {
            proof {
                assert(an[i as int].ttl == 10);
                assert(cached_answers(bytes@) is Some);
                assert(cached_answers(bytes@).unwrap() == an);
                assert(exists|m: int| 0 <= m < an.len() && #[trigger] an[m].ttl == 10);
                assert(entry_expired(bytes@));
            }
            return true;
        }
        i += 1;
    }
    false
}

/// A start offset past the end of the buffer leaves nothing to evict:
/// either every section is empty or the first record fails to decode.
proof fn lemma_expired_start_oob(bytes: Seq<u8>)
    requires
        parse_query(bytes) is Some,
        12 + parse_query(bytes).unwrap().qname.len() + 6 > bytes.len(),
    ensures
        !entry_expired(bytes),
{
    let q = parse_query(bytes).unwrap();
    let fuel = MAX_POINTER_JUMPS as nat;
    let start = 12 + q.qname.len() as int + 6;
    assert(parse_name_at(bytes, start, fuel) is None);
    assert(parse_rr(bytes, start, fuel) is None);
    if q.ancount == 0 {
        if q.nscount == 0 {
            if q.arcount == 0 {
                assert(cached_answers(bytes) == Some(Seq::<crate::message::SpecRecord>::empty()));
            }
        }
    }
}

/// The store: query name to raw response bytes, keys unique. Its view
/// is the map of those pairs; all operations are exact on that view.
pub struct CacheStore {
    entries: Vec<(Vec<u8>, Vec<u8>)>,
}

impl View for CacheStore {
    type V = Map<Seq<u8>, Seq<u8>>;

    closed spec fn view(&self) -> Map<Seq<u8>, Seq<u8>> {
        map_of(self.entries@)
    }
}

impl CacheStore {
    /// Keys are pairwise distinct.
    pub closed spec fn wf(&self) -> bool {
        wf_entries(self.entries@)
    }

    /// An empty store.
    pub fn new() -> (r: CacheStore)
        ensures
            r.wf(),
            r@ == Map::<Seq<u8>, Seq<u8>>::empty(),
    {
        CacheStore { entries: Vec::new() }
    }

    /// Exact-match lookup: a copy of the stored bytes for `name`, or
    /// `None` when the name has no entry.
    pub fn lookup(&self, name: &Vec<u8>) -> (r: Option<Vec<u8>>)
        requires
            self.wf(),
        ensures
            match r {
                Some(v) => self@.contains_key(name@) && v@ == self@[name@],
                None => !self@.contains_key(name@),
            },
    {
        let mut i: usize = 0;
        while i < self.entries.len()
            invariant
                i <= self.entries@.len(),
                self.wf(),
                forall|m: int| 0 <= m < i ==> self.entries@[m].0@ != name@,
            decreases self.entries@.len() - i,
        {
            if bytes_eq(&self.entries[i].0, name) {
                proof {
                    lemma_entry_value(self.entries@, i as int);
                }
                return Some(bytes_of(self.entries[i].1.as_slice()));
            }
            i += 1;
        }
        proof {
            lemma_absent(self.entries@, name@);
        }
        None
    }

    /// Drop the entry for `name`, if any.
    pub fn remove(&mut self, name: &Vec<u8>)
        requires
            old(self).wf(),
        ensures
            final(self).wf(),
            final(self)@ == old(self)@.remove(name@),
    {
        let ghost s = self.entries@;
        let mut kept: Vec<(Vec<u8>, Vec<u8>)> = Vec::new();
        let mut j: usize = 0;
        while j < self.entries.len()
            invariant
                j <= s.len(),
                s == self.entries@,
                wf_entries(s),
                wf_entries(kept@),
                forall|m: int| 0 <= m < kept@.len() ==> exists|i: int|
                    0 <= i < j && #[trigger] kept@[m].0@ == s[i].0@,
                map_of(kept@) == map_of(s.take(j as int)).remove(name@),
            decreases s.len() - j,
        {
            let e0 = bytes_of(self.entries[j].0.as_slice());
            let e1 = bytes_of(self.entries[j].1.as_slice());
            proof {
                assert(s.take(j + 1) =~= s.take(j as int).push(s[j as int]));
                lemma_map_of_push(s.take(j as int), s[j as int]);
            }
            if !bytes_eq(&e0, name) {
                proof {
                    assert forall|m: int| 0 <= m < kept@.len() implies kept@[m].0@
                        != s[j as int].0@ by {
                        let i = choose|i: int| 0 <= i < j && kept@[m].0@ == s[i].0@;
                        assert(s[i].0@ != s[j as int].0@);
                    }
                    lemma_map_of_push(kept@, (e0, e1));
                    assert(map_of(s.take(j as int)).remove(name@).insert(e0@, e1@) =~= map_of(
                        s.take(j + 1),
                    ).remove(name@));
                }
                kept.push((e0, e1));
            } else {
                proof {
                    assert(map_of(s.take(j as int)).remove(name@) =~= map_of(
                        s.take(j + 1),
                    ).remove(name@));
                }
            }
            j += 1;
        }
        proof {
            assert(s.take(s.len() as int) =~= s);
        }
        self.entries = kept;
    }

    /// Store `value` under `name`, overwriting any previous entry.
    pub fn insert(&mut self, name: Vec<u8>, value: Vec<u8>)
        requires
            old(self).wf(),
        ensures
            final(self).wf(),
            final(self)@ == old(self)@.insert(name@, value@),
    {
        self.remove(&name);
        proof {
            assert forall|m: int| 0 <= m < self.entries@.len() implies self.entries@[m].0@
                != name@ by {
                if self.entries@[m].0@ == name@ {
                    lemma_entry_value(self.entries@, m);
                }
            }
            lemma_map_of_push(self.entries@, (name, value));
            assert(old(self)@.remove(name@).insert(name@, value@) =~= old(self)@.insert(
                name@,
                value@,
            ));
        }
        self.entries.push((name, value));
    }

    /// One sweep over the whole store: every entry whose raw response
    /// decodes with some answer ttl equal to the sentinel 10 is removed;
    /// every other entry stays, byte-identical.
    pub fn sweep(&mut self)
        requires
            old(self).wf(),
        ensures
            final(self).wf(),
            forall|k: Seq<u8>| #![auto] final(self)@.contains_key(k) <==> old(self)@.contains_key(
                k,
            ) && !entry_expired(old(self)@[k]),
            forall|k: Seq<u8>| #![auto] final(self)@.contains_key(k) ==> final(self)@[k] == old(
                self,
            )@[k],
    {
        let ghost s = self.entries@;
        let mut kept: Vec<(Vec<u8>, Vec<u8>)> = Vec::new();
        let mut j: usize = 0;
        while j < self.entries.len()
            invariant
                j <= s.len(),
                s == self.entries@,
                wf_entries(s),
                wf_entries(kept@),
                forall|m: int| 0 <= m < kept@.len() ==> exists|i: int|
                    0 <= i < j && #[trigger] kept@[m].0@ == s[i].0@,
                forall|k: Seq<u8>| #![auto] map_of(kept@).contains_key(k) <==> map_of(
                    s.take(j as int),
                ).contains_key(k) && !entry_expired(map_of(s.take(j as int))[k]),
                forall|k: Seq<u8>| #![auto] map_of(kept@).contains_key(k) ==> map_of(kept@)[k]
                    == map_of(s.take(j as int))[k],
            decreases s.len() - j,
        {
            proof {
                assert(s.take(j + 1) =~= s.take(j as int).push(s[j as int]));
                lemma_map_of_push(s.take(j as int), s[j as int]);
                assert(wf_entries(s.take(j as int)));
                assert forall|i: int| 0 <= i < s.take(j as int).len() implies s.take(
                    j as int,
                )[i].0@ != s[j as int].0@ by {
                    assert(s.take(j as int)[i] == s[i]);
                }
                lemma_absent(s.take(j as int), s[j as int].0@);
                assert forall|m: int| 0 <= m < kept@.len() implies kept@[m].0@
                    != s[j as int].0@ by {
                    let i = choose|i: int| 0 <= i < j && kept@[m].0@ == s[i].0@;
                    assert(s[i].0@ != s[j as int].0@);
                }
                lemma_absent(kept@, s[j as int].0@);
            }
            if !is_expired(&self.entries[j].1) {
                let e0 = bytes_of(self.entries[j].0.as_slice());
                let e1 = bytes_of(self.entries[j].1.as_slice());
                proof {
                    lemma_map_of_push(kept@, (e0, e1));
                }
                kept.push((e0, e1));
            }
            j += 1;
        }
        proof {
            assert(s.take(s.len() as int) =~= s);
        }
        self.entries = kept;
    }
}

} // verus!
