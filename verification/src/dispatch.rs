//! Per-query dispatch decision: decode the incoming datagram, consult
//! the cache, and either answer from it (id substituted) or hand back
//! the encoded query to forward upstream.

use vstd::prelude::*;
use crate::message::{DnsError, DnsRequest, query_of};
use crate::cache::CacheStore;
use crate::wire::{parse_query, parse_query_err, encode_query, id_patched, lemma_parse_qname_ok};

verus! {

/// What the serving loop should do for one incoming datagram.
#[derive(Debug)]
pub enum DispatchAction {
    /// Send these bytes straight back to the client.
    Reply(Vec<u8>),
    /// Forward the first vector to the upstream resolver; the second is
    /// the query name, under which the raw reply is to be cached.
    Forward(Vec<u8>, Vec<u8>),
}

/// Decide one query. A cache hit yields the stored response with the
/// incoming id substituted; a miss yields the re-encoded query to
/// forward. Malformed input (incoming or cached) is reported, never
/// fatal.
pub fn handle_query(cache: &CacheStore, buf: &[u8]) -> (r: Result<DispatchAction, DnsError>)
    requires
        cache.wf(),
    ensures
        match parse_query(buf@) {
            None => r matches Err(e) && e == parse_query_err(buf@),
            Some(q) => {
                if cache@.contains_key(q.qname) {
                    match parse_query(cache@[q.qname]) {
                        None => r matches Err(e) && e == parse_query_err(cache@[q.qname]),
                        Some(_) => r matches Ok(a) && a matches DispatchAction::Reply(out)
                            && out@ == id_patched(cache@[q.qname], q.id),
                    }
                } else {
                    r matches Ok(a) && a matches DispatchAction::Forward(fwd, nm) && fwd@
                        == encode_query(q) && nm@ == q.qname
                }
            }
        },
{
    let mut request = DnsRequest::new();
    match request.parse(buf) {
        Err(e) => {
            return Err(e);
        }
        Ok(()) => {}
    }
    let ghost q = parse_query(buf@).unwrap();
    match cache.lookup(&request.qname) {
        Some(cached) => {
            let mut cached_request = DnsRequest::new();
            match cached_request.parse_response(cached.as_slice()) {
                Err(e) => {
                    return Err(e);
                }
                Ok(()) => {}
            }
            cached_request.id = request.id;
            proof {
                assert(cached@.len() >= 12);
            }
            let out = cached_request.binarize();
            Ok(DispatchAction::Reply(out))
        }
        None => {
            proof {
                lemma_parse_qname_ok(buf@, 12);
                assert(query_of(request) =~= q);
            }
            let fwd = request.binarize();
            Ok(DispatchAction::Forward(fwd, request.qname))
        }
    }
}

} // verus!
