//! BLAKE3, the hash behind event ids, queue keys and derived secrets.
use vstd::prelude::*;
use crate::bytes::{extend_bytes, EventId};

verus! {

/// The 32 bytes that BLAKE3 gives for an input.
pub uninterp spec fn blake3_digest(input: Seq<u8>) -> EventId;

/// The 32 bytes that keyed BLAKE3 gives for a key and an input.
pub uninterp spec fn blake3_keyed_digest(key: EventId, input: Seq<u8>) -> EventId;

/// `blake3::hash`: the digest of the whole input. Claimed of it: the result is a
/// function of the input bytes alone.
#[verifier::external_body]
pub(crate) fn blake3_hash(input: &[u8]) -> (r: EventId)
    ensures
        r == blake3_digest(input@),
{
    *blake3::hash(input).as_bytes()
}

/// `blake3::keyed_hash`: the digest of the whole input under a 32-byte key.
/// Claimed of it: the result is a function of the key and the input bytes alone.
#[verifier::external_body]
pub(crate) fn blake3_keyed(key: &EventId, input: &[u8]) -> (r: EventId)
    ensures
        r == blake3_keyed_digest(*key, input@),
{
    *blake3::keyed_hash(key, input).as_bytes()
}

/// The id of an event: the digest of its canonical bytes.
pub open spec fn event_id_of(canonical_bytes: Seq<u8>) -> EventId {
    blake3_digest(canonical_bytes)
}

/// The id of an event: the digest of its canonical bytes.
pub fn event_id(canonical_bytes: &[u8]) -> (id: EventId)
    ensures
        id == event_id_of(canonical_bytes@),
{
    blake3_hash(canonical_bytes)
}

/// The digest of a domain text followed by a value.
pub fn domain_hash(domain: &[u8], value: &[u8]) -> (r: EventId)
    ensures
        r == blake3_digest(domain@ + value@),
{
    let mut input: Vec<u8> = Vec::new();
    extend_bytes(&mut input, domain);
    extend_bytes(&mut input, value);
    assert(input@ =~= domain@ + value@);
    blake3_hash(input.as_slice())
}

/// The keyed digest of a domain text followed by a value.
pub fn domain_keyed_hash(key: &EventId, domain: &[u8], value: &[u8]) -> (r: EventId)
    ensures
        r == blake3_keyed_digest(*key, domain@ + value@),
{
    let mut input: Vec<u8> = Vec::new();
    extend_bytes(&mut input, domain);
    extend_bytes(&mut input, value);
    assert(input@ =~= domain@ + value@);
    blake3_keyed(key, input.as_slice())
}

} // verus!
