//! The event that asks a peer to compare a range of time.
use vstd::prelude::*;
use crate::bytes::{be64, put_be64, EventId};
use crate::connection_facts::TYPE_SYNC_COMPARE;
use crate::schema::flag;
use crate::sync_index::{RangeSummary, TimestampRange};
use crate::text::{prefixed, text};
use crate::types::{ConnectionScope, EventRecord, EventScope, RecordView};
use crate::wire::{
    lemma_take_id, lemma_take_u64, lemma_take_u8, put_id, put_u8, take_id, take_u64, take_u8,
    trailing_text, Reader,
};

verus! {

/// What this peer has in a range, and whether the other one is to answer with what it has.
#[derive(Debug, Clone, Copy, PartialEq, Eq)]
pub struct CompareEvent {
    pub connection_id: EventId,
    pub range: TimestampRange,
    pub summary: RangeSummary,
    pub response_requested: bool,
}

/// The bytes of a comparison.
pub open spec fn encoded_compare(c: CompareEvent) -> Seq<u8> {
    seq![TYPE_SYNC_COMPARE] + (c.connection_id@ + (be64(c.range.start) + (be64(c.range.end) + (be64(
        c.summary.count,
    ) + (c.summary.fingerprint@ + seq![flag(c.response_requested)])))))
}

/// What some bytes say as a comparison, or what is wrong with them.
pub open spec fn decoded_compare(s: Seq<u8>) -> Result<CompareEvent, Seq<char>> {
    let what = "sync compare"@;
    match take_u8(s, what) {
        Err(e) => Err(e),
        Ok((tag, s1)) => if tag != TYPE_SYNC_COMPARE {
            Err(what + " has another type"@)
        } else {
            match take_id(s1, what) {
                Err(e) => Err(e),
                Ok((connection_id, s2)) => match take_u64(s2, what) {
                    Err(e) => Err(e),
                    Ok((start, s3)) => match take_u64(s3, what) {
                        Err(e) => Err(e),
                        Ok((end, s4)) => match take_u64(s4, what) {
                            Err(e) => Err(e),
                            Ok((count, s5)) => match take_id(s5, what) {
                                Err(e) => Err(e),
                                Ok((fingerprint, s6)) => match take_u8(s6, what) {
                                    Err(e) => Err(e),
                                    Ok((asked, s7)) => if asked > 1 {
                                        Err(what + " has an unknown response flag"@)
                                    } else if s7.len() > 0 {
                                        Err(trailing_text(what))
                                    } else {
                                        Ok(
                                            CompareEvent {
                                                connection_id,
                                                range: TimestampRange { start, end },
                                                summary: RangeSummary { count, fingerprint },
                                                response_requested: asked == 1,
                                            },
                                        )
                                    },
                                },
                            },
                        },
                    },
                },
            }
        },
    }
}

/// A comparison is read back as it was written.
pub proof fn law_compare_round_trip(c: CompareEvent)
    ensures
        decoded_compare(encoded_compare(c)) == Ok::<CompareEvent, Seq<char>>(c),
{
    let what = "sync compare"@;
    let empty = Seq::<u8>::empty();
    let t6 = seq![flag(c.response_requested)];
    let t5 = c.summary.fingerprint@ + t6;
    let t4 = be64(c.summary.count) + t5;
    let t3 = be64(c.range.end) + t4;
    let t2 = be64(c.range.start) + t3;
    let t1 = c.connection_id@ + t2;
    lemma_take_u8(TYPE_SYNC_COMPARE, t1, what);
    lemma_take_id(c.connection_id, t2, what);
    lemma_take_u64(c.range.start, t3, what);
    lemma_take_u64(c.range.end, t4, what);
    lemma_take_u64(c.summary.count, t5, what);
    lemma_take_id(c.summary.fingerprint, t6, what);
    lemma_take_u8(flag(c.response_requested), empty, what);
    assert(t6 + empty =~= t6);
}

/// Write a comparison.
pub fn encode_compare(c: &CompareEvent) -> (out: Vec<u8>)
    ensures
        out@ == encoded_compare(*c),
{
    let mut out: Vec<u8> = Vec::new();
    put_u8(&mut out, TYPE_SYNC_COMPARE);
    put_id(&mut out, &c.connection_id);
    put_be64(&mut out, c.range.start);
    put_be64(&mut out, c.range.end);
    put_be64(&mut out, c.summary.count);
    put_id(&mut out, &c.summary.fingerprint);
    put_u8(
        &mut out,
        if c.response_requested {
            1
        } else {
            0
        },
    );
    assert(out@ =~= encoded_compare(*c));
    out
}

fn read_compare(reader: &mut Reader<'_>) -> (r: Result<(EventId, u64, u64, u64, EventId, u8), String>)
    requires
        old(reader).wf(),
    ensures
        final(reader).wf(),
        final(reader).what() == old(reader).what(),
        ({
            let what = old(reader).what();
            match take_id(old(reader).rest(), what) {
                Err(e) => r matches Err(x) && x@ == e,
                Ok((a, s2)) => match take_u64(s2, what) {
                    Err(e) => r matches Err(x) && x@ == e,
                    Ok((b, s3)) => match take_u64(s3, what) {
                        Err(e) => r matches Err(x) && x@ == e,
                        Ok((c, s4)) => match take_u64(s4, what) {
                            Err(e) => r matches Err(x) && x@ == e,
                            Ok((d, s5)) => match take_id(s5, what) {
                                Err(e) => r matches Err(x) && x@ == e,
                                Ok((f, s6)) => match take_u8(s6, what) {
                                    Err(e) => r matches Err(x) && x@ == e,
                                    Ok((g, s7)) => {
                                        &&& r matches Ok(v) && v == (a, b, c, d, f, g)
                                        &&& final(reader).rest() == s7
                                    },
                                },
                            },
                        },
                    },
                },
            }
        }),
{
    let connection_id = match reader.id() {
        Ok(v) => v,
        Err(e) => {
            return Err(e);
        },
    };
    let start = match reader.u64() {
        Ok(v) => v,
        Err(e) => {
            return Err(e);
        },
    };
    let end = match reader.u64() {
        Ok(v) => v,
        Err(e) => {
            return Err(e);
        },
    };
    let count = match reader.u64() {
        Ok(v) => v,
        Err(e) => {
            return Err(e);
        },
    };
    let fingerprint = match reader.id() {
        Ok(v) => v,
        Err(e) => {
            return Err(e);
        },
    };
    match reader.u8() {
        Ok(asked) => Ok((connection_id, start, end, count, fingerprint, asked)),
        Err(e) => Err(e),
    }
}

/// Read a comparison.
pub fn decode_compare(bytes: &[u8]) -> (r: Result<CompareEvent, String>)
    ensures
        match decoded_compare(bytes@) {
            Ok(v) => r == Ok::<CompareEvent, String>(v),
            Err(e) => r matches Err(x) && x@ == e,
        },
{
    let mut reader = Reader::new(bytes, "sync compare");
    let tag = match reader.u8() {
        Ok(b) => b,
        Err(e) => {
            return Err(e);
        },
    };
    if tag != TYPE_SYNC_COMPARE {
        return Err(prefixed("sync compare", text(" has another type")));
    }
    let (connection_id, start, end, count, fingerprint, asked) = match read_compare(&mut reader) {
        Ok(v) => v,
        Err(e) => {
            return Err(e);
        },
    };
    if asked > 1 {
        return Err(prefixed("sync compare", text(" has an unknown response flag")));
    }
    match reader.finish() {
        Ok(_) => Ok(
            CompareEvent {
                connection_id,
                range: TimestampRange { start, end },
                summary: RangeSummary { count, fingerprint },
                response_requested: asked == 1,
            },
        ),
        Err(e) => Err(e),
    }
}

/// The record of a comparison that goes out over its connection.
pub open spec fn outgoing_compare(c: CompareEvent) -> RecordView {
    RecordView {
        timestamp: 0,
        body_len: encoded_compare(c).len() as usize,
        canonical_bytes: encoded_compare(c),
        dependencies: Seq::empty(),
        workspace_id: None,
        scope: EventScope::Connection(
            ConnectionScope::Outgoing { connection_id: c.connection_id },
        ),
    }
}

/// The record of a comparison that goes out over its connection.
pub fn compare_record(c: &CompareEvent) -> (r: EventRecord)
    ensures
        r@ == outgoing_compare(*c),
{
    let bytes = encode_compare(c);
    let dependencies: Vec<EventId> = Vec::new();
    assert(dependencies@ =~= Seq::empty());
    EventRecord {
        timestamp: 0,
        body_len: bytes.len(),
        canonical_bytes: bytes,
        dependencies,
        workspace_id: None,
        scope: EventScope::Connection(
            ConnectionScope::Outgoing { connection_id: c.connection_id },
        ),
    }
}

} // verus!
