//! Taking in frames from the network.
//!
//! Frames wait in a queue with the address that they came from. The caller opens each one; the
//! canonical bytes that it held are queued for admission together with where they came from.
//! A frame leaves the queue when it was opened, and also when it could not be opened, so that a
//! bad one does not come up again. Nothing is decoded or admitted here.
use vstd::prelude::*;
use crate::bytes::{copy_bytes, has_prefix};
use crate::events::{module_error, module_error_text};
use crate::hash::{blake3_digest, event_id};
use crate::schema::{
    canonical_in_row_of, collected, lemma_collected_at, lemma_collected_step,
    transit_canonical_in_row, CanonicalInView, ProvenanceView, TransitProvenance,
};
use crate::store::{Store, StoreState};
use crate::table::countable;
use crate::tables::{
    keys_of, law_added_rows_are_there, law_first_rows_come_first, pair_views, row_views, rows_added,
    rows_listed, RowView, Rows, TableName, TableRow,
};
use crate::transit_out::plus;
use crate::wire::{lemma_take_sized, put_sized, sized, take_sized, trailing_text, Reader};

verus! {

/// What taking in frames counted.
#[derive(Debug, Clone, Copy, PartialEq, Eq)]
pub struct TransitInReport {
    pub network_frames: usize,
    pub canonical_rows: usize,
}

/// A frame that waits to be opened.
#[derive(Debug, Clone, PartialEq, Eq)]
pub struct InboundFrame {
    pub key: Vec<u8>,
    /// The address that it came from.
    pub source: Vec<u8>,
    pub bytes: Vec<u8>,
}

/// What frames say: key, source and bytes.
pub open spec fn frame_views(frames: Seq<InboundFrame>) -> Seq<(Seq<u8>, Seq<u8>, Seq<u8>)> {
    frames.map_values(|f: InboundFrame| (f.key@, f.source@, f.bytes@))
}

/// The value of the row of a frame.
pub open spec fn frame_value(source: Seq<u8>, bytes: Seq<u8>) -> Seq<u8> {
    sized(source) + sized(bytes)
}

/// The row of a frame. Its key is the digest of its value, so that a frame that comes twice
/// from the same address waits once.
pub open spec fn frame_row_of(source: Seq<u8>, bytes: Seq<u8>) -> RowView {
    let value = frame_value(source, bytes);
    RowView { table: TableName::NetworkInbound, key: blake3_digest(value)@, value }
}

/// Queue a frame.
pub fn network_inbound_row(source: &[u8], bytes: &[u8]) -> (r: TableRow)
    ensures
        r@ == frame_row_of(source@, bytes@),
{
    let mut value: Vec<u8> = Vec::new();
    put_sized(&mut value, source);
    put_sized(&mut value, bytes);
    assert(value@ =~= frame_value(source@, bytes@));
    let key = crate::bytes::id_bytes(&event_id(value.as_slice()));
    TableRow { table: TableName::NetworkInbound, key, value }
}

/// What the row of a frame says, or what is wrong with it.
pub open spec fn frame_of(row: (Seq<u8>, Seq<u8>)) -> Result<
    (Seq<u8>, Seq<u8>, Seq<u8>),
    Seq<char>,
> {
    let what = "inbound frame"@;
    match take_sized(row.1, what) {
        Err(e) => Err(module_error_text(e)),
        Ok((source, rest)) => match take_sized(rest, what) {
            Err(e) => Err(module_error_text(e)),
            Ok((bytes, end)) => if end.len() > 0 {
                Err(module_error_text(trailing_text(what)))
            } else {
                Ok((row.0, source, bytes))
            },
        },
    }
}

/// A queued frame is claimed as it was queued.
pub proof fn law_inbound_frame_round_trip(source: Seq<u8>, bytes: Seq<u8>)
    requires
        source.len() <= u64::MAX,
        bytes.len() <= u64::MAX,
    ensures
        ({
            let row = frame_row_of(source, bytes);
            frame_of((row.key, row.value)) == Ok::<(Seq<u8>, Seq<u8>, Seq<u8>), Seq<char>>(
                (row.key, source, bytes),
            )
        }),
{
    let what = "inbound frame"@;
    let empty = Seq::<u8>::empty();
    lemma_take_sized(source, sized(bytes), what);
    lemma_take_sized(bytes, empty, what);
    assert(sized(bytes) + empty =~= sized(bytes));
}

fn decode_frame(key: &Vec<u8>, value: &Vec<u8>) -> (r: Result<InboundFrame, String>)
    ensures
        match frame_of((key@, value@)) {
            Ok(v) => r matches Ok(x) && (x.key@, x.source@, x.bytes@) == v,
            Err(e) => r matches Err(x) && x@ == e,
        },
{
    let mut reader = Reader::new(value.as_slice(), "inbound frame");
    let source = match reader.sized_bytes() {
        Ok(b) => b,
        Err(e) => {
            return Err(module_error(e));
        },
    };
    let bytes = match reader.sized_bytes() {
        Ok(b) => b,
        Err(e) => {
            return Err(module_error(e));
        },
    };
    match reader.finish() {
        Ok(_) => Ok(InboundFrame { key: copy_bytes(key.as_slice()), source, bytes }),
        Err(e) => Err(module_error(e)),
    }
}

/// What the first queued frames say, or what is wrong with one of them.
pub open spec fn claimed_frames(m: Rows, limit: usize) -> Result<
    Seq<(Seq<u8>, Seq<u8>, Seq<u8>)>,
    Seq<char>,
> {
    collected(
        rows_listed(m, TableName::NetworkInbound, Seq::empty(), limit).map_values(
            |row: (Seq<u8>, Seq<u8>)| frame_of(row),
        ),
    )
}

/// Read the first queued frames, in key order.
pub fn claim_frames(store: &Store, limit: usize) -> (r: Result<Vec<InboundFrame>, String>)
    requires
        store.wf(),
    ensures
        match claimed_frames(store@.rows, limit) {
            Ok(v) => r matches Ok(x) && frame_views(x@) == v,
            Err(e) => r matches Err(x) && x@ == e,
        },
{
    let empty: Vec<u8> = Vec::new();
    let rows = store.tables.table_rows_with_key_prefix(
        TableName::NetworkInbound,
        empty.as_slice(),
        limit,
    );
    let ghost listed = rows_listed(store@.rows, TableName::NetworkInbound, Seq::empty(), limit);
    let ghost items = listed.map_values(|row: (Seq<u8>, Seq<u8>)| frame_of(row));
    proof {
        assert(empty@ =~= Seq::<u8>::empty());
        assert(items.len() == rows@.len());
    }
    let mut out: Vec<InboundFrame> = Vec::new();
    let mut i: usize = 0;
    assert(frame_views(out@) =~= Seq::empty());
    while i < rows.len()
        invariant
            i <= rows@.len(),
            pair_views(rows@) == listed,
            items == listed.map_values(|row: (Seq<u8>, Seq<u8>)| frame_of(row)),
            items.len() == rows@.len(),
            claimed_frames(store@.rows, limit) == collected(items),
            collected(items.take(i as int)) == Ok::<
                Seq<(Seq<u8>, Seq<u8>, Seq<u8>)>,
                Seq<char>,
            >(frame_views(out@)),
        decreases rows.len() - i,
    {
        proof {
            assert(pair_views(rows@)[i as int] == (rows@[i as int].0@, rows@[i as int].1@));
            lemma_collected_step(items, i as int);
        }
        match decode_frame(&rows[i].0, &rows[i].1) {
            Ok(frame) => {
                let ghost before = out@;
                out.push(frame);
                assert(frame_views(out@) =~= frame_views(before).push(
                    (frame.key@, frame.source@, frame.bytes@),
                ));
            },
            Err(e) => {
                return Err(e);
            },
        }
        i = i + 1;
    }
    assert(items.take(i as int) =~= items);
    Ok(out)
}

// ---------------------------------------------------------------------------
// Opened frames
// ---------------------------------------------------------------------------

/// Canonical bytes out of a frame, and where they came from.
#[derive(Debug, Clone, PartialEq, Eq)]
pub struct Recovered {
    pub canonical_bytes: Vec<u8>,
    pub provenance: TransitProvenance,
}

/// Canonical bytes out of a frame, and where they came from.
pub struct RecoveredView {
    pub canonical_bytes: Seq<u8>,
    pub provenance: ProvenanceView,
}

impl View for Recovered {
    type V = RecoveredView;

    open spec fn view(&self) -> RecoveredView {
        RecoveredView { canonical_bytes: self.canonical_bytes@, provenance: self.provenance@ }
    }
}

/// What came out of some frames.
pub open spec fn recovered_views(recovered: Seq<Recovered>) -> Seq<RecoveredView> {
    recovered.map_values(|r: Recovered| r@)
}

/// The rows that queue what came out of some frames for admission.
pub open spec fn recovered_rows(recovered: Seq<RecoveredView>) -> Seq<RowView> {
    recovered.map_values(
        |r: RecoveredView|
            canonical_in_row_of(
                CanonicalInView {
                    canonical_bytes: r.canonical_bytes,
                    receive: None,
                    provenance: Some(r.provenance),
                },
            ),
    )
}

/// The rows with what came out of some frames queued for admission.
pub open spec fn recovered_queued(m: Rows, recovered: Seq<RecoveredView>) -> Rows {
    let rows = recovered_rows(recovered);
    rows_added(m, rows, rows.len() as int)
}

/// Queue what came out of some frames for admission.
pub fn queue_recovered(store: &mut Store, recovered: &Vec<Recovered>)
    requires
        old(store).wf(),
    ensures
        final(store).wf(),
        final(store)@ == (StoreState {
            rows: recovered_queued(old(store)@.rows, recovered_views(recovered@)),
            ..old(store)@
        }),
{
    let ghost views = recovered_views(recovered@);
    let mut rows: Vec<TableRow> = Vec::new();
    let mut i: usize = 0;
    assert(row_views(rows@) =~= recovered_rows(views.take(0)));
    while i < recovered.len()
        invariant
            i <= recovered@.len(),
            views == recovered_views(recovered@),
            row_views(rows@) == recovered_rows(views.take(i as int)),
        decreases recovered.len() - i,
    {
        let p = &recovered[i].provenance;
        let provenance = TransitProvenance {
            origin: copy_bytes(p.origin.as_slice()),
            local_endpoint: p.local_endpoint,
            sender_endpoint: p.sender_endpoint,
            remember_route: p.remember_route,
            unwrapped_with: p.unwrapped_with,
        };
        let row = transit_canonical_in_row(
            copy_bytes(recovered[i].canonical_bytes.as_slice()),
            provenance,
        );
        let ghost before = rows@;
        rows.push(row);
        proof {
            assert(views[i as int] == recovered@[i as int]@);
            assert(row_views(rows@) =~= row_views(before).push(row@));
            assert(views.take(i + 1) =~= views.take(i as int).push(views[i as int]));
            assert(row_views(rows@) =~= recovered_rows(views.take(i + 1)));
        }
        i = i + 1;
    }
    proof {
        assert(views.len() == recovered@.len());
        assert(views.take(i as int) =~= views);
        assert(row_views(rows@).len() == rows@.len());
    }
    let _ = store.tables.insert_table_rows(&rows);
}

/// What came of opening a frame.
#[derive(Debug, Clone, PartialEq, Eq)]
pub enum Opened {
    /// What it held.
    Holds { recovered: Vec<Recovered> },
    /// It could not be opened.
    Refused { cause: String },
}

/// Record what came of opening a frame. The frame leaves the queue either way; one that could
/// not be opened ends the turn with its cause.
pub fn record_opened(
    store: &mut Store,
    key: &Vec<u8>,
    opened: Opened,
    report: &mut TransitInReport,
) -> (r: Result<(), String>)
    requires
        old(store).wf(),
    ensures
        final(store).wf(),
        final(store)@.events == old(store)@.events,
        match opened {
            Opened::Holds { recovered } => {
                &&& r is Ok
                &&& final(store)@.rows == recovered_queued(
                    old(store)@.rows,
                    recovered_views(recovered@),
                ).remove((TableName::NetworkInbound, key@))
                &&& *final(report) == (TransitInReport {
                    network_frames: plus(old(report).network_frames, 1),
                    canonical_rows: plus(old(report).canonical_rows, recovered@.len() as usize),
                })
            },
            Opened::Refused { cause } => {
                &&& r == Err::<(), String>(cause)
                &&& final(store)@.rows == old(store)@.rows.remove(
                    (TableName::NetworkInbound, key@),
                )
                &&& *final(report) == *old(report)
            },
        },
{
    match opened {
        Opened::Holds { recovered } => {
            queue_recovered(store, &recovered);
            let _ = store.tables.delete_row(TableName::NetworkInbound, key.as_slice());
            report.network_frames = report.network_frames.saturating_add(1);
            report.canonical_rows = report.canonical_rows.saturating_add(recovered.len());
            Ok(())
        },
        Opened::Refused { cause } => {
            let _ = store.tables.delete_row(TableName::NetworkInbound, key.as_slice());
            Err(cause)
        },
    }
}

// ---------------------------------------------------------------------------
// Laws
// ---------------------------------------------------------------------------

/// A claim of frames hands out what is queued: with room for all of them every queued frame comes
/// out with its key, source and bytes, and whatever comes out is queued under its key.
pub proof fn law_every_queued_frame_is_claimed(m: Rows, limit: usize)
    requires
        countable(keys_of(m, TableName::NetworkInbound)),
    ensures
        claimed_frames(m, limit) matches Ok(frames) ==> {
            &&& frames.len() <= limit
            &&& forall|i: int|
                0 <= i < frames.len() ==> m.contains_key(
                    (TableName::NetworkInbound, (#[trigger] frames[i]).0),
                )
            &&& keys_of(m, TableName::NetworkInbound).len() <= limit ==> forall|
                k: Seq<u8>,
                source: Seq<u8>,
                bytes: Seq<u8>,
            |
                #![trigger m.contains_key((TableName::NetworkInbound, k)), frame_value(source, bytes)]
                m.contains_key((TableName::NetworkInbound, k)) && m[(
                    TableName::NetworkInbound,
                    k,
                )] == frame_value(source, bytes) && source.len() <= u64::MAX && bytes.len()
                    <= u64::MAX ==> frames.contains((k, source, bytes))
        },
{
    let t = TableName::NetworkInbound;
    let rows = rows_listed(m, t, Seq::empty(), limit);
    let items = rows.map_values(|row: (Seq<u8>, Seq<u8>)| frame_of(row));
    law_first_rows_come_first(m, t, Seq::empty(), limit);
    lemma_collected_at(items);
    if let Ok(frames) = claimed_frames(m, limit) {
        assert forall|i: int| 0 <= i < frames.len() implies m.contains_key(
            (t, (#[trigger] frames[i]).0),
        ) by {
            assert(items[i] == frame_of(rows[i]));
        }
        if keys_of(m, t).len() <= limit {
            assert forall|k: Seq<u8>, source: Seq<u8>, bytes: Seq<u8>|
                #![trigger m.contains_key((t, k)), frame_value(source, bytes)]
                m.contains_key((t, k)) && m[(t, k)] == frame_value(source, bytes) && source.len()
                    <= u64::MAX && bytes.len() <= u64::MAX implies frames.contains(
                (k, source, bytes),
            ) by {
                assert(k.take(0) =~= Seq::<u8>::empty());
                assert(has_prefix(k, Seq::<u8>::empty()));
                assert(rows.contains((k, m[(t, k)])));
                let i = choose|i: int| 0 <= i < rows.len() && rows[i] == (k, m[(t, k)]);
                law_inbound_frame_round_trip(source, bytes);
                assert(items[i] == frame_of(rows[i]));
                assert(frames[i] == (k, source, bytes));
            }
        }
    }
}

/// Everything that came out of a frame is queued for admission, under the digest of what it says,
/// and nothing that was queued or stored is lost.
pub proof fn law_everything_recovered_is_queued(m: Rows, recovered: Seq<RecoveredView>)
    ensures
        forall|i: int|
            0 <= i < recovered.len() ==> recovered_queued(m, recovered).contains_key(
                (
                    TableName::CanonicalIn,
                    canonical_in_row_of(
                        CanonicalInView {
                            canonical_bytes: (#[trigger] recovered[i]).canonical_bytes,
                            receive: None,
                            provenance: Some(recovered[i].provenance),
                        },
                    ).key,
                ),
            ),
        forall|k: (TableName, Seq<u8>)| #[trigger]
            m.contains_key(k) ==> recovered_queued(m, recovered).contains_key(k)
                && recovered_queued(m, recovered)[k] == m[k],
        forall|k: (TableName, Seq<u8>)| #[trigger]
            recovered_queued(m, recovered).contains_key(k) && !m.contains_key(k) ==> k.0
                == TableName::CanonicalIn && exists|i: int|
                0 <= i < recovered.len() && recovered_queued(m, recovered)[k] == canonical_in_row_of(
                    CanonicalInView {
                        canonical_bytes: (#[trigger] recovered[i]).canonical_bytes,
                        receive: None,
                        provenance: Some(recovered[i].provenance),
                    },
                ).value,
{
    let rows = recovered_rows(recovered);
    law_added_rows_are_there(m, rows, rows.len() as int);
    assert forall|i: int| 0 <= i < recovered.len() implies (#[trigger] recovered[i], rows[i]).1
        == canonical_in_row_of(
        CanonicalInView {
            canonical_bytes: recovered[i].canonical_bytes,
            receive: None,
            provenance: Some(recovered[i].provenance),
        },
    ) by {}
    assert forall|k: (TableName, Seq<u8>)| #[trigger]
        recovered_queued(m, recovered).contains_key(k) && !m.contains_key(k) implies k.0
        == TableName::CanonicalIn && exists|i: int|
        0 <= i < recovered.len() && recovered_queued(m, recovered)[k] == canonical_in_row_of(
            CanonicalInView {
                canonical_bytes: (#[trigger] recovered[i]).canonical_bytes,
                receive: None,
                provenance: Some(recovered[i].provenance),
            },
        ).value by {
        let i = choose|i: int|
            0 <= i < rows.len() && (#[trigger] rows[i]).table == k.0 && rows[i].key == k.1
                && rows[i].value == recovered_queued(m, recovered)[k];
        let r = recovered[i];
    }
}

} // verus!
