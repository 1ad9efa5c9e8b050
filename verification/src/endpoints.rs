//! The local endpoint, and which endpoints belong to which workspaces.
use vstd::prelude::*;
use crate::bytes::{
    has_prefix, id_at, id_bytes, id_pair, id_with, lemma_id_of, lemma_id_with, EventId,
};
use crate::store::Store;
use crate::table::{is_listing, listing, with_prefix};
use crate::tables::{keys_of, pair_views, rows_listed, RowView, Rows, TableName, TableRow};
use crate::text::text;
use crate::wire::{put_id, put_u8};

verus! {

/// What an endpoint is to a workspace.
#[derive(Debug, Clone, Copy, PartialEq, Eq, Structural)]
pub enum EndpointRole {
    /// A device of a user.
    Device,
    /// A server that hands out invites.
    InviteServer,
}

impl EndpointRole {
    /// Whether workspace keys may be wrapped for such an endpoint.
    pub fn can_receive_key_wraps(self) -> (r: bool)
        ensures
            r == (self is Device),
    {
        self == EndpointRole::Device
    }
}

/// One byte for a role.
pub open spec fn role_tag(role: EndpointRole) -> u8 {
    match role {
        EndpointRole::Device => 0,
        EndpointRole::InviteServer => 1,
    }
}

/// The membership of an endpoint in a workspace.
#[derive(Debug, Clone, Copy, PartialEq, Eq)]
pub struct EndpointMembershipRow {
    pub endpoint_id: EventId,
    pub workspace_id: EventId,
    pub endpoint_shared_id: EventId,
    pub signing_public_key: EventId,
    pub endpoint_role: EndpointRole,
}

/// The row of a membership.
pub open spec fn membership_row_of(m: EndpointMembershipRow) -> RowView {
    RowView {
        table: TableName::EndpointMemberships,
        key: m.endpoint_id@ + m.workspace_id@,
        value: m.endpoint_shared_id@ + m.signing_public_key@ + seq![role_tag(m.endpoint_role)],
    }
}

/// The row of a membership.
pub fn endpoint_membership_row(m: &EndpointMembershipRow) -> (r: TableRow)
    ensures
        r@ == membership_row_of(*m),
{
    let mut value: Vec<u8> = Vec::new();
    put_id(&mut value, &m.endpoint_shared_id);
    put_id(&mut value, &m.signing_public_key);
    match m.endpoint_role {
        EndpointRole::Device => put_u8(&mut value, 0),
        EndpointRole::InviteServer => put_u8(&mut value, 1),
    }
    assert(value@ =~= m.endpoint_shared_id@ + m.signing_public_key@ + seq![
        role_tag(m.endpoint_role),
    ]);
    TableRow {
        table: TableName::EndpointMemberships,
        key: id_pair(&m.endpoint_id, &m.workspace_id),
        value,
    }
}

/// What a membership row says, or what is wrong with it.
pub open spec fn decoded_membership(
    endpoint_id: EventId,
    workspace_id: EventId,
    value: Seq<u8>,
) -> Result<EndpointMembershipRow, Seq<char>> {
    if value.len() != 65 {
        Err("endpoint membership row must be 65 bytes"@)
    } else if value[64] > 1 {
        Err("unknown endpoint role"@)
    } else {
        Ok(
            EndpointMembershipRow {
                endpoint_id,
                workspace_id,
                endpoint_shared_id: id_with(value.take(32)),
                signing_public_key: id_with(value.subrange(32, 64)),
                endpoint_role: if value[64] == 0 {
                    EndpointRole::Device
                } else {
                    EndpointRole::InviteServer
                },
            },
        )
    }
}

/// A membership is read back as it was written.
pub proof fn law_membership_round_trip(m: EndpointMembershipRow)
    ensures
        decoded_membership(m.endpoint_id, m.workspace_id, membership_row_of(m).value) == Ok::<
            EndpointMembershipRow,
            Seq<char>,
        >(m),
{
    let value = membership_row_of(m).value;
    assert(value.take(32) =~= m.endpoint_shared_id@);
    assert(value.subrange(32, 64) =~= m.signing_public_key@);
    lemma_id_with(m.endpoint_shared_id);
    lemma_id_with(m.signing_public_key);
}

/// The membership of an endpoint in a workspace.
pub open spec fn membership_of(m: Rows, endpoint_id: EventId, workspace_id: EventId) -> Result<
    Option<EndpointMembershipRow>,
    Seq<char>,
> {
    let key = (TableName::EndpointMemberships, endpoint_id@ + workspace_id@);
    if m.contains_key(key) {
        match decoded_membership(endpoint_id, workspace_id, m[key]) {
            Ok(row) => Ok(Some(row)),
            Err(e) => Err(e),
        }
    } else {
        Ok(None)
    }
}

/// Look up the membership of an endpoint in a workspace.
pub fn endpoint_membership(store: &Store, endpoint_id: &EventId, workspace_id: &EventId) -> (r:
    Result<Option<EndpointMembershipRow>, String>)
    requires
        store.wf(),
    ensures
        match membership_of(store@.rows, *endpoint_id, *workspace_id) {
            Ok(m) => r matches Ok(x) && x == m,
            Err(e) => r matches Err(x) && x@ == e,
        },
{
    let key = id_pair(endpoint_id, workspace_id);
    let value = match store.tables.table_row(TableName::EndpointMemberships, key.as_slice()) {
        Some(value) => value,
        None => {
            return Ok(None);
        },
    };
    if value.len() != 65 {
        return Err(text("endpoint membership row must be 65 bytes"));
    }
    if value[64] > 1 {
        return Err(text("unknown endpoint role"));
    }
    let endpoint_shared_id = id_at(value.as_slice(), 0);
    let signing_public_key = id_at(value.as_slice(), 32);
    proof {
        assert(value@.subrange(0, 32) =~= value@.take(32));
        lemma_id_with(endpoint_shared_id);
        lemma_id_with(signing_public_key);
    }
    let endpoint_role = if value[64] == 0 {
        EndpointRole::Device
    } else {
        EndpointRole::InviteServer
    };
    Ok(
        Some(
            EndpointMembershipRow {
                endpoint_id: *endpoint_id,
                workspace_id: *workspace_id,
                endpoint_shared_id,
                signing_public_key,
                endpoint_role,
            },
        ),
    )
}

/// Both endpoints belong to a workspace.
pub open spec fn is_mutual(m: Rows, a: EventId, b: EventId, workspace_id: EventId) -> bool {
    &&& m.contains_key((TableName::EndpointMemberships, a@ + workspace_id@))
    &&& m.contains_key((TableName::EndpointMemberships, b@ + workspace_id@))
}

/// A membership row of one endpoint names a workspace of the other endpoint too.
pub open spec fn row_is_mutual(m: Rows, b: EventId, row: (Seq<u8>, Seq<u8>)) -> bool {
    row.0.len() == 64 && m.contains_key((TableName::EndpointMemberships, b@ + row.0.skip(32)))
}

/// The workspaces that both endpoints belong to, in the order of their ids.
pub open spec fn mutual_workspaces(m: Rows, a: EventId, b: EventId) -> Seq<EventId> {
    rows_listed(m, TableName::EndpointMemberships, a@, usize::MAX).filter(
        |row: (Seq<u8>, Seq<u8>)| row_is_mutual(m, b, row),
    ).map_values(|row: (Seq<u8>, Seq<u8>)| id_with(row.0.skip(32)))
}

/// List the workspaces that both endpoints belong to, in the order of their ids.
pub fn mutual_workspace_ids(store: &Store, a: &EventId, b: &EventId) -> (r: Vec<EventId>)
    requires
        store.wf(),
    ensures
        r@ == mutual_workspaces(store@.rows, *a, *b),
        forall|w: EventId| #[trigger] r@.contains(w) <==> is_mutual(store@.rows, *a, *b, w),
{
    let limit: usize = usize::MAX;
    let rows = store.tables.table_rows_with_key_prefix(
        TableName::EndpointMemberships,
        a.as_slice(),
        limit,
    );
    let ghost m = store@.rows;
    let ghost listed = rows_listed(m, TableName::EndpointMemberships, a@, usize::MAX);
    let ghost keep = |row: (Seq<u8>, Seq<u8>)| row_is_mutual(m, *b, row);
    let ghost name = |row: (Seq<u8>, Seq<u8>)| id_with(row.0.skip(32));
    let ghost keys = with_prefix(keys_of(m, TableName::EndpointMemberships), a@);
    let ghost all = listing(keys);
    let mut out: Vec<EventId> = Vec::new();
    let mut i: usize = 0;
    proof {
        reveal(Seq::filter);
        assert(listed.take(0).filter(keep).map_values(name) =~= Seq::empty());
        assert(listed.len() == rows@.len());
    }
    while i < rows.len()
        invariant
            store.wf(),
            i <= rows@.len(),
            m == store@.rows,
            pair_views(rows@) == listed,
            listed.len() == rows@.len(),
            keep == (|row: (Seq<u8>, Seq<u8>)| row_is_mutual(m, *b, row)),
            name == (|row: (Seq<u8>, Seq<u8>)| id_with(row.0.skip(32))),
            out@ == listed.take(i as int).filter(keep).map_values(name),
        decreases rows.len() - i,
    {
        let ghost before = out@;
        proof {
            reveal(Seq::filter);
            assert(listed[i as int] == (rows@[i as int].0@, rows@[i as int].1@));
            assert(listed.take(i + 1).drop_last() =~= listed.take(i as int));
            assert(listed.take(i + 1).last() == listed[i as int]);
        }
        if rows[i].0.len() == 64 {
            let workspace_id = id_at(rows[i].0.as_slice(), 32);
            let key = id_pair(b, &workspace_id);
            proof {
                assert(rows@[i as int].0@.subrange(32, 64) =~= rows@[i as int].0@.skip(32));
                lemma_id_with(workspace_id);
            }
            if store.tables.has_row(TableName::EndpointMemberships, key.as_slice()) {
                out.push(workspace_id);
                proof {
                    let kept = listed.take(i as int).filter(keep);
                    assert(listed.take(i + 1).filter(keep) == kept.push(listed[i as int]));
                    assert(kept.push(listed[i as int]).map_values(name) =~= kept.map_values(
                        name,
                    ).push(workspace_id));
                }
            }
        }
        i = i + 1;
    }
    proof {
        assert(listed.take(i as int) =~= listed);
        lemma_mutual_members(store@.rows, *a, *b);
        assert(out@ == mutual_workspaces(store@.rows, *a, *b));
        assert forall|w: EventId| #[trigger] out@.contains(w) <==> is_mutual(
            store@.rows,
            *a,
            *b,
            w,
        ) by {
            assert(mutual_workspaces(store@.rows, *a, *b).contains(w) <==> is_mutual(
                store@.rows,
                *a,
                *b,
                w,
            ));
        }
    }
    out
}

/// The listed workspaces are those that both endpoints belong to.
pub proof fn lemma_mutual_members(m: Rows, a: EventId, b: EventId)
    requires
        is_listing(
            listing(with_prefix(keys_of(m, TableName::EndpointMemberships), a@)),
            with_prefix(keys_of(m, TableName::EndpointMemberships), a@),
        ),
        listing(with_prefix(keys_of(m, TableName::EndpointMemberships), a@)).len() <= usize::MAX,
    ensures
        forall|w: EventId| #[trigger]
            mutual_workspaces(m, a, b).contains(w) <==> is_mutual(m, a, b, w),
{
    let keys = with_prefix(keys_of(m, TableName::EndpointMemberships), a@);
    let all = listing(keys);
    let listed = rows_listed(m, TableName::EndpointMemberships, a@, usize::MAX);
    let keep = |row: (Seq<u8>, Seq<u8>)| row_is_mutual(m, b, row);
    let name = |row: (Seq<u8>, Seq<u8>)| id_with(row.0.skip(32));
    let kept = listed.filter(keep);
    assert(listed.len() == all.len());
    assert forall|w: EventId| #[trigger] mutual_workspaces(m, a, b).contains(w) <==> is_mutual(
        m,
        a,
        b,
        w,
    ) by {
        if mutual_workspaces(m, a, b).contains(w) {
            let j = choose|j: int|
                0 <= j < mutual_workspaces(m, a, b).len() && mutual_workspaces(m, a, b)[j] == w;
            let row = kept[j];
            listed.lemma_filter_contains_rev(keep, row);
            listed.lemma_filter_pred(keep, j);
            let i = choose|i: int| 0 <= i < listed.len() && listed[i] == row;
            assert(row.0 == all[i]);
            assert(all.contains(all[i]));
            assert(keys.contains(row.0));
            let tail = row.0.skip(32);
            lemma_id_of(tail, w);
            assert(w@ == tail);
            assert(row.0 =~= a@ + w@) by {
                assert(row.0.take(32) =~= a@);
                assert(row.0 =~= row.0.take(32) + row.0.skip(32));
            }
        }
        if is_mutual(m, a, b, w) {
            let k = a@ + w@;
            assert(k.take(32) =~= a@);
            assert(k.skip(32) =~= w@);
            assert(has_prefix(k, a@));
            assert(keys.contains(k));
            assert(all.contains(k));
            let i = choose|i: int| 0 <= i < all.len() && all[i] == k;
            let row = listed[i];
            assert(row.0 == k);
            assert(keep(row));
            listed.lemma_filter_contains(keep, i);
            let j = choose|j: int| 0 <= j < kept.len() && kept[j] == row;
            lemma_id_with(w);
            assert(mutual_workspaces(m, a, b)[j] == w);
        }
    }
}

// ---------------------------------------------------------------------------
// The local endpoint
// ---------------------------------------------------------------------------

/// The keys of this device.
#[derive(Debug, Clone, Copy, PartialEq, Eq)]
pub struct EndpointKeypair {
    pub endpoint: EventId,
    pub secret: EventId,
    pub signing_public_key: EventId,
    pub signing_secret: EventId,
}

/// The row of the local endpoint.
pub open spec fn local_endpoint_row_of(k: EndpointKeypair) -> RowView {
    RowView {
        table: TableName::LocalEndpoint,
        key: Seq::empty(),
        value: k.endpoint@ + k.secret@ + k.signing_public_key@ + k.signing_secret@,
    }
}

/// The row of the local endpoint.
pub fn local_endpoint_row(k: &EndpointKeypair) -> (r: TableRow)
    ensures
        r@ == local_endpoint_row_of(*k),
{
    let key: Vec<u8> = Vec::new();
    let mut value = id_bytes(&k.endpoint);
    put_id(&mut value, &k.secret);
    put_id(&mut value, &k.signing_public_key);
    put_id(&mut value, &k.signing_secret);
    assert(key@ =~= Seq::<u8>::empty());
    TableRow { table: TableName::LocalEndpoint, key, value }
}

/// The local endpoint, or why there is none.
pub open spec fn local_endpoint_of(m: Rows) -> Result<EndpointKeypair, Seq<char>> {
    let key = (TableName::LocalEndpoint, Seq::<u8>::empty());
    if !m.contains_key(key) {
        Err("local endpoint is missing"@)
    } else if m[key].len() != 128 {
        Err("local endpoint row must be 128 bytes"@)
    } else {
        Ok(
            EndpointKeypair {
                endpoint: id_with(m[key].take(32)),
                secret: id_with(m[key].subrange(32, 64)),
                signing_public_key: id_with(m[key].subrange(64, 96)),
                signing_secret: id_with(m[key].subrange(96, 128)),
            },
        )
    }
}

/// The local endpoint.
pub fn local_endpoint(store: &Store) -> (r: Result<EndpointKeypair, String>)
    requires
        store.wf(),
    ensures
        match local_endpoint_of(store@.rows) {
            Ok(k) => r matches Ok(x) && x == k,
            Err(e) => r matches Err(x) && x@ == e,
        },
{
    let key: Vec<u8> = Vec::new();
    assert(key@ =~= Seq::<u8>::empty());
    let value = match store.tables.table_row(TableName::LocalEndpoint, key.as_slice()) {
        Some(value) => value,
        None => {
            return Err(text("local endpoint is missing"));
        },
    };
    if value.len() != 128 {
        return Err(text("local endpoint row must be 128 bytes"));
    }
    let endpoint = id_at(value.as_slice(), 0);
    let secret = id_at(value.as_slice(), 32);
    let signing_public_key = id_at(value.as_slice(), 64);
    let signing_secret = id_at(value.as_slice(), 96);
    proof {
        assert(value@.subrange(0, 32) =~= value@.take(32));
        lemma_id_with(endpoint);
        lemma_id_with(secret);
        lemma_id_with(signing_public_key);
        lemma_id_with(signing_secret);
    }
    Ok(EndpointKeypair { endpoint, secret, signing_public_key, signing_secret })
}

} // verus!
