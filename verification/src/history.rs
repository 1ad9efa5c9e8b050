//! The retained history tree: coordinates, derivation of node secrets, and the rows
//! that are kept.
//!
//! The tree has two axes. On the time axis a node covers `range_width` minutes from
//! `range_start` on, the width a power of two. Below a single minute hangs a trie over
//! the 32-byte coordinates of the events of that minute; a trie node carries the first
//! `bit_depth` bits of the coordinates that it covers, and a leaf carries all of them.
use vstd::prelude::*;
use vstd::arithmetic::div_mod::{lemma_fundamental_div_mod, lemma_fundamental_div_mod_converse};
use crate::bytes::{be16, be64, extend_bytes, put_be16, put_be64, zero_bytes, EventId};
use crate::hash::{blake3_keyed_digest, domain_keyed_hash, event_id, event_id_of};

verus! {

/// The frontier root covers the minutes from 0 up to this width.
pub const TIME_TREE_ROOT_WIDTH: u64 = 0x8000_0000_0000_0000;

/// The depth of every node on the time axis.
pub const TIME_TREE_BIT_DEPTH: u16 = 0;

/// The depth of a leaf.
pub const TRIE_LEAF_BIT_DEPTH: u16 = 256;

/// One removal frontier of a workspace: the tree that a row belongs to.
#[derive(Debug, Clone, Copy, PartialEq, Eq)]
pub struct Frontier {
    pub workspace_id: EventId,
    pub removal_frontier_id: EventId,
}

/// The place of a node in its tree.
#[derive(Debug, Clone, Copy, PartialEq, Eq)]
pub struct Coord {
    pub range_start: u64,
    pub range_width: u64,
    pub bit_depth: u16,
    pub event_id_prefix: EventId,
}

// ---------------------------------------------------------------------------
// Bit strings
// ---------------------------------------------------------------------------

/// The byte whose first `n` bits are set.
pub open spec fn head_mask(n: int) -> u8 {
    if n <= 0 {
        0u8
    } else if n >= 8 {
        0xffu8
    } else {
        !(0xffu8 >> (n as u8))
    }
}

/// The first `depth` bits of a coordinate, the others cleared.
pub open spec fn mask_bits(s: Seq<u8>, depth: int) -> Seq<u8> {
    Seq::new(32, |j: int| s[j] & head_mask(depth - 8 * j))
}

/// The bit of a coordinate at an index, counted from the front.
pub open spec fn bit_of(s: Seq<u8>, index: int) -> u8 {
    (s[index / 8] >> ((7 - index % 8) as u8)) & 1u8
}

/// The coordinate prefix that leaves the path to `s` at the last of its first `depth`
/// bits.
pub open spec fn sibling_bits(s: Seq<u8>, depth: int) -> Seq<u8> {
    let byte = (depth - 1) / 8;
    let masked = mask_bits(s, depth);
    masked.update(byte, masked[byte] ^ (1u8 << ((7 - (depth - 1) % 8) as u8)))
}

fn head_mask_byte(n: usize) -> (m: u8)
    ensures
        m == head_mask(n as int),
{
    if n == 0 {
        0u8
    } else if n >= 8 {
        0xffu8
    } else {
        let k: u8 = n as u8;
        !(0xffu8 >> k)
    }
}

/// Keep the first `depth` bits of a coordinate and clear the others.
pub fn mask_prefix_to_depth(id: EventId, depth: u16) -> (r: EventId)
    ensures
        r@ == mask_bits(id@, depth as int),
{
    let mut out: EventId = [0u8; 32];
    let mut j: usize = 0;
    while j < 32
        invariant
            j <= 32,
            forall|i: int| 0 <= i < j ==> out@[i] == id@[i] & head_mask(depth - 8 * i),
        decreases 32 - j,
    {
        let bits: usize = if (depth as usize) > 8 * j {
            depth as usize - 8 * j
        } else {
            0
        };
        out[j] = id[j] & head_mask_byte(bits);
        j = j + 1;
    }
    assert(out@ =~= mask_bits(id@, depth as int));
    out
}

/// The bit of a coordinate at an index, counted from the front.
pub fn bit_at(id: &EventId, index: u16) -> (bit: u8)
    requires
        index < 256,
    ensures
        bit == bit_of(id@, index as int),
        bit == 0 || bit == 1,
{
    let byte: u8 = id[(index / 8) as usize];
    let shift: u8 = 7 - (index % 8) as u8;
    let bit: u8 = (byte >> shift) & 1u8;
    assert(bit == 0 || bit == 1) by (bit_vector)
        requires
            bit == (byte >> shift) & 1u8,
    ;
    bit
}

/// The coordinate prefix that leaves the path to `leaf_coord` at the last of its first
/// `depth` bits.
pub fn sibling_prefix_at_depth(leaf_coord: EventId, depth: u16) -> (r: EventId)
    requires
        0 < depth <= 256,
    ensures
        r@ == sibling_bits(leaf_coord@, depth as int),
{
    let mut prefix = mask_prefix_to_depth(leaf_coord, depth);
    let bit_index: u16 = depth - 1;
    let byte: usize = (bit_index / 8) as usize;
    let shift: u8 = 7 - (bit_index % 8) as u8;
    let flip: u8 = 1u8 << shift;
    prefix[byte] = prefix[byte] ^ flip;
    assert(prefix@ =~= sibling_bits(leaf_coord@, depth as int));
    prefix
}

/// Clearing more bits of a prefix is clearing them at once.
pub proof fn lemma_mask_mask(s: Seq<u8>, a: int, b: int)
    requires
        s.len() == 32,
        b <= a,
    ensures
        mask_bits(mask_bits(s, a), b) == mask_bits(s, b),
{
    assert forall|j: int| 0 <= j < 32 implies mask_bits(mask_bits(s, a), b)[j] == mask_bits(s, b)[j] by {
        let x = s[j];
        let (n, m) = (a - 8 * j, b - 8 * j);
        if m <= 0 {
            let h = head_mask(n);
            assert((x & h) & 0u8 == x & 0u8) by (bit_vector);
        } else if n >= 8 {
            let h = head_mask(m);
            assert((x & 0xffu8) & h == x & h) by (bit_vector);
        } else {
            let (p, q) = (n as u8, m as u8);
            assert((x & !(0xffu8 >> p)) & !(0xffu8 >> q) == x & !(0xffu8 >> q)) by (bit_vector)
                requires
                    q <= p,
                    p < 8,
            ;
        }
    }
    assert(mask_bits(mask_bits(s, a), b) =~= mask_bits(s, b));
}

/// All 256 bits are the coordinate itself.
pub proof fn lemma_mask_full(s: Seq<u8>)
    requires
        s.len() == 32,
    ensures
        mask_bits(s, 256) == s,
{
    assert forall|j: int| 0 <= j < 32 implies mask_bits(s, 256)[j] == s[j] by {
        let x = s[j];
        assert(x & 0xffu8 == x) by (bit_vector);
    }
    assert(mask_bits(s, 256) =~= s);
}

/// No bits at all are zero.
pub proof fn lemma_mask_none(s: Seq<u8>)
    requires
        s.len() == 32,
    ensures
        mask_bits(s, 0) == zero_bytes(),
{
    assert forall|j: int| 0 <= j < 32 implies mask_bits(s, 0)[j] == 0 by {
        let x = s[j];
        assert(x & 0u8 == 0u8) by (bit_vector);
    }
    assert(mask_bits(s, 0) =~= zero_bytes());
}

/// The sibling of a path never lies on it, and carries no bit beyond its depth.
pub proof fn lemma_sibling_off_path(s: Seq<u8>, depth: int)
    requires
        s.len() == 32,
        0 < depth <= 256,
    ensures
        sibling_bits(s, depth) != mask_bits(s, depth),
        mask_bits(sibling_bits(s, depth), depth) == sibling_bits(s, depth),
{
    let byte = (depth - 1) / 8;
    let k = ((7 - (depth - 1) % 8) as u8);
    let n = depth - 8 * byte;
    assert(n == 8 - k);
    let masked = mask_bits(s, depth);
    let x = masked[byte];
    assert(x ^ (1u8 << k) != x) by (bit_vector)
        requires
            k < 8,
    ;
    assert(sibling_bits(s, depth)[byte] != masked[byte]);
    assert forall|j: int| 0 <= j < 32 implies mask_bits(sibling_bits(s, depth), depth)[j]
        == sibling_bits(s, depth)[j] by {
        let y = s[j];
        if j == byte {
            if n == 8 {
                assert(((y & 0xffu8) ^ (1u8 << k)) & 0xffu8 == (y & 0xffu8) ^ (1u8 << k))
                    by (bit_vector);
            } else {
                let p = n as u8;
                assert(((y & !(0xffu8 >> p)) ^ (1u8 << k)) & !(0xffu8 >> p) == (y & !(0xffu8 >> p))
                    ^ (1u8 << k)) by (bit_vector)
                    requires
                        p + k == 8,
                        0 < p < 8,
                ;
            }
        } else {
            lemma_mask_mask(s, depth, depth);
            assert(mask_bits(masked, depth)[j] == masked[j]);
        }
    }
    assert(mask_bits(sibling_bits(s, depth), depth) =~= sibling_bits(s, depth));
}

/// The sibling of a path shares all bits with it in front of the last one.
pub proof fn lemma_sibling_shares_path(s: Seq<u8>, depth: int, shorter: int)
    requires
        s.len() == 32,
        0 < depth <= 256,
        shorter < depth,
    ensures
        mask_bits(sibling_bits(s, depth), shorter) == mask_bits(s, shorter),
{
    let byte = (depth - 1) / 8;
    let k = ((7 - (depth - 1) % 8) as u8);
    let masked = mask_bits(s, depth);
    lemma_mask_mask(s, depth, shorter);
    assert forall|j: int| 0 <= j < 32 implies mask_bits(sibling_bits(s, depth), shorter)[j]
        == mask_bits(masked, shorter)[j] by {
        if j == byte {
            let x = masked[j];
            let n = shorter - 8 * j;
            if n <= 0 {
                assert((x ^ (1u8 << k)) & 0u8 == x & 0u8) by (bit_vector);
            } else {
                let q = n as u8;
                assert((x ^ (1u8 << k)) & !(0xffu8 >> q) == x & !(0xffu8 >> q)) by (bit_vector)
                    requires
                        q + k <= 7,
                ;
            }
        }
    }
    assert(mask_bits(sibling_bits(s, depth), shorter) =~= mask_bits(masked, shorter));
}

/// `depth` is the least number of leading bits that tells two coordinates apart.
pub open spec fn diverges_at(a: Seq<u8>, b: Seq<u8>, depth: int) -> bool {
    &&& 0 < depth <= 256
    &&& mask_bits(a, depth - 1) == mask_bits(b, depth - 1)
    &&& mask_bits(a, depth) != mask_bits(b, depth)
}

/// The least number of leading bits that tells two different coordinates apart.
pub fn first_diverging_bit(a: &EventId, b: &EventId) -> (depth: u16)
    requires
        a@ != b@,
    ensures
        diverges_at(a@, b@, depth as int),
{
    let mut j: usize = 0;
    while j < 32 && a[j] == b[j]
        invariant
            j <= 32,
            forall|i: int| 0 <= i < j ==> a@[i] == b@[i],
        decreases 32 - j,
    {
        j = j + 1;
    }
    proof {
        if j == 32 {
            assert(a@ =~= b@);
        }
    }
    let x: u8 = a[j];
    let y: u8 = b[j];
    let mut n: usize = 1;
    proof {
        assert(x & 0u8 == y & 0u8) by (bit_vector);
    }
    while n < 8 && (x & head_mask_byte(n)) == (y & head_mask_byte(n))
        invariant
            1 <= n <= 8,
            x & head_mask(n - 1) == y & head_mask(n - 1),
        decreases 8 - n,
    {
        n = n + 1;
    }
    let depth: u16 = (8 * j + n) as u16;
    proof {
        if n == 8 {
            assert(x != y ==> x & 0xffu8 != y & 0xffu8) by (bit_vector);
        }
        assert(x & head_mask(n as int) != y & head_mask(n as int));
        assert(mask_bits(a@, depth as int)[j as int] != mask_bits(b@, depth as int)[j as int]);
        let less = depth as int - 1;
        assert forall|i: int| 0 <= i < 32 implies mask_bits(a@, less)[i] == mask_bits(b@, less)[i] by {
            if i > j {
                let (u, v) = (a@[i], b@[i]);
                assert(u & 0u8 == v & 0u8) by (bit_vector);
            } else if i == j {
                assert(depth - 1 - 8 * i == n - 1);
            }
        }
        assert(mask_bits(a@, depth - 1) =~= mask_bits(b@, depth - 1));
    }
    depth
}

// ---------------------------------------------------------------------------
// Ranges of minutes
// ---------------------------------------------------------------------------

/// A power of two.
pub open spec fn is_pow2(w: nat) -> bool
    decreases w,
{
    w == 1 || (w > 1 && w % 2 == 0 && is_pow2(w / 2))
}

/// The start of the range of width `w` that holds minute `m`.
pub open spec fn range_start_of(m: int, w: int) -> int {
    m - m % w
}

/// The range of half the width that holds a minute is the half of its range on the side
/// of the minute.
pub proof fn lemma_half_range(m: int, w: int)
    requires
        0 <= m,
        w > 1,
        w % 2 == 0,
    ensures
        range_start_of(m, w / 2) == (if m < range_start_of(m, w) + w / 2 {
            range_start_of(m, w)
        } else {
            range_start_of(m, w) + w / 2
        }),
        0 <= range_start_of(m, w) <= m < range_start_of(m, w) + w,
{
    let h = w / 2;
    let q = m / w;
    let r = m % w;
    lemma_fundamental_div_mod(m, w);
    assert(0 <= r < w) by (nonlinear_arith)
        requires
            r == m % w,
            w > 0,
    ;
    assert(w * q == (2 * q) * h) by (nonlinear_arith)
        requires
            w == 2 * h,
    ;
    if r < h {
        lemma_fundamental_div_mod_converse(m, h, 2 * q, r);
    } else {
        assert((2 * q + 1) * h == (2 * q) * h + h) by (nonlinear_arith);
        lemma_fundamental_div_mod_converse(m, h, 2 * q + 1, r - h);
    }
    assert(range_start_of(m, w) >= 0) by (nonlinear_arith)
        requires
            m == w * q + r,
            q == m / w,
            m >= 0,
            w > 0,
            r == m % w,
            range_start_of(m, w) == m - r,
    ;
}

/// An aligned range that holds a minute is the one that the minute and the width name.
pub proof fn lemma_aligned_range(m: int, start: int, w: int)
    requires
        w > 0,
        start % w == 0,
        start <= m < start + w,
    ensures
        start == range_start_of(m, w),
{
    lemma_fundamental_div_mod(start, w);
    assert(w * (start / w) == (start / w) * w) by (nonlinear_arith);
    lemma_fundamental_div_mod_converse(m, w, start / w, m - start);
}

/// A power of two divides every greater one.
pub proof fn lemma_pow2_divides(a: nat, b: nat)
    requires
        is_pow2(a),
        is_pow2(b),
        a <= b,
    ensures
        b % a == 0,
    decreases b,
{
    if a == b {
        assert(b as int % a as int == 0) by {
            lemma_fundamental_div_mod_converse(b as int, a as int, 1, 0);
        }
    } else {
        if a == 1 {
        } else {
            assert(b > 1);
            if a <= b / 2 {
                lemma_pow2_divides(a, b / 2);
                let q = (b / 2) as int / a as int;
                lemma_fundamental_div_mod((b / 2) as int, a as int);
                assert(b as int == (2 * q) * a as int) by (nonlinear_arith)
                    requires
                        (b / 2) as int == a as int * q,
                        b as int == 2 * (b / 2) as int,
                ;
                lemma_fundamental_div_mod_converse(b as int, a as int, 2 * q, 0);
            } else {
                lemma_pow2_divides(a / 2, b / 2);
                lemma_pow2_gap(a / 2, b / 2);
            }
        }
    }
}

/// Two powers of two are equal or one is at least twice the other.
pub proof fn lemma_pow2_gap(a: nat, b: nat)
    requires
        is_pow2(a),
        is_pow2(b),
        a < b,
    ensures
        2 * a <= b,
    decreases b,
{
    if a > 1 {
        lemma_pow2_gap(a / 2, b / 2);
    }
}

// ---------------------------------------------------------------------------
// Derivation of node secrets
// ---------------------------------------------------------------------------

/// The text that keys the split of a range of minutes: `topo time split v1`.
pub open spec fn time_split_domain() -> Seq<u8> {
    seq![
        116u8, 111u8, 112u8, 111u8, 32u8, 116u8, 105u8, 109u8, 101u8, 32u8, 115u8, 112u8, 108u8,
        105u8, 116u8, 32u8, 118u8, 49u8,
    ]
}

/// The text that keys the split of a trie node: `topo trie split v1`.
pub open spec fn trie_split_domain() -> Seq<u8> {
    seq![
        116u8, 111u8, 112u8, 111u8, 32u8, 116u8, 114u8, 105u8, 101u8, 32u8, 115u8, 112u8, 108u8,
        105u8, 116u8, 32u8, 118u8, 49u8,
    ]
}

fn time_split_domain_bytes() -> (r: Vec<u8>)
    ensures
        r@ == time_split_domain(),
{
    let r: Vec<u8> = vec![
        116u8, 111u8, 112u8, 111u8, 32u8, 116u8, 105u8, 109u8, 101u8, 32u8, 115u8, 112u8, 108u8,
        105u8, 116u8, 32u8, 118u8, 49u8,
    ];
    assert(r@ =~= time_split_domain());
    r
}

fn trie_split_domain_bytes() -> (r: Vec<u8>)
    ensures
        r@ == trie_split_domain(),
{
    let r: Vec<u8> = vec![
        116u8, 111u8, 112u8, 111u8, 32u8, 116u8, 114u8, 105u8, 101u8, 32u8, 115u8, 112u8, 108u8,
        105u8, 116u8, 32u8, 118u8, 49u8,
    ];
    assert(r@ =~= trie_split_domain());
    r
}

/// What a time split binds: the parent range, the side, and the child range.
pub open spec fn time_split_info_bytes(
    parent_start: u64,
    parent_width: u64,
    side: u8,
    child_start: u64,
    child_width: u64,
) -> Seq<u8> {
    be64(parent_start) + be64(parent_width) + seq![side] + be64(child_start) + be64(child_width)
}

/// What a trie split binds: depth and prefix of the parent, the side, and depth and
/// prefix of the child.
pub open spec fn trie_split_info_bytes(
    parent_depth: u16,
    parent_prefix: Seq<u8>,
    side: u8,
    child_depth: u16,
    child_prefix: Seq<u8>,
) -> Seq<u8> {
    be16(parent_depth) + mask_bits(parent_prefix, parent_depth as int) + seq![side] + be16(
        child_depth,
    ) + mask_bits(child_prefix, child_depth as int)
}

/// What a time split binds: the parent range, the side, and the child range.
pub fn time_split_info(
    parent_range_start: u64,
    parent_range_width: u64,
    child_side: u8,
    child_range_start: u64,
    child_range_width: u64,
) -> (out: Vec<u8>)
    ensures
        out@ == time_split_info_bytes(
            parent_range_start,
            parent_range_width,
            child_side,
            child_range_start,
            child_range_width,
        ),
{
    let mut out: Vec<u8> = Vec::new();
    put_be64(&mut out, parent_range_start);
    put_be64(&mut out, parent_range_width);
    out.push(child_side);
    put_be64(&mut out, child_range_start);
    put_be64(&mut out, child_range_width);
    assert(out@ =~= time_split_info_bytes(
        parent_range_start,
        parent_range_width,
        child_side,
        child_range_start,
        child_range_width,
    ));
    out
}

/// What a trie split binds: depth and prefix of the parent, the side, and depth and
/// prefix of the child.
pub fn trie_split_info(
    parent_bit_depth: u16,
    parent_event_id_prefix: EventId,
    child_side: u8,
    child_bit_depth: u16,
    child_event_id_prefix: EventId,
) -> (out: Vec<u8>)
    ensures
        out@ == trie_split_info_bytes(
            parent_bit_depth,
            parent_event_id_prefix@,
            child_side,
            child_bit_depth,
            child_event_id_prefix@,
        ),
{
    let mut out: Vec<u8> = Vec::new();
    put_be16(&mut out, parent_bit_depth);
    let parent = mask_prefix_to_depth(parent_event_id_prefix, parent_bit_depth);
    extend_bytes(&mut out, parent.as_slice());
    out.push(child_side);
    put_be16(&mut out, child_bit_depth);
    let child = mask_prefix_to_depth(child_event_id_prefix, child_bit_depth);
    extend_bytes(&mut out, child.as_slice());
    assert(out@ =~= trie_split_info_bytes(
        parent_bit_depth,
        parent_event_id_prefix@,
        child_side,
        child_bit_depth,
        child_event_id_prefix@,
    ));
    out
}

/// A node that secrets are derived from: the frontier root or a kept row.
#[derive(Debug, Clone, Copy, PartialEq, Eq)]
pub struct DerivationSource {
    pub secret_id: EventId,
    pub secret: EventId,
    pub coord: Coord,
}

/// The empty coordinate prefix of the nodes on the time axis.
pub open spec fn no_prefix() -> EventId {
    vstd::array::spec_array_fill_for_copy_type::<u8, 32>(0u8)
}

/// The empty coordinate prefix is all zero.
pub proof fn lemma_no_prefix(id: EventId)
    ensures
        no_prefix()@ == zero_bytes(),
        id@ == zero_bytes() ==> id == no_prefix(),
{
    broadcast use vstd::array::group_array_axioms;

    assert(no_prefix()@ =~= zero_bytes());
    if id@ == zero_bytes() {
        assert(id =~= no_prefix());
    }
}

/// The empty coordinate prefix.
pub fn empty_prefix() -> (r: EventId)
    ensures
        r == no_prefix(),
{
    let r = crate::bytes::zero_id();
    proof {
        lemma_no_prefix(r);
    }
    r
}

/// A node on the time axis.
pub open spec fn time_coord(start: u64, width: u64) -> Coord {
    Coord { range_start: start, range_width: width, bit_depth: 0, event_id_prefix: no_prefix() }
}

/// The leaf of an event.
pub open spec fn leaf_coord(minute: u64, event_id_in_minute: EventId) -> Coord {
    Coord {
        range_start: minute,
        range_width: 1,
        bit_depth: 256,
        event_id_prefix: event_id_in_minute,
    }
}

/// The coordinate of a node on the time axis.
pub fn make_time_coord(start: u64, width: u64) -> (c: Coord)
    ensures
        c == time_coord(start, width),
{
    Coord {
        range_start: start,
        range_width: width,
        bit_depth: TIME_TREE_BIT_DEPTH,
        event_id_prefix: empty_prefix(),
    }
}

/// The coordinate of the leaf of an event.
pub fn make_leaf_coord(minute: u64, event_id_in_minute: EventId) -> (c: Coord)
    ensures
        c == leaf_coord(minute, event_id_in_minute),
{
    Coord {
        range_start: minute,
        range_width: 1,
        bit_depth: TRIE_LEAF_BIT_DEPTH,
        event_id_prefix: event_id_in_minute,
    }
}

/// The secret of one half of a range of minutes.
pub open spec fn time_split_secret(parent: DerivationSource, side: u8, child: Coord) -> EventId {
    blake3_keyed_digest(
        parent.secret,
        time_split_domain() + time_split_info_bytes(
            parent.coord.range_start,
            parent.coord.range_width,
            side,
            child.range_start,
            child.range_width,
        ),
    )
}

/// The secret of a trie node or leaf below another node of its minute.
pub open spec fn trie_split_secret(parent: DerivationSource, side: u8, child: Coord) -> EventId {
    blake3_keyed_digest(
        parent.secret,
        trie_split_domain() + trie_split_info_bytes(
            parent.coord.bit_depth,
            parent.coord.event_id_prefix@,
            side,
            child.bit_depth,
            child.event_id_prefix@,
        ),
    )
}

/// The secret of one half of a range of minutes.
pub fn derive_time_secret(parent: &DerivationSource, side: u8, child: &Coord) -> (r: EventId)
    ensures
        r == time_split_secret(*parent, side, *child),
{
    let info = time_split_info(
        parent.coord.range_start,
        parent.coord.range_width,
        side,
        child.range_start,
        child.range_width,
    );
    domain_keyed_hash(&parent.secret, time_split_domain_bytes().as_slice(), info.as_slice())
}

/// The secret of a trie node or leaf below another node of its minute.
pub fn derive_trie_secret(parent: &DerivationSource, side: u8, child: &Coord) -> (r: EventId)
    ensures
        r == trie_split_secret(*parent, side, *child),
{
    let info = trie_split_info(
        parent.coord.bit_depth,
        parent.coord.event_id_prefix,
        side,
        child.bit_depth,
        child.event_id_prefix,
    );
    domain_keyed_hash(&parent.secret, trie_split_domain_bytes().as_slice(), info.as_slice())
}

/// The half of a range on one side.
pub open spec fn half_coord(parent: Coord, side: u8) -> Coord {
    let half = parent.range_width / 2;
    time_coord(
        if side == 0 {
            parent.range_start
        } else {
            (parent.range_start + half) as u64
        },
        half,
    )
}

/// The side of the half that holds a minute.
pub open spec fn side_of(parent: Coord, minute: u64) -> u8 {
    if minute < parent.range_start + parent.range_width / 2 {
        0
    } else {
        1
    }
}

/// A place that a kept row can have: an aligned range of a power-of-two width, and a
/// trie prefix below single minutes only.
pub open spec fn valid_coord(c: Coord) -> bool {
    &&& is_pow2(c.range_width as nat)
    &&& c.range_width < TIME_TREE_ROOT_WIDTH
    &&& c.range_start as int % c.range_width as int == 0
    &&& c.range_start + c.range_width <= TIME_TREE_ROOT_WIDTH
    &&& c.bit_depth <= 256
    &&& c.bit_depth > 0 ==> c.range_width == 1
    &&& c.event_id_prefix@ == mask_bits(c.event_id_prefix@, c.bit_depth as int)
}

/// A range that can be split: the root or a kept row of the time axis that is wider
/// than a minute.
pub open spec fn splittable(c: Coord) -> bool {
    &&& is_pow2(c.range_width as nat)
    &&& c.range_width > 1
    &&& c.range_start as int % c.range_width as int == 0
    &&& c.range_start + c.range_width <= TIME_TREE_ROOT_WIDTH
}

/// The range of a node holds a minute.
pub open spec fn holds_minute(c: Coord, minute: u64) -> bool {
    c.range_start <= minute < c.range_start + c.range_width
}

/// A node covers a leaf: its range holds the minute, and its prefix leads to the
/// coordinate.
pub open spec fn coord_covers(c: Coord, minute: u64, event_id_in_minute: EventId) -> bool {
    &&& holds_minute(c, minute)
    &&& mask_bits(event_id_in_minute@, c.bit_depth as int) == c.event_id_prefix@
}

/// A node lies strictly closer to the leaves than another: a smaller range first, then
/// a deeper prefix.
pub open spec fn closer(a: Coord, b: Coord) -> bool {
    a.range_width < b.range_width || (a.range_width == b.range_width && a.bit_depth > b.bit_depth)
}

/// Of two ranges that hold one minute, the narrower lies inside the wider.
pub proof fn lemma_ranges_nest(a: Coord, b: Coord, minute: u64)
    requires
        is_pow2(a.range_width as nat),
        is_pow2(b.range_width as nat),
        a.range_start as int % a.range_width as int == 0,
        b.range_start as int % b.range_width as int == 0,
        a.range_width <= b.range_width,
        holds_minute(a, minute),
        holds_minute(b, minute),
    ensures
        b.range_start <= a.range_start,
        a.range_start + a.range_width <= b.range_start + b.range_width,
{
    let (w, ww) = (a.range_width as int, b.range_width as int);
    lemma_pow2_divides(a.range_width as nat, b.range_width as nat);
    lemma_fundamental_div_mod(ww, w);
    lemma_fundamental_div_mod(a.range_start as int, w);
    lemma_fundamental_div_mod(b.range_start as int, ww);
    let (k, q, big) = (ww / w, a.range_start as int / w, b.range_start as int / ww);
    let m = minute as int;
    assert(big * k * w == ww * big && (big + 1) * k * w == ww * big + ww) by (nonlinear_arith)
        requires
            ww == w * k,
    ;
    assert(big * k <= q) by (nonlinear_arith)
        requires
            w > 0,
            big * k * w <= m,
            m < w * q + w,
    ;
    assert(q + 1 <= (big + 1) * k) by (nonlinear_arith)
        requires
            w > 0,
            w * q <= m,
            m < (big + 1) * k * w,
    ;
    assert(big * k * w <= w * q) by (nonlinear_arith)
        requires
            w > 0,
            big * k <= q,
    ;
    assert(w * q + w <= (big + 1) * k * w) by (nonlinear_arith)
        requires
            w > 0,
            q + 1 <= (big + 1) * k,
    ;
}

/// Nodes that cover one leaf are ordered by how close they lie to it.
pub proof fn lemma_covers_ordered(a: Coord, b: Coord, minute: u64, event_id_in_minute: EventId)
    requires
        valid_coord(a),
        valid_coord(b),
        coord_covers(a, minute, event_id_in_minute),
        coord_covers(b, minute, event_id_in_minute),
    ensures
        a == b || closer(a, b) || closer(b, a),
{
    if !closer(a, b) && !closer(b, a) {
        lemma_aligned_range(minute as int, a.range_start as int, a.range_width as int);
        lemma_aligned_range(minute as int, b.range_start as int, b.range_width as int);
        crate::bytes::lemma_id_ext(a.event_id_prefix, b.event_id_prefix);
    }
}

/// Half of a range that can be split is a valid place, and so are its halves again.
pub proof fn lemma_half_valid(c: Coord, side: u8)
    requires
        splittable(c),
    ensures
        valid_coord(half_coord(c, side)),
        half_coord(c, side).range_width * 2 == c.range_width,
        c.range_width > 2 ==> splittable(half_coord(c, side)),
        c.range_width == 2 ==> half_coord(c, side).range_width == 1,
{
    let h = c.range_width / 2;
    let (s, w) = (c.range_start as int, c.range_width as int);
    lemma_fundamental_div_mod(s, w);
    let q = s / w;
    assert(w * q == (2 * q) * h as int) by (nonlinear_arith)
        requires
            w == 2 * h as int,
    ;
    lemma_fundamental_div_mod_converse(s, h as int, 2 * q, 0);
    assert((2 * q + 1) * h as int == (2 * q) * h as int + h as int) by (nonlinear_arith);
    lemma_fundamental_div_mod_converse(s + h as int, h as int, 2 * q + 1, 0);
    lemma_no_prefix(no_prefix());
    lemma_mask_none(no_prefix()@);
}

// ---------------------------------------------------------------------------
// Rows
// ---------------------------------------------------------------------------

/// A kept node secret.
#[derive(Debug, Clone, Copy, PartialEq, Eq)]
pub struct HistoryNodeRow {
    pub local_history_node_secret_id: EventId,
    pub frontier: Frontier,
    pub source_secret_id: EventId,
    pub coord: Coord,
    pub node_secret: EventId,
}

impl View for HistoryNodeRow {
    type V = HistoryNodeRow;

    open spec fn view(&self) -> HistoryNodeRow {
        *self
    }
}

/// The first byte of the canonical bytes of a history node event.
pub const TYPE_LOCAL_HISTORY_NODE_SECRET: u8 = 72;

/// The canonical bytes of the event behind a node row.
pub open spec fn node_bytes(
    frontier: Frontier,
    source_secret_id: EventId,
    coord: Coord,
    node_secret: EventId,
) -> Seq<u8> {
    seq![TYPE_LOCAL_HISTORY_NODE_SECRET] + frontier.workspace_id@ + frontier.removal_frontier_id@
        + source_secret_id@ + be64(coord.range_start) + be64(coord.range_width) + be16(
        coord.bit_depth,
    ) + coord.event_id_prefix@ + node_secret@
}

/// The row of a node; its id is the id of its event.
pub open spec fn node_row(
    frontier: Frontier,
    source_secret_id: EventId,
    coord: Coord,
    node_secret: EventId,
) -> HistoryNodeRow {
    HistoryNodeRow {
        local_history_node_secret_id: event_id_of(
            node_bytes(frontier, source_secret_id, coord, node_secret),
        ),
        frontier,
        source_secret_id,
        coord,
        node_secret,
    }
}

/// The canonical bytes of the event behind a node row.
pub fn encode_node(
    frontier: &Frontier,
    source_secret_id: &EventId,
    coord: &Coord,
    node_secret: &EventId,
) -> (out: Vec<u8>)
    ensures
        out@ == node_bytes(*frontier, *source_secret_id, *coord, *node_secret),
{
    let mut out: Vec<u8> = Vec::new();
    out.push(TYPE_LOCAL_HISTORY_NODE_SECRET);
    extend_bytes(&mut out, frontier.workspace_id.as_slice());
    extend_bytes(&mut out, frontier.removal_frontier_id.as_slice());
    extend_bytes(&mut out, source_secret_id.as_slice());
    put_be64(&mut out, coord.range_start);
    put_be64(&mut out, coord.range_width);
    put_be16(&mut out, coord.bit_depth);
    extend_bytes(&mut out, coord.event_id_prefix.as_slice());
    extend_bytes(&mut out, node_secret.as_slice());
    assert(out@ =~= node_bytes(*frontier, *source_secret_id, *coord, *node_secret));
    out
}

/// The row of a node; its id is the id of its event.
pub fn make_node_row(
    frontier: &Frontier,
    source_secret_id: &EventId,
    coord: &Coord,
    node_secret: &EventId,
) -> (row: HistoryNodeRow)
    ensures
        row == node_row(*frontier, *source_secret_id, *coord, *node_secret),
{
    let bytes = encode_node(frontier, source_secret_id, coord, node_secret);
    HistoryNodeRow {
        local_history_node_secret_id: event_id(bytes.as_slice()),
        frontier: *frontier,
        source_secret_id: *source_secret_id,
        coord: *coord,
        node_secret: *node_secret,
    }
}

/// The row of one half of a range, derived from the range.
pub open spec fn time_child(frontier: Frontier, parent: DerivationSource, side: u8) -> HistoryNodeRow {
    let child = half_coord(parent.coord, side);
    node_row(frontier, parent.secret_id, child, time_split_secret(parent, side, child))
}

/// The row of a trie node or leaf, derived from a node above it.
pub open spec fn trie_child(
    frontier: Frontier,
    parent: DerivationSource,
    side: u8,
    child: Coord,
) -> HistoryNodeRow {
    node_row(frontier, parent.secret_id, child, trie_split_secret(parent, side, child))
}

/// A row as a source of further secrets.
pub open spec fn row_source(row: HistoryNodeRow) -> DerivationSource {
    DerivationSource {
        secret_id: row.local_history_node_secret_id,
        secret: row.node_secret,
        coord: row.coord,
    }
}

/// A row as a source of further secrets.
pub fn source_of_row(row: &HistoryNodeRow) -> (s: DerivationSource)
    ensures
        s == row_source(*row),
{
    DerivationSource {
        secret_id: row.local_history_node_secret_id,
        secret: row.node_secret,
        coord: row.coord,
    }
}

/// The row of one half of a range, derived from the range.
pub fn make_time_child(frontier: &Frontier, parent: &DerivationSource, side: u8) -> (row:
    HistoryNodeRow)
    requires
        splittable(parent.coord),
        side == 0 || side == 1,
    ensures
        row == time_child(*frontier, *parent, side),
{
    let half: u64 = parent.coord.range_width / 2;
    let start: u64 = if side == 0 {
        parent.coord.range_start
    } else {
        parent.coord.range_start + half
    };
    let child = make_time_coord(start, half);
    let secret = derive_time_secret(parent, side, &child);
    make_node_row(frontier, &parent.secret_id, &child, &secret)
}

/// The row of a trie node or leaf, derived from a node above it.
pub fn make_trie_child(
    frontier: &Frontier,
    parent: &DerivationSource,
    side: u8,
    child: &Coord,
) -> (row: HistoryNodeRow)
    ensures
        row == trie_child(*frontier, *parent, side, *child),
{
    let secret = derive_trie_secret(parent, side, child);
    make_node_row(frontier, &parent.secret_id, child, &secret)
}

/// A frontier's key secret, the root of its tree.
#[derive(Debug, Clone, Copy, PartialEq, Eq)]
pub struct KeySecretRow {
    pub local_key_secret_id: EventId,
    pub frontier: Frontier,
    pub key_secret: EventId,
}

impl View for KeySecretRow {
    type V = KeySecretRow;

    open spec fn view(&self) -> KeySecretRow {
        *self
    }
}

/// The first byte of the canonical bytes of a key secret event.
pub const TYPE_LOCAL_KEY_SECRET: u8 = 75;

/// The canonical bytes of the event behind a key secret row.
pub open spec fn key_secret_bytes(frontier: Frontier, key_secret: EventId) -> Seq<u8> {
    seq![TYPE_LOCAL_KEY_SECRET] + frontier.workspace_id@ + frontier.removal_frontier_id@
        + key_secret@
}

/// The row of a key secret; its id is the id of its event.
pub open spec fn key_secret_row(frontier: Frontier, key_secret: EventId) -> KeySecretRow {
    KeySecretRow {
        local_key_secret_id: event_id_of(key_secret_bytes(frontier, key_secret)),
        frontier,
        key_secret,
    }
}

/// The canonical bytes of the event behind a key secret row.
pub fn encode_key_secret(frontier: &Frontier, key_secret: &EventId) -> (out: Vec<u8>)
    ensures
        out@ == key_secret_bytes(*frontier, *key_secret),
{
    let mut out: Vec<u8> = Vec::new();
    out.push(TYPE_LOCAL_KEY_SECRET);
    extend_bytes(&mut out, frontier.workspace_id.as_slice());
    extend_bytes(&mut out, frontier.removal_frontier_id.as_slice());
    extend_bytes(&mut out, key_secret.as_slice());
    assert(out@ =~= key_secret_bytes(*frontier, *key_secret));
    out
}

/// The row of a key secret; its id is the id of its event.
pub fn make_key_secret_row(frontier: &Frontier, key_secret: &EventId) -> (row: KeySecretRow)
    ensures
        row == key_secret_row(*frontier, *key_secret),
{
    let bytes = encode_key_secret(frontier, key_secret);
    KeySecretRow {
        local_key_secret_id: event_id(bytes.as_slice()),
        frontier: *frontier,
        key_secret: *key_secret,
    }
}

/// The frontier root as a source of secrets: it covers the whole time axis.
pub open spec fn root_source(row: KeySecretRow) -> DerivationSource {
    DerivationSource {
        secret_id: row.local_key_secret_id,
        secret: row.key_secret,
        coord: time_coord(0, TIME_TREE_ROOT_WIDTH),
    }
}

/// The frontier root as a source of secrets: it covers the whole time axis.
pub fn source_of_root(row: &KeySecretRow) -> (s: DerivationSource)
    ensures
        s == root_source(*row),
{
    DerivationSource {
        secret_id: row.local_key_secret_id,
        secret: row.key_secret,
        coord: make_time_coord(0, TIME_TREE_ROOT_WIDTH),
    }
}

/// The width of the root is a power of two.
pub proof fn lemma_root_splittable()
    ensures
        splittable(time_coord(0, TIME_TREE_ROOT_WIDTH)),
{
    reveal_with_fuel(is_pow2, 65);
}

/// The record that a wiped node leaves behind.
#[derive(Debug, Clone, Copy, PartialEq, Eq)]
pub struct NodeTombstoneRow {
    pub frontier: Frontier,
    pub tombstone_node_id: EventId,
    pub replacement_node_id: EventId,
    pub range_start: u64,
    pub range_width: u64,
}

impl View for NodeTombstoneRow {
    type V = NodeTombstoneRow;

    open spec fn view(&self) -> NodeTombstoneRow {
        *self
    }
}

} // verus!
