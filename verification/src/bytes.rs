//! Byte strings: lexicographic order, prefixes, and big-endian integers.
use vstd::prelude::*;

verus! {

/// A 32-byte event id. Connection ids, endpoint ids and symmetric secrets have
/// the same shape.
pub type EventId = [u8; 32];

/// Strict lexicographic order on byte strings, a proper prefix coming first.
pub open spec fn lex_lt(a: Seq<u8>, b: Seq<u8>) -> bool
    decreases a.len(),
{
    if b.len() == 0 {
        false
    } else if a.len() == 0 {
        true
    } else if a[0] != b[0] {
        a[0] < b[0]
    } else {
        lex_lt(a.skip(1), b.skip(1))
    }
}

/// `prefix` is an initial segment of `s`.
pub open spec fn has_prefix(s: Seq<u8>, prefix: Seq<u8>) -> bool {
    prefix.len() <= s.len() && s.take(prefix.len() as int) == prefix
}

/// No byte string comes before itself.
pub proof fn lemma_lex_irreflexive(a: Seq<u8>)
    ensures
        !lex_lt(a, a),
    decreases a.len(),
{
    if a.len() > 0 {
        lemma_lex_irreflexive(a.skip(1));
    }
}

/// The order is transitive.
pub proof fn lemma_lex_transitive(a: Seq<u8>, b: Seq<u8>, c: Seq<u8>)
    requires
        lex_lt(a, b),
        lex_lt(b, c),
    ensures
        lex_lt(a, c),
    decreases a.len(),
{
    if a.len() > 0 && b.len() > 0 && c.len() > 0 && a[0] == b[0] && b[0] == c[0] {
        lemma_lex_transitive(a.skip(1), b.skip(1), c.skip(1));
    }
}

/// Any two different byte strings are ordered.
pub proof fn lemma_lex_total(a: Seq<u8>, b: Seq<u8>)
    ensures
        lex_lt(a, b) || a == b || lex_lt(b, a),
    decreases a.len(),
{
    if a.len() > 0 && b.len() > 0 {
        if a[0] == b[0] {
            lemma_lex_total(a.skip(1), b.skip(1));
            if a.skip(1) == b.skip(1) {
                assert(a =~= seq![a[0]] + a.skip(1));
                assert(b =~= seq![b[0]] + b.skip(1));
            }
        }
    } else if a.len() == 0 && b.len() == 0 {
        assert(a =~= b);
    }
}

/// Two strings that agree up to `i` compare as their bytes at `i` do.
proof fn lemma_lex_at(a: Seq<u8>, b: Seq<u8>, i: int)
    requires
        0 <= i < a.len(),
        i < b.len(),
        a.take(i) == b.take(i),
        a[i] < b[i],
    ensures
        lex_lt(a, b),
    decreases i,
{
    if i > 0 {
        assert(a[0] == a.take(i)[0]);
        assert(b[0] == b.take(i)[0]);
        assert(a.skip(1).take(i - 1) =~= a.take(i).skip(1));
        assert(b.skip(1).take(i - 1) =~= b.take(i).skip(1));
        lemma_lex_at(a.skip(1), b.skip(1), i - 1);
    }
}

/// A proper prefix comes first.
proof fn lemma_lex_shorter(a: Seq<u8>, b: Seq<u8>)
    requires
        a.len() < b.len(),
        b.take(a.len() as int) == a,
    ensures
        lex_lt(a, b),
    decreases a.len(),
{
    if a.len() > 0 {
        assert(a[0] == b.take(a.len() as int)[0]);
        assert(b.skip(1).take(a.len() - 1) =~= b.take(a.len() as int).skip(1));
        lemma_lex_shorter(a.skip(1), b.skip(1));
    }
}

/// Whether `a` comes strictly before `b`.
pub fn bytes_lt(a: &[u8], b: &[u8]) -> (r: bool)
    ensures
        r == lex_lt(a@, b@),
{
    let mut i: usize = 0;
    while i < a.len() && i < b.len()
        invariant
            i <= a.len(),
            i <= b.len(),
            a@.take(i as int) == b@.take(i as int),
        decreases a.len() - i,
    {
        if a[i] < b[i] {
            proof {
                lemma_lex_at(a@, b@, i as int);
            }
            return true;
        }
        if b[i] < a[i] {
            proof {
                lemma_lex_at(b@, a@, i as int);
                if lex_lt(a@, b@) {
                    lemma_lex_transitive(a@, b@, a@);
                    lemma_lex_irreflexive(a@);
                }
            }
            return false;
        }
        assert(a@.take(i + 1) =~= a@.take(i as int).push(a@[i as int]));
        assert(b@.take(i + 1) =~= b@.take(i as int).push(b@[i as int]));
        i = i + 1;
    }
    proof {
        if a.len() < b.len() {
            assert(a@.take(i as int) =~= a@);
            lemma_lex_shorter(a@, b@);
        } else if b.len() < a.len() {
            assert(b@.take(i as int) =~= b@);
            lemma_lex_shorter(b@, a@);
            if lex_lt(a@, b@) {
                lemma_lex_transitive(a@, b@, a@);
                lemma_lex_irreflexive(a@);
            }
        } else {
            assert(a@.take(i as int) =~= a@);
            assert(b@.take(i as int) =~= b@);
            lemma_lex_irreflexive(a@);
        }
    }
    a.len() < b.len()
}

/// Whether two byte strings are the same.
pub fn bytes_eq(a: &[u8], b: &[u8]) -> (r: bool)
    ensures
        r == (a@ == b@),
{
    if a.len() != b.len() {
        return false;
    }
    let mut i: usize = 0;
    while i < a.len()
        invariant
            a.len() == b.len(),
            i <= a.len(),
            forall|j: int| 0 <= j < i ==> a@[j] == b@[j],
        decreases a.len() - i,
    {
        if a[i] != b[i] {
            assert(a@[i as int] != b@[i as int]);
            return false;
        }
        i = i + 1;
    }
    assert(a@ =~= b@);
    true
}

/// Whether `prefix` is an initial segment of `s`.
pub fn starts_with(s: &[u8], prefix: &[u8]) -> (r: bool)
    ensures
        r == has_prefix(s@, prefix@),
{
    if prefix.len() > s.len() {
        return false;
    }
    let mut i: usize = 0;
    while i < prefix.len()
        invariant
            prefix.len() <= s.len(),
            i <= prefix.len(),
            forall|j: int| 0 <= j < i ==> s@[j] == prefix@[j],
        decreases prefix.len() - i,
    {
        if s[i] != prefix[i] {
            assert(s@.take(prefix@.len() as int)[i as int] != prefix@[i as int]);
            return false;
        }
        i = i + 1;
    }
    assert(s@.take(prefix@.len() as int) =~= prefix@);
    true
}

/// Copy a byte string.
pub fn copy_bytes(s: &[u8]) -> (r: Vec<u8>)
    ensures
        r@ == s@,
{
    let mut out: Vec<u8> = Vec::new();
    extend_bytes(&mut out, s);
    out
}

/// Append `s` to `out`.
pub fn extend_bytes(out: &mut Vec<u8>, s: &[u8])
    ensures
        final(out)@ == old(out)@ + s@,
{
    let mut i: usize = 0;
    while i < s.len()
        invariant
            i <= s.len(),
            out@ == old(out)@ + s@.take(i as int),
        decreases s.len() - i,
    {
        out.push(s[i]);
        assert(s@.take(i + 1) =~= s@.take(i as int).push(s@[i as int]));
        i = i + 1;
    }
    assert(s@.take(i as int) =~= s@);
}

/// Whether two ids are the same.
pub fn id_eq(a: &EventId, b: &EventId) -> (r: bool)
    ensures
        r == (*a == *b),
        r == (a@ == b@),
{
    let r = bytes_eq(a.as_slice(), b.as_slice());
    proof {
        if a@ == b@ {
            lemma_id_ext(*a, *b);
        }
    }
    r
}

/// Ids with the same bytes are the same.
pub broadcast proof fn lemma_id_ext(a: EventId, b: EventId)
    ensures
        (#[trigger] a@ == #[trigger] b@) == (a == b),
{
    if a@ == b@ {
        assert(a =~= b);
    }
}

/// The bytes of the id that is all zero.
pub open spec fn zero_bytes() -> Seq<u8> {
    Seq::new(32, |i: int| 0u8)
}

/// The id with given bytes, built from the front.
spec fn id_upto(s: Seq<u8>, n: int) -> EventId
    decreases n,
{
    if n <= 0 {
        arbitrary()
    } else {
        vstd::array::spec_array_update(id_upto(s, n - 1), n - 1, s[n - 1])
    }
}

/// The id with given bytes.
pub closed spec fn id_with(s: Seq<u8>) -> EventId {
    id_upto(s, 32)
}

proof fn lemma_id_upto(s: Seq<u8>, n: int)
    requires
        s.len() == 32,
        0 <= n <= 32,
    ensures
        forall|i: int| 0 <= i < n ==> id_upto(s, n)@[i] == s[i],
    decreases n,
{
    broadcast use vstd::array::group_array_axioms;

    if n > 0 {
        lemma_id_upto(s, n - 1);
        assert(id_upto(s, n)@ == id_upto(s, n - 1)@.update(n - 1, s[n - 1]));
    }
}

/// The id with given bytes has these bytes, and is the only one.
pub proof fn lemma_id_of(s: Seq<u8>, id: EventId)
    requires
        s.len() == 32,
    ensures
        id_with(s)@ == s,
        id@ == s ==> id == id_with(s),
{
    lemma_id_upto(s, 32);
    assert(id_with(s)@ =~= s);
    lemma_id_ext(id, id_with(s));
}

/// An id is the one with its bytes.
pub proof fn lemma_id_with(id: EventId)
    ensures
        id_with(id@) == id,
{
    lemma_id_of(id@, id);
}

/// The id that is all zero.
pub fn zero_id() -> (id: EventId)
    ensures
        id@ == zero_bytes(),
{
    let id: EventId = [0u8; 32];
    assert(id@ =~= zero_bytes());
    id
}

/// Whether every byte of an id is zero.
pub fn id_is_zero(id: &EventId) -> (r: bool)
    ensures
        r == (id@ == zero_bytes()),
{
    id_eq(id, &zero_id())
}

/// Whether one id comes strictly before another.
pub fn id_lt(a: &EventId, b: &EventId) -> (r: bool)
    ensures
        r == lex_lt(a@, b@),
{
    bytes_lt(a.as_slice(), b.as_slice())
}

/// Whether an id is given, and is a certain one.
pub fn is_id(given: &Option<EventId>, id: &EventId) -> (r: bool)
    ensures
        r == (*given == Some(*id)),
{
    match given {
        Some(given) => id_eq(given, id),
        None => false,
    }
}

/// Whether an id is among some.
pub fn contains_id(ids: &Vec<EventId>, id: &EventId) -> (r: bool)
    ensures
        r == ids@.contains(*id),
{
    let mut i: usize = 0;
    while i < ids.len()
        invariant
            i <= ids@.len(),
            forall|j: int| 0 <= j < i ==> (#[trigger] ids@[j]) != *id,
        decreases ids.len() - i,
    {
        if id_eq(&ids[i], id) {
            assert(ids@[i as int] == *id);
            return true;
        }
        i = i + 1;
    }
    false
}

/// The bytes of an id.
pub fn id_bytes(id: &EventId) -> (r: Vec<u8>)
    ensures
        r@ == id@,
{
    copy_bytes(id.as_slice())
}

/// Two ids one after the other.
pub fn id_pair(a: &EventId, b: &EventId) -> (r: Vec<u8>)
    ensures
        r@ == a@ + b@,
{
    let mut out: Vec<u8> = Vec::new();
    extend_bytes(&mut out, a.as_slice());
    extend_bytes(&mut out, b.as_slice());
    out
}

/// The 32 bytes that start at `at`, as an id.
pub fn id_at(bytes: &[u8], at: usize) -> (r: EventId)
    requires
        at + 32 <= bytes@.len(),
    ensures
        r@ == bytes@.subrange(at as int, at + 32),
{
    let mut id: EventId = [0u8; 32];
    let mut i: usize = 0;
    while i < 32
        invariant
            i <= 32,
            at + 32 <= bytes.len(),
            forall|j: int| 0 <= j < i ==> id@[j] == bytes@[at + j],
        decreases 32 - i,
    {
        id[i] = bytes[at + i];
        i = i + 1;
    }
    assert(id@ =~= bytes@.subrange(at as int, at + 32));
    id
}

/// The eight bytes of an integer, most significant first.
pub open spec fn be64(x: u64) -> Seq<u8> {
    seq![
        ((x >> 56) & 0xff) as u8,
        ((x >> 48) & 0xff) as u8,
        ((x >> 40) & 0xff) as u8,
        ((x >> 32) & 0xff) as u8,
        ((x >> 24) & 0xff) as u8,
        ((x >> 16) & 0xff) as u8,
        ((x >> 8) & 0xff) as u8,
        (x & 0xff) as u8,
    ]
}

/// The integer that eight bytes spell, most significant first.
pub open spec fn from_be64(s: Seq<u8>) -> u64 {
    (s[0] as u64) << 56 | (s[1] as u64) << 48 | (s[2] as u64) << 40 | (s[3] as u64) << 32 | (
    s[4] as u64) << 24 | (s[5] as u64) << 16 | (s[6] as u64) << 8 | (s[7] as u64)
}

/// Reading the bytes of an integer gives it back.
pub proof fn lemma_be64_round_trip(x: u64)
    ensures
        from_be64(be64(x)) == x,
        be64(x).len() == 8,
{
    let (a, b, c, d) = (be64(x)[0], be64(x)[1], be64(x)[2], be64(x)[3]);
    let (e, f, g, h) = (be64(x)[4], be64(x)[5], be64(x)[6], be64(x)[7]);
    assert((a as u64) << 56 | (b as u64) << 48 | (c as u64) << 40 | (d as u64) << 32 | (e as u64)
        << 24 | (f as u64) << 16 | (g as u64) << 8 | (h as u64) == x) by (bit_vector)
        requires
            a == ((x >> 56) & 0xff) as u8,
            b == ((x >> 48) & 0xff) as u8,
            c == ((x >> 40) & 0xff) as u8,
            d == ((x >> 32) & 0xff) as u8,
            e == ((x >> 24) & 0xff) as u8,
            f == ((x >> 16) & 0xff) as u8,
            g == ((x >> 8) & 0xff) as u8,
            h == (x & 0xff) as u8,
    ;
}

/// Different integers have different bytes.
pub proof fn lemma_be64_injective(x: u64, y: u64)
    requires
        be64(x) == be64(y),
    ensures
        x == y,
{
    lemma_be64_round_trip(x);
    lemma_be64_round_trip(y);
}

/// The bytes of integers are ordered as the integers are, whatever is behind them.
pub proof fn lemma_be64_ordered(x: u64, y: u64, a: Seq<u8>, b: Seq<u8>)
    requires
        x < y,
    ensures
        lex_lt(be64(x) + a, be64(y) + b),
{
    let (s, t) = (be64(x) + a, be64(y) + b);
    assert(((x >> 56) & 0xff) < ((y >> 56) & 0xff) || (((x >> 56) & 0xff) == ((y >> 56) & 0xff) && (
    ((x >> 48) & 0xff) < ((y >> 48) & 0xff) || (((x >> 48) & 0xff) == ((y >> 48) & 0xff) && (((x
        >> 40) & 0xff) < ((y >> 40) & 0xff) || (((x >> 40) & 0xff) == ((y >> 40) & 0xff) && (((x
        >> 32) & 0xff) < ((y >> 32) & 0xff) || (((x >> 32) & 0xff) == ((y >> 32) & 0xff) && (((x
        >> 24) & 0xff) < ((y >> 24) & 0xff) || (((x >> 24) & 0xff) == ((y >> 24) & 0xff) && (((x
        >> 16) & 0xff) < ((y >> 16) & 0xff) || (((x >> 16) & 0xff) == ((y >> 16) & 0xff) && (((x
        >> 8) & 0xff) < ((y >> 8) & 0xff) || (((x >> 8) & 0xff) == ((y >> 8) & 0xff) && (x & 0xff)
        < (y & 0xff))))))))))))))) by (bit_vector)
        requires
            x < y,
    ;
    lemma_low_byte(x >> 56);
    lemma_low_byte(x >> 48);
    lemma_low_byte(x >> 40);
    lemma_low_byte(x >> 32);
    lemma_low_byte(x >> 24);
    lemma_low_byte(x >> 16);
    lemma_low_byte(x >> 8);
    lemma_low_byte(x);
    lemma_low_byte(y >> 56);
    lemma_low_byte(y >> 48);
    lemma_low_byte(y >> 40);
    lemma_low_byte(y >> 32);
    lemma_low_byte(y >> 24);
    lemma_low_byte(y >> 16);
    lemma_low_byte(y >> 8);
    lemma_low_byte(y);
    let i: int = if s[0] < t[0] {
        0
    } else if s[1] < t[1] {
        1
    } else if s[2] < t[2] {
        2
    } else if s[3] < t[3] {
        3
    } else if s[4] < t[4] {
        4
    } else if s[5] < t[5] {
        5
    } else if s[6] < t[6] {
        6
    } else {
        7
    };
    assert(s.take(i) =~= t.take(i));
    assert(s[i] < t[i]);
    lemma_lex_at(s, t, i);
}

/// The low byte of an integer fits in a byte.
proof fn lemma_low_byte(x: u64)
    ensures
        ((x & 0xff) as u8) as int == (x & 0xff) as int,
{
    assert(x & 0xff < 256) by (bit_vector);
}

/// What stands behind one prefix is ordered as it is alone.
pub proof fn lemma_lex_behind(p: Seq<u8>, a: Seq<u8>, b: Seq<u8>)
    ensures
        lex_lt(p + a, p + b) == lex_lt(a, b),
    decreases p.len(),
{
    if p.len() == 0 {
        assert(p + a =~= a);
        assert(p + b =~= b);
    } else {
        lemma_lex_behind(p.skip(1), a, b);
        assert((p + a).skip(1) =~= p.skip(1) + a);
        assert((p + b).skip(1) =~= p.skip(1) + b);
    }
}

/// Append the eight bytes of an integer.
pub fn put_be64(out: &mut Vec<u8>, x: u64)
    ensures
        final(out)@ == old(out)@ + be64(x),
{
    out.push(((x >> 56) & 0xff) as u8);
    out.push(((x >> 48) & 0xff) as u8);
    out.push(((x >> 40) & 0xff) as u8);
    out.push(((x >> 32) & 0xff) as u8);
    out.push(((x >> 24) & 0xff) as u8);
    out.push(((x >> 16) & 0xff) as u8);
    out.push(((x >> 8) & 0xff) as u8);
    out.push((x & 0xff) as u8);
    assert(out@ =~= old(out)@ + be64(x));
}

/// The integer that the eight bytes from `at` on spell.
pub fn be64_at(bytes: &[u8], at: usize) -> (r: u64)
    requires
        at + 8 <= bytes@.len(),
    ensures
        r == from_be64(bytes@.subrange(at as int, at + 8)),
{
    (bytes[at] as u64) << 56 | (bytes[at + 1] as u64) << 48 | (bytes[at + 2] as u64) << 40 | (
    bytes[at + 3] as u64) << 32 | (bytes[at + 4] as u64) << 24 | (bytes[at + 5] as u64) << 16 | (
    bytes[at + 6] as u64) << 8 | (bytes[at + 7] as u64)
}

/// The two bytes of a short integer, most significant first.
pub open spec fn be16(x: u16) -> Seq<u8> {
    seq![((x >> 8) & 0xff) as u8, (x & 0xff) as u8]
}

/// Different short integers have different bytes.
pub proof fn lemma_be16_injective(x: u16, y: u16)
    requires
        be16(x) == be16(y),
    ensures
        x == y,
{
    let (a, b) = (be16(x)[0], be16(x)[1]);
    assert(a == be16(y)[0] && b == be16(y)[1]);
    assert(x == y) by (bit_vector)
        requires
            a == ((x >> 8) & 0xff) as u8,
            a == ((y >> 8) & 0xff) as u8,
            b == (x & 0xff) as u8,
            b == (y & 0xff) as u8,
    ;
}

/// Append the two bytes of a short integer.
pub fn put_be16(out: &mut Vec<u8>, x: u16)
    ensures
        final(out)@ == old(out)@ + be16(x),
{
    out.push(((x >> 8) & 0xff) as u8);
    out.push((x & 0xff) as u8);
    assert(out@ =~= old(out)@ + be16(x));
}

} // verus!
