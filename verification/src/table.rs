//! Ordered tables: rows kept by byte-string key, listed in key order.
use vstd::prelude::*;
use crate::bytes::{
    bytes_eq, bytes_lt, copy_bytes, has_prefix, lemma_lex_irreflexive, lemma_lex_total,
    lemma_lex_transitive, lex_lt, starts_with,
};

verus! {

/// The keys of `s` come in strictly ascending order.
pub open spec fn ascending(s: Seq<Seq<u8>>) -> bool {
    forall|i: int, j: int| 0 <= i < j < s.len() ==> lex_lt(#[trigger] s[i], #[trigger] s[j])
}

/// `s` holds exactly the keys of `keys`, in ascending order.
pub open spec fn is_listing(s: Seq<Seq<u8>>, keys: Set<Seq<u8>>) -> bool {
    &&& ascending(s)
    &&& forall|k: Seq<u8>| #[trigger] keys.contains(k) <==> s.contains(k)
}

/// The keys of a set in ascending order.
pub open spec fn listing(keys: Set<Seq<u8>>) -> Seq<Seq<u8>> {
    choose|s: Seq<Seq<u8>>| is_listing(s, keys)
}

/// The first `limit` entries of a sequence, or all of it when it is shorter.
pub open spec fn at_most<T>(s: Seq<T>, limit: usize) -> Seq<T> {
    if limit < s.len() {
        s.take(limit as int)
    } else {
        s
    }
}

/// The keys of `keys` that begin with `prefix`.
pub open spec fn with_prefix(keys: Set<Seq<u8>>, prefix: Seq<u8>) -> Set<Seq<u8>> {
    keys.filter(|k: Seq<u8>| has_prefix(k, prefix))
}

/// A set of keys has one listing only.
pub proof fn lemma_listing_unique(a: Seq<Seq<u8>>, b: Seq<Seq<u8>>, keys: Set<Seq<u8>>)
    requires
        is_listing(a, keys),
        is_listing(b, keys),
    ensures
        a == b,
    decreases a.len(),
{
    if a.len() == 0 {
        if b.len() > 0 {
            assert(b.contains(b[0]));
            assert(keys.contains(b[0]));
            assert(a.contains(b[0]));
        }
        assert(a =~= b);
    } else {
        let last = a.last();
        assert(a.contains(last));
        assert(keys.contains(last));
        assert(b.contains(last));
        let i = choose|i: int| 0 <= i < b.len() && b[i] == last;
        if i < b.len() - 1 {
            assert(lex_lt(b[i], b[b.len() - 1]));
            assert(b.contains(b.last()));
            assert(keys.contains(b.last()));
            assert(a.contains(b.last()));
            let j = choose|j: int| 0 <= j < a.len() && a[j] == b.last();
            if j < a.len() - 1 {
                assert(lex_lt(a[j], a[a.len() - 1]));
                lemma_lex_transitive(last, b.last(), last);
            }
            lemma_lex_irreflexive(last);
        }
        assert(b.last() == last);
        let rest = keys.remove(last);
        let (a1, b1) = (a.drop_last(), b.drop_last());
        assert forall|k: Seq<u8>| #[trigger] rest.contains(k) implies a1.contains(k) && b1.contains(
            k,
        ) by {
            assert(keys.contains(k));
            assert(a.contains(k) && b.contains(k));
            let x = choose|x: int| 0 <= x < a.len() && a[x] == k;
            let y = choose|y: int| 0 <= y < b.len() && b[y] == k;
            assert(a1[x] == k);
            assert(b1[y] == k);
        }
        assert forall|k: Seq<u8>| a1.contains(k) implies #[trigger] rest.contains(k) by {
            let x = choose|x: int| 0 <= x < a1.len() && a1[x] == k;
            assert(a[x] == k);
            assert(a.contains(k));
            assert(keys.contains(k));
            assert(lex_lt(a[x], a[a.len() - 1]));
            lemma_lex_irreflexive(k);
        }
        assert forall|k: Seq<u8>| b1.contains(k) implies #[trigger] rest.contains(k) by {
            let x = choose|x: int| 0 <= x < b1.len() && b1[x] == k;
            assert(b[x] == k);
            assert(b.contains(k));
            assert(keys.contains(k));
            assert(lex_lt(b[x], b[b.len() - 1]));
            lemma_lex_irreflexive(k);
        }
        assert(ascending(a1)) by {
            assert forall|p: int, q: int| 0 <= p < q < a1.len() implies lex_lt(
                #[trigger] a1[p],
                #[trigger] a1[q],
            ) by {
                assert(lex_lt(a[p], a[q]));
            }
        }
        assert(ascending(b1)) by {
            assert forall|p: int, q: int| 0 <= p < q < b1.len() implies lex_lt(
                #[trigger] b1[p],
                #[trigger] b1[q],
            ) by {
                assert(lex_lt(b[p], b[q]));
            }
        }
        lemma_listing_unique(a1, b1, rest);
        assert(a =~= a1.push(last));
        assert(b =~= b1.push(last));
    }
}

/// A listing that is known is the listing of its keys.
pub proof fn lemma_listing_is(s: Seq<Seq<u8>>, keys: Set<Seq<u8>>)
    requires
        is_listing(s, keys),
    ensures
        listing(keys) == s,
{
    lemma_listing_unique(listing(keys), s, keys);
}

/// A set with one more key has a listing too.
pub proof fn lemma_listing_insert(s: Seq<Seq<u8>>, keys: Set<Seq<u8>>, k: Seq<u8>)
    requires
        is_listing(s, keys),
    ensures
        is_listing(listing(keys.insert(k)), keys.insert(k)),
{
    if keys.contains(k) {
        assert(keys.insert(k) =~= keys);
        assert(is_listing(s, keys.insert(k)));
    } else {
        let at = lemma_listing_place(s, keys, k);
    }
}

/// A finite set of keys has a listing.
pub proof fn lemma_listing_exists(keys: Set<Seq<u8>>)
    requires
        keys.finite(),
    ensures
        is_listing(listing(keys), keys),
    decreases keys.len(),
{
    if keys.len() == 0 {
        assert(is_listing(Seq::empty(), keys));
    } else {
        let k = keys.choose();
        lemma_listing_exists(keys.remove(k));
        lemma_listing_insert(listing(keys.remove(k)), keys.remove(k), k);
        assert(keys.remove(k).insert(k) =~= keys);
    }
}

/// A new key stands at one place of the listing; the others keep their order.
pub proof fn lemma_listing_place(s: Seq<Seq<u8>>, keys: Set<Seq<u8>>, k: Seq<u8>) -> (at: int)
    requires
        is_listing(s, keys),
        !keys.contains(k),
    ensures
        0 <= at <= s.len(),
        is_listing(listing(keys.insert(k)), keys.insert(k)),
        listing(keys.insert(k)) == s.insert(at, k),
{
    let at = lemma_place_for(s, k, s.len() as int);
    let t = s.insert(at, k);
    assert forall|i: int, j: int| 0 <= i < j < t.len() implies lex_lt(
        #[trigger] t[i],
        #[trigger] t[j],
    ) by {
        if i < at && j < at {
            assert(t[i] == s[i] && t[j] == s[j]);
        } else if i < at && j == at {
            assert(t[i] == s[i]);
        } else if i < at {
            assert(t[i] == s[i] && t[j] == s[j - 1]);
        } else if i == at {
            assert(t[j] == s[j - 1]);
            assert(s.contains(s[j - 1]));
            lemma_lex_total(s[j - 1], k);
        } else {
            assert(t[i] == s[i - 1] && t[j] == s[j - 1]);
        }
    }
    assert forall|x: Seq<u8>| #[trigger] keys.insert(k).contains(x) <==> t.contains(x) by {
        if t.contains(x) && x != k {
            let i = choose|i: int| 0 <= i < t.len() && t[i] == x;
            let i0 = if i < at {
                i
            } else {
                i - 1
            };
            assert(s[i0] == x);
            assert(s.contains(x));
        }
        if s.contains(x) {
            let i = choose|i: int| 0 <= i < s.len() && s[i] == x;
            let i1 = if i < at {
                i
            } else {
                i + 1
            };
            assert(t[i1] == x);
        }
        assert(t[at] == k);
    }
    assert(is_listing(t, keys.insert(k)));
    lemma_listing_is(t, keys.insert(k));
    at
}

/// The place of a key among the first `n` of a listing.
proof fn lemma_place_for(s: Seq<Seq<u8>>, k: Seq<u8>, n: int) -> (at: int)
    requires
        ascending(s),
        0 <= n <= s.len(),
    ensures
        0 <= at <= n,
        forall|i: int| 0 <= i < at ==> lex_lt(#[trigger] s[i], k),
        forall|i: int| at <= i < n ==> !lex_lt(#[trigger] s[i], k),
    decreases n,
{
    if n == 0 {
        0
    } else {
        let p = lemma_place_for(s, k, n - 1);
        if p == n - 1 && lex_lt(s[n - 1], k) {
            n
        } else {
            if p < n - 1 && lex_lt(s[n - 1], k) {
                assert(lex_lt(s[p], s[n - 1]));
                lemma_lex_transitive(s[p], s[n - 1], k);
            }
            p
        }
    }
}

/// An ascending sequence names every key once.
pub proof fn lemma_ascending_distinct(s: Seq<Seq<u8>>)
    requires
        ascending(s),
    ensures
        s.no_duplicates(),
{
    assert forall|i: int, j: int| 0 <= i < s.len() && 0 <= j < s.len() && i != j implies s[i]
        != s[j] by {
        lemma_lex_irreflexive(s[i]);
        if i < j {
            assert(lex_lt(s[i], s[j]));
        } else {
            assert(lex_lt(s[j], s[i]));
        }
    }
}

/// A value that can be copied without loss.
pub trait Duplicate: View + Sized {
    fn duplicate(&self) -> (r: Self)
        ensures
            r@ == self@,
    ;
}

impl Duplicate for Vec<u8> {
    fn duplicate(&self) -> (r: Vec<u8>) {
        copy_bytes(self.as_slice())
    }
}

/// One row of a table.
pub struct Entry<V> {
    pub key: Vec<u8>,
    pub value: V,
}

/// Rows by key. Its view maps each key to the view of its row; listings come in
/// key order.
pub struct Table<V> {
    rows: Vec<Entry<V>>,
}

/// The keys of a sequence of rows, in the same order.
spec fn row_keys<V>(rows: Seq<Entry<V>>) -> Seq<Seq<u8>> {
    rows.map_values(|e: Entry<V>| e.key@)
}

/// The position of the row with a key.
spec fn row_index<V>(rows: Seq<Entry<V>>, k: Seq<u8>) -> int {
    choose|i: int| 0 <= i < rows.len() && #[trigger] rows[i].key@ == k
}

impl<V: View> View for Table<V> {
    type V = Map<Seq<u8>, V::V>;

    closed spec fn view(&self) -> Map<Seq<u8>, V::V> {
        Map::new(
            |k: Seq<u8>| row_keys(self.rows@).contains(k),
            |k: Seq<u8>| self.rows@[row_index(self.rows@, k)].value@,
        )
    }
}

/// The row at a position is the one that its key finds.
proof fn lemma_row_at<V: View>(t: &Table<V>, i: int)
    requires
        t.ordered(),
        0 <= i < t.rows@.len(),
    ensures
        t@.contains_key(t.rows@[i].key@),
        t@[t.rows@[i].key@] == t.rows@[i].value@,
{
    let keys = row_keys(t.rows@);
    lemma_ascending_distinct(keys);
    assert(keys[i] == t.rows@[i].key@);
    assert(keys.contains(keys[i]));
    let j = row_index(t.rows@, keys[i]);
    assert(t.rows@[i].key@ == keys[i]);
    assert(keys[j] == keys[i]);
}

/// A key without a row has no position.
proof fn lemma_row_absent<V: View>(t: &Table<V>, k: Seq<u8>)
    requires
        forall|i: int| 0 <= i < t.rows@.len() ==> #[trigger] t.rows@[i].key@ != k,
    ensures
        !t@.contains_key(k),
{
    if row_keys(t.rows@).contains(k) {
        let i = choose|i: int| 0 <= i < row_keys(t.rows@).len() && row_keys(t.rows@)[i] == k;
        assert(t.rows@[i].key@ == k);
    }
}

impl<V: View> Table<V> {
    spec fn ordered(&self) -> bool {
        ascending(row_keys(self.rows@))
    }

    /// The rows are kept in key order, each key once.
    pub closed spec fn wf(&self) -> bool {
        self.ordered()
    }

    /// A table without rows.
    pub fn new() -> (t: Table<V>)
        ensures
            t.wf(),
            t@ == Map::<Seq<u8>, V::V>::empty(),
    {
        let t = Table { rows: Vec::new() };
        assert(t@ =~= Map::<Seq<u8>, V::V>::empty());
        t
    }

    /// The first position whose key is not before `key`.
    fn seek(&self, key: &[u8]) -> (at: usize)
        requires
            self.wf(),
        ensures
            at <= self.rows@.len(),
            forall|i: int| 0 <= i < at ==> lex_lt(#[trigger] self.rows@[i].key@, key@),
            forall|i: int|
                at <= i < self.rows@.len() ==> !lex_lt(#[trigger] self.rows@[i].key@, key@),
    {
        let mut i: usize = 0;
        while i < self.rows.len()
            invariant
                self.wf(),
                i <= self.rows@.len(),
                forall|j: int| 0 <= j < i ==> lex_lt(#[trigger] self.rows@[j].key@, key@),
            decreases self.rows.len() - i,
        {
            if !bytes_lt(self.rows[i].key.as_slice(), key) {
                proof {
                    assert forall|j: int| i <= j < self.rows@.len() implies !lex_lt(
                        #[trigger] self.rows@[j].key@,
                        key@,
                    ) by {
                        if j > i && lex_lt(self.rows@[j].key@, key@) {
                            let keys = row_keys(self.rows@);
                            assert(lex_lt(keys[i as int], keys[j]));
                            lemma_lex_transitive(
                                self.rows@[i as int].key@,
                                self.rows@[j].key@,
                                key@,
                            );
                        }
                    }
                }
                return i;
            }
            i = i + 1;
        }
        i
    }

    /// The row of a key.
    pub fn get(&self, key: &[u8]) -> (r: Option<&V>)
        requires
            self.wf(),
        ensures
            r.is_some() == self@.contains_key(key@),
            r matches Some(v) ==> v@ == self@[key@],
    {
        let at = self.seek(key);
        if at < self.rows.len() && bytes_eq(self.rows[at].key.as_slice(), key) {
            proof {
                lemma_row_at(self, at as int);
            }
            Some(&self.rows[at].value)
        } else {
            proof {
                assert forall|i: int| 0 <= i < self.rows@.len() implies #[trigger] self.rows@[i].key@
                    != key@ by {
                    lemma_lex_irreflexive(key@);
                    if i > at {
                        let keys = row_keys(self.rows@);
                        assert(lex_lt(keys[at as int], keys[i]));
                    }
                }
                lemma_row_absent(self, key@);
            }
            None
        }
    }

    /// Whether a key has a row.
    pub fn contains(&self, key: &[u8]) -> (r: bool)
        requires
            self.wf(),
        ensures
            r == self@.contains_key(key@),
    {
        self.get(key).is_some()
    }

    /// Add a row unless its key has one already; tells whether it was added.
    pub fn insert(&mut self, key: Vec<u8>, value: V) -> (added: bool)
        requires
            old(self).wf(),
        ensures
            final(self).wf(),
            added == !old(self)@.contains_key(key@),
            final(self)@ == (if added {
                old(self)@.insert(key@, value@)
            } else {
                old(self)@
            }),
    {
        let at = self.seek(key.as_slice());
        if at < self.rows.len() && bytes_eq(self.rows[at].key.as_slice(), key.as_slice()) {
            proof {
                lemma_row_at(self, at as int);
            }
            return false;
        }
        proof {
            assert forall|i: int| 0 <= i < self.rows@.len() implies #[trigger] self.rows@[i].key@
                != key@ by {
                lemma_lex_irreflexive(key@);
                if i > at {
                    let keys = row_keys(self.rows@);
                    assert(lex_lt(keys[at as int], keys[i]));
                }
            }
            lemma_row_absent(self, key@);
        }
        let ghost before = *self;
        let entry = Entry { key, value };
        self.rows.insert(at, entry);
        proof {
            let keys = row_keys(self.rows@);
            let olds = row_keys(before.rows@);
            assert(keys =~= olds.insert(at as int, key@));
            assert forall|i: int, j: int| 0 <= i < j < keys.len() implies lex_lt(
                #[trigger] keys[i],
                #[trigger] keys[j],
            ) by {
                if i < at && j < at {
                    assert(keys[i] == olds[i] && keys[j] == olds[j]);
                } else if i < at && j == at {
                    assert(keys[i] == before.rows@[i].key@);
                } else if i < at {
                    assert(keys[i] == olds[i] && keys[j] == olds[j - 1]);
                } else if i == at {
                    assert(keys[j] == before.rows@[j - 1].key@);
                    lemma_lex_total(keys[j], key@);
                } else {
                    assert(keys[i] == olds[i - 1] && keys[j] == olds[j - 1]);
                }
            }
            lemma_inserted(&before, self, at as int, entry);
        }
        true
    }

    /// Give a key a row, in place of the one that it has.
    pub fn put(&mut self, key: Vec<u8>, value: V)
        requires
            old(self).wf(),
        ensures
            final(self).wf(),
            final(self)@ == old(self)@.insert(key@, value@),
    {
        let _ = self.remove(key.as_slice());
        let ghost mid = self@;
        let _ = self.insert(key, value);
        assert(self@ =~= old(self)@.insert(key@, value@));
    }

    /// Take the row of a key out of the table.
    pub fn remove(&mut self, key: &[u8]) -> (r: Option<V>)
        requires
            old(self).wf(),
        ensures
            final(self).wf(),
            final(self)@ == old(self)@.remove(key@),
            r.is_some() == old(self)@.contains_key(key@),
            r matches Some(v) ==> v@ == old(self)@[key@],
    {
        let at = self.seek(key);
        if at < self.rows.len() && bytes_eq(self.rows[at].key.as_slice(), key) {
            proof {
                lemma_row_at(self, at as int);
            }
            let ghost before = *self;
            let entry = self.rows.remove(at);
            proof {
                let keys = row_keys(self.rows@);
                let olds = row_keys(before.rows@);
                assert(keys =~= olds.remove(at as int));
                assert forall|i: int, j: int| 0 <= i < j < keys.len() implies lex_lt(
                    #[trigger] keys[i],
                    #[trigger] keys[j],
                ) by {
                    let i0 = if i < at {
                        i
                    } else {
                        i + 1
                    };
                    let j0 = if j < at {
                        j
                    } else {
                        j + 1
                    };
                    assert(keys[i] == olds[i0] && keys[j] == olds[j0]);
                }
                lemma_removed(&before, self, at as int);
            }
            Some(entry.value)
        } else {
            proof {
                assert forall|i: int| 0 <= i < self.rows@.len() implies #[trigger] self.rows@[i].key@
                    != key@ by {
                    lemma_lex_irreflexive(key@);
                    if i > at {
                        let keys = row_keys(self.rows@);
                        assert(lex_lt(keys[at as int], keys[i]));
                    }
                }
                lemma_row_absent(self, key@);
                assert(self@ =~= old(self)@.remove(key@));
            }
            None
        }
    }

    /// The keys that begin with `prefix`, in key order, the first `limit` of them.
    pub fn keys_with_prefix(&self, prefix: &[u8], limit: usize) -> (r: Vec<Vec<u8>>)
        requires
            self.wf(),
        ensures
            key_views(r@) == at_most(listing(with_prefix(self@.dom(), prefix@)), limit),
            is_listing(
                listing(with_prefix(self@.dom(), prefix@)),
                with_prefix(self@.dom(), prefix@),
            ),
            listing(with_prefix(self@.dom(), prefix@)).len() <= usize::MAX,
    {
        let ghost keys = row_keys(self.rows@);
        let ghost keep = |k: Seq<u8>| has_prefix(k, prefix@);
        let ghost all = keys.filter(keep);
        let ghost dom = with_prefix(self@.dom(), prefix@);
        let mut out: Vec<Vec<u8>> = Vec::new();
        let mut i: usize = 0;
        proof {
            reveal(Seq::filter);
            assert(keys.take(0).filter(keep) =~= Seq::<Seq<u8>>::empty());
            assert(key_views(out@) =~= Seq::<Seq<u8>>::empty());
        }
        while i < self.rows.len() && out.len() < limit
            invariant
                i <= self.rows@.len(),
                out@.len() <= limit,
                keys == row_keys(self.rows@),
                keep == (|k: Seq<u8>| has_prefix(k, prefix@)),
                key_views(out@) == keys.take(i as int).filter(keep),
            decreases self.rows.len() - i,
        {
            proof {
                lemma_filter_step(keys, keep, i as int);
            }
            if starts_with(self.rows[i].key.as_slice(), prefix) {
                let key = copy_bytes(self.rows[i].key.as_slice());
                let ghost before = out@;
                out.push(key);
                assert(key_views(out@) =~= key_views(before).push(key@));
            }
            i = i + 1;
        }
        proof {
            lemma_listing_of_rows(self, prefix@);
            lemma_listing_is(all, dom);
            lemma_filter_ascending(keys, keep);
            assert(keys.len() == self.rows.len());
            lemma_filter_split(keys, keep, i as int);
            assert(key_views(out@) == keys.take(i as int).filter(keep));
            if i == self.rows@.len() {
                assert(keys.take(i as int) =~= keys);
                assert(at_most(all, limit) =~= key_views(out@)) by {
                    if limit < all.len() {
                        assert(out@.len() <= limit);
                        assert(key_views(out@).len() == all.len());
                    }
                }
            } else {
                assert(out@.len() == limit);
                assert(all.take(limit as int) =~= key_views(out@));
                if limit == all.len() {
                    assert(all.take(limit as int) =~= all);
                }
            }
        }
        out
    }

    /// How many rows the table has.
    pub fn len(&self) -> (n: usize)
        requires
            self.wf(),
        ensures
            self@.dom().finite(),
            n == self@.dom().len(),
    {
        proof {
            let keys = row_keys(self.rows@);
            lemma_ascending_distinct(keys);
            keys.unique_seq_to_set();
            assert(keys.to_set() =~= self@.dom());
            vstd::seq_lib::seq_to_set_is_finite(keys);
        }
        self.rows.len()
    }
}

impl<V: Duplicate> Table<V> {
    /// A copy of the table.
    pub fn duplicate(&self) -> (r: Table<V>)
        requires
            self.wf(),
        ensures
            r.wf(),
            r@ == self@,
    {
        let mut rows: Vec<Entry<V>> = Vec::new();
        let mut i: usize = 0;
        while i < self.rows.len()
            invariant
                i <= self.rows@.len(),
                rows@.len() == i,
                forall|j: int|
                    0 <= j < i ==> (#[trigger] rows@[j]).key@ == self.rows@[j].key@
                        && rows@[j].value@ == self.rows@[j].value@,
            decreases self.rows.len() - i,
        {
            let key = copy_bytes(self.rows[i].key.as_slice());
            let value = self.rows[i].value.duplicate();
            rows.push(Entry { key, value });
            i = i + 1;
        }
        let r = Table { rows };
        proof {
            assert(row_keys(r.rows@) =~= row_keys(self.rows@));
            assert forall|k: Seq<u8>| #[trigger] self@.contains_key(k) implies r@[k] == self@[k] by {
                let keys = row_keys(self.rows@);
                let x = choose|x: int| 0 <= x < keys.len() && keys[x] == k;
                assert(self.rows@[x].key@ == k);
                assert(r.rows@[x].key@ == k);
                lemma_row_at(self, x);
                lemma_row_at(&r, x);
            }
            assert(r@ =~= self@);
        }
        r
    }
}

/// The views of a sequence of keys.
pub open spec fn key_views(keys: Seq<Vec<u8>>) -> Seq<Seq<u8>> {
    keys.map_values(|k: Vec<u8>| k@)
}

proof fn lemma_inserted<V: View>(before: &Table<V>, after: &Table<V>, at: int, entry: Entry<V>)
    requires
        before.ordered(),
        after.ordered(),
        0 <= at <= before.rows@.len(),
        after.rows@ == before.rows@.insert(at, entry),
        !before@.contains_key(entry.key@),
    ensures
        after@ == before@.insert(entry.key@, entry.value@),
{
    let want = before@.insert(entry.key@, entry.value@);
    assert forall|k: Seq<u8>| #[trigger] after@.contains_key(k) implies want.contains_key(k)
        && want[k] == after@[k] by {
        let keys = row_keys(after.rows@);
        let i = choose|i: int| 0 <= i < keys.len() && keys[i] == k;
        assert(after.rows@[i].key@ == k);
        lemma_row_at(after, i);
        if i < at {
            assert(after.rows@[i] == before.rows@[i]);
            lemma_row_at(before, i);
        } else if i > at {
            assert(after.rows@[i] == before.rows@[i - 1]);
            lemma_row_at(before, i - 1);
        }
    }
    assert forall|k: Seq<u8>| #[trigger] want.contains_key(k) implies after@.contains_key(k) by {
        if k == entry.key@ {
            assert(after.rows@[at].key@ == k);
            lemma_row_at(after, at);
        } else {
            let olds = row_keys(before.rows@);
            let i = choose|i: int| 0 <= i < olds.len() && olds[i] == k;
            assert(before.rows@[i].key@ == k);
            if i < at {
                assert(after.rows@[i] == before.rows@[i]);
                lemma_row_at(after, i);
            } else {
                assert(after.rows@[i + 1] == before.rows@[i]);
                lemma_row_at(after, i + 1);
            }
        }
    }
    assert(after@ =~= want);
}

proof fn lemma_removed<V: View>(before: &Table<V>, after: &Table<V>, at: int)
    requires
        before.ordered(),
        after.ordered(),
        0 <= at < before.rows@.len(),
        after.rows@ == before.rows@.remove(at),
    ensures
        after@ == before@.remove(before.rows@[at].key@),
{
    let gone = before.rows@[at].key@;
    let want = before@.remove(gone);
    let olds = row_keys(before.rows@);
    lemma_ascending_distinct(olds);
    assert forall|k: Seq<u8>| #[trigger] after@.contains_key(k) implies want.contains_key(k)
        && want[k] == after@[k] by {
        let keys = row_keys(after.rows@);
        let i = choose|i: int| 0 <= i < keys.len() && keys[i] == k;
        let i0 = if i < at {
            i
        } else {
            i + 1
        };
        assert(after.rows@[i] == before.rows@[i0]);
        lemma_row_at(after, i);
        lemma_row_at(before, i0);
        assert(olds[i0] != olds[at]);
    }
    assert forall|k: Seq<u8>| #[trigger] want.contains_key(k) implies after@.contains_key(k) by {
        let i = choose|i: int| 0 <= i < olds.len() && olds[i] == k;
        assert(i != at);
        if i < at {
            assert(after.rows@[i] == before.rows@[i]);
            lemma_row_at(after, i);
        } else {
            assert(after.rows@[i - 1] == before.rows@[i]);
            lemma_row_at(after, i - 1);
        }
    }
    assert(after@ =~= want);
}

proof fn lemma_filter_step(s: Seq<Seq<u8>>, keep: spec_fn(Seq<u8>) -> bool, i: int)
    requires
        0 <= i < s.len(),
    ensures
        s.take(i + 1).filter(keep) == (if keep(s[i]) {
            s.take(i).filter(keep).push(s[i])
        } else {
            s.take(i).filter(keep)
        }),
{
    reveal(Seq::filter);
    assert(s.take(i + 1).drop_last() =~= s.take(i));
}

proof fn lemma_filter_split(s: Seq<Seq<u8>>, keep: spec_fn(Seq<u8>) -> bool, i: int)
    requires
        0 <= i <= s.len(),
    ensures
        s.take(i).filter(keep).len() <= s.filter(keep).len(),
        s.filter(keep).take(s.take(i).filter(keep).len() as int) == s.take(i).filter(keep),
    decreases s.len() - i,
{
    if i == s.len() {
        assert(s.take(i) =~= s);
        assert(s.filter(keep).take(s.filter(keep).len() as int) =~= s.filter(keep));
    } else {
        lemma_filter_split(s, keep, i + 1);
        lemma_filter_step(s, keep, i);
        let head = s.take(i).filter(keep);
        assert(s.filter(keep).take(head.len() as int) =~= s.filter(keep).take(
            s.take(i + 1).filter(keep).len() as int,
        ).take(head.len() as int));
        assert(s.take(i + 1).filter(keep).take(head.len() as int) =~= head);
    }
}

proof fn lemma_filter_ascending(s: Seq<Seq<u8>>, keep: spec_fn(Seq<u8>) -> bool)
    requires
        ascending(s),
    ensures
        ascending(s.filter(keep)),
        s.filter(keep).len() <= s.len(),
        forall|k: Seq<u8>| #[trigger] s.filter(keep).contains(k) <==> s.contains(k) && keep(k),
    decreases s.len(),
{
    reveal(Seq::filter);
    if s.len() > 0 {
        let t = s.drop_last();
        assert forall|i: int, j: int| 0 <= i < j < t.len() implies lex_lt(
            #[trigger] t[i],
            #[trigger] t[j],
        ) by {
            assert(lex_lt(s[i], s[j]));
        }
        lemma_filter_ascending(t, keep);
        let f = t.filter(keep);
        let g = s.filter(keep);
        if keep(s.last()) {
            assert(g == f.push(s.last()));
            assert forall|i: int, j: int| 0 <= i < j < g.len() implies lex_lt(
                #[trigger] g[i],
                #[trigger] g[j],
            ) by {
                if j < f.len() {
                    assert(f[i] == g[i] && f[j] == g[j]);
                } else {
                    assert(f[i] == g[i]);
                    assert(f.contains(f[i]));
                    let p = choose|p: int| 0 <= p < t.len() && t[p] == f[i];
                    assert(lex_lt(s[p], s[s.len() - 1]));
                }
            }
        } else {
            assert(g == f);
        }
        assert forall|k: Seq<u8>| #[trigger] g.contains(k) implies s.contains(k) && keep(k) by {
            let i = choose|i: int| 0 <= i < g.len() && g[i] == k;
            if i < f.len() {
                assert(f[i] == k);
                assert(f.contains(k));
                let p = choose|p: int| 0 <= p < t.len() && t[p] == k;
                assert(s[p] == k);
            } else {
                assert(s[s.len() - 1] == k);
            }
        }
        assert forall|k: Seq<u8>| s.contains(k) && keep(k) implies #[trigger] g.contains(k) by {
            let p = choose|p: int| 0 <= p < s.len() && s[p] == k;
            if p < t.len() {
                assert(t[p] == k);
                assert(f.contains(k));
                let i = choose|i: int| 0 <= i < f.len() && f[i] == k;
                assert(g[i] == k);
            } else {
                assert(g[g.len() - 1] == k);
            }
        }
    } else {
        assert(s.filter(keep) =~= Seq::<Seq<u8>>::empty());
    }
}

proof fn lemma_listing_of_rows<V: View>(t: &Table<V>, prefix: Seq<u8>)
    requires
        t.ordered(),
    ensures
        is_listing(
            row_keys(t.rows@).filter(|k: Seq<u8>| has_prefix(k, prefix)),
            with_prefix(t@.dom(), prefix),
        ),
{
    let keys = row_keys(t.rows@);
    let keep = |k: Seq<u8>| has_prefix(k, prefix);
    lemma_filter_ascending(keys, keep);
    let dom = with_prefix(t@.dom(), prefix);
    assert forall|k: Seq<u8>| #[trigger] dom.contains(k) <==> keys.filter(keep).contains(k) by {
        assert(t@.dom().contains(k) == keys.contains(k));
    }
}

/// A table has finitely many rows, no more than a `usize` can count.
pub proof fn lemma_table_finite<V: View>(t: &Table<V>)
    requires
        t.wf(),
    ensures
        t@.dom().finite(),
        t@.dom().len() <= usize::MAX,
{
    let keys = row_keys(t.rows@);
    lemma_ascending_distinct(keys);
    keys.unique_seq_to_set();
    assert(keys.to_set() =~= t@.dom());
    vstd::seq_lib::seq_to_set_is_finite(keys);
    assert(t.rows@.len() == t.rows.len());
}

/// Every table has a listing of its keys.
pub proof fn lemma_table_listing<V: View>(t: &Table<V>, prefix: Seq<u8>)
    requires
        t.wf(),
    ensures
        is_listing(listing(with_prefix(t@.dom(), prefix)), with_prefix(t@.dom(), prefix)),
{
    lemma_listing_of_rows(t, prefix);
}

/// No more keys than a `usize` can count.
pub open spec fn countable(keys: Set<Seq<u8>>) -> bool {
    keys.finite() && keys.len() <= usize::MAX
}

/// The listing of the keys with a prefix holds these keys, each once.
pub proof fn lemma_prefix_listed(keys: Set<Seq<u8>>, prefix: Seq<u8>)
    requires
        countable(keys),
    ensures
        is_listing(listing(with_prefix(keys, prefix)), with_prefix(keys, prefix)),
        listing(with_prefix(keys, prefix)).no_duplicates(),
        listing(with_prefix(keys, prefix)).len() <= keys.len(),
        at_most(listing(with_prefix(keys, prefix)), usize::MAX) == listing(
            with_prefix(keys, prefix),
        ),
        forall|k: Seq<u8>| #[trigger]
            listing(with_prefix(keys, prefix)).contains(k) <==> keys.contains(k) && has_prefix(
                k,
                prefix,
            ),
{
    let some = with_prefix(keys, prefix);
    keys.lemma_len_filter(|k: Seq<u8>| has_prefix(k, prefix));
    lemma_listing_exists(some);
    let all = listing(some);
    lemma_ascending_distinct(all);
    all.unique_seq_to_set();
    assert(all.to_set() =~= some);
    assert forall|k: Seq<u8>| #[trigger] all.contains(k) <==> keys.contains(k) && has_prefix(
        k,
        prefix,
    ) by {
        assert(some.contains(k) <==> keys.contains(k) && has_prefix(k, prefix));
    }
}

} // verus!
