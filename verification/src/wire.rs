//! The byte layout of structured values: single bytes, 32-byte ids, big-endian integers and
//! byte strings behind their length.
use vstd::prelude::*;
use vstd::utf8::valid_utf8;
use crate::bytes::{
    be64, be64_at, extend_bytes, from_be64, id_at, id_with, lemma_be64_round_trip, lemma_id_with,
    put_be64, EventId,
};
use crate::text::{check_utf8, prefixed, text, utf8_fault};

verus! {

/// A byte string behind its length.
pub open spec fn sized(b: Seq<u8>) -> Seq<u8> {
    be64(b.len() as u64) + b
}

/// What is said of bytes that end too early.
pub open spec fn truncated_text(what: Seq<char>) -> Seq<char> {
    what + " is truncated"@
}

/// What is said of bytes that do not end where they should.
pub open spec fn trailing_text(what: Seq<char>) -> Seq<char> {
    what + " has trailing bytes"@
}

/// The first byte and what is behind it.
pub open spec fn take_u8(s: Seq<u8>, what: Seq<char>) -> Result<(u8, Seq<u8>), Seq<char>> {
    if s.len() < 1 {
        Err(truncated_text(what))
    } else {
        Ok((s[0], s.skip(1)))
    }
}

/// The first 32 bytes and what is behind them.
pub open spec fn take_id(s: Seq<u8>, what: Seq<char>) -> Result<(EventId, Seq<u8>), Seq<char>> {
    if s.len() < 32 {
        Err(truncated_text(what))
    } else {
        Ok((id_with(s.take(32)), s.skip(32)))
    }
}

/// The integer of the first eight bytes and what is behind them.
pub open spec fn take_u64(s: Seq<u8>, what: Seq<char>) -> Result<(u64, Seq<u8>), Seq<char>> {
    if s.len() < 8 {
        Err(truncated_text(what))
    } else {
        Ok((from_be64(s.take(8)), s.skip(8)))
    }
}

/// The byte string that stands first behind its length, and what is behind it.
pub open spec fn take_sized(s: Seq<u8>, what: Seq<char>) -> Result<(Seq<u8>, Seq<u8>), Seq<char>> {
    match take_u64(s, what) {
        Err(e) => Err(e),
        Ok((n, rest)) => if rest.len() < n {
            Err(truncated_text(what))
        } else {
            Ok((rest.take(n as int), rest.skip(n as int)))
        },
    }
}

/// A byte string behind its length that is UTF-8, and what is behind it; `not_text` goes in
/// front of what is wrong with bytes that are not.
#[verifier::opaque]
pub open spec fn take_text(s: Seq<u8>, what: Seq<char>, not_text: Seq<char>) -> Result<
    (Seq<u8>, Seq<u8>),
    Seq<char>,
> {
    match take_sized(s, what) {
        Err(e) => Err(e),
        Ok((b, rest)) => if valid_utf8(b) {
            Ok((b, rest))
        } else {
            Err(not_text + utf8_fault(b))
        },
    }
}

/// Some ids one after the other.
pub open spec fn ids_bytes(ids: Seq<EventId>) -> Seq<u8>
    decreases ids.len(),
{
    if ids.len() == 0 {
        Seq::empty()
    } else {
        ids_bytes(ids.drop_last()) + ids.last()@
    }
}

/// The first `n` ids and what is behind them.
pub open spec fn take_ids(s: Seq<u8>, n: nat, what: Seq<char>) -> Result<
    (Seq<EventId>, Seq<u8>),
    Seq<char>,
>
    decreases n,
{
    if n == 0 {
        Ok((Seq::empty(), s))
    } else {
        match take_ids(s, (n - 1) as nat, what) {
            Err(e) => Err(e),
            Ok((ids, rest)) => match take_id(rest, what) {
                Err(e) => Err(e),
                Ok((id, rest)) => Ok((ids.push(id), rest)),
            },
        }
    }
}

/// Ids in front are read back.
pub proof fn lemma_take_ids(ids: Seq<EventId>, rest: Seq<u8>, what: Seq<char>)
    ensures
        take_ids(ids_bytes(ids) + rest, ids.len(), what) == Ok::<
            (Seq<EventId>, Seq<u8>),
            Seq<char>,
        >((ids, rest)),
    decreases ids.len(),
{
    if ids.len() == 0 {
        assert(ids_bytes(ids) + rest =~= rest);
        assert(ids =~= Seq::empty());
    } else {
        let head = ids.drop_last();
        lemma_take_ids(head, ids.last()@ + rest, what);
        assert(ids_bytes(ids) + rest =~= ids_bytes(head) + (ids.last()@ + rest));
        lemma_take_id(ids.last(), rest, what);
        assert(head.push(ids.last()) =~= ids);
    }
}

/// A byte in front is read back.
pub proof fn lemma_take_u8(b: u8, rest: Seq<u8>, what: Seq<char>)
    ensures
        take_u8(seq![b] + rest, what) == Ok::<(u8, Seq<u8>), Seq<char>>((b, rest)),
{
    assert((seq![b] + rest).skip(1) =~= rest);
}

/// An id in front is read back.
pub proof fn lemma_take_id(id: EventId, rest: Seq<u8>, what: Seq<char>)
    ensures
        take_id(id@ + rest, what) == Ok::<(EventId, Seq<u8>), Seq<char>>((id, rest)),
{
    assert((id@ + rest).take(32) =~= id@);
    assert((id@ + rest).skip(32) =~= rest);
    lemma_id_with(id);
}

/// An integer in front is read back.
pub proof fn lemma_take_u64(x: u64, rest: Seq<u8>, what: Seq<char>)
    ensures
        take_u64(be64(x) + rest, what) == Ok::<(u64, Seq<u8>), Seq<char>>((x, rest)),
{
    lemma_be64_round_trip(x);
    assert((be64(x) + rest).take(8) =~= be64(x));
    assert((be64(x) + rest).skip(8) =~= rest);
}

/// A byte string in front is read back.
pub proof fn lemma_take_sized(b: Seq<u8>, rest: Seq<u8>, what: Seq<char>)
    requires
        b.len() <= u64::MAX,
    ensures
        take_sized(sized(b) + rest, what) == Ok::<(Seq<u8>, Seq<u8>), Seq<char>>((b, rest)),
{
    assert(sized(b) + rest =~= be64(b.len() as u64) + (b + rest));
    lemma_take_u64(b.len() as u64, b + rest, what);
    assert((b + rest).take(b.len() as int) =~= b);
    assert((b + rest).skip(b.len() as int) =~= rest);
}

/// A text is read back as it was written.
pub proof fn lemma_take_text(b: Seq<u8>, rest: Seq<u8>, what: Seq<char>, not_text: Seq<char>)
    requires
        b.len() <= u64::MAX,
        valid_utf8(b),
    ensures
        take_text(sized(b) + rest, what, not_text) == Ok::<(Seq<u8>, Seq<u8>), Seq<char>>(
            (b, rest),
        ),
{
    reveal(take_text);
    lemma_take_sized(b, rest, what);
}

/// Append a byte string behind its length.
pub fn put_sized(out: &mut Vec<u8>, b: &[u8])
    ensures
        final(out)@ == old(out)@ + sized(b@),
{
    put_be64(out, b.len() as u64);
    extend_bytes(out, b);
    assert(out@ =~= old(out)@ + sized(b@));
}

/// Append an id.
pub fn put_id(out: &mut Vec<u8>, id: &EventId)
    ensures
        final(out)@ == old(out)@ + id@,
{
    extend_bytes(out, id.as_slice());
}

/// Append a byte.
pub fn put_u8(out: &mut Vec<u8>, b: u8)
    ensures
        final(out)@ == old(out)@ + seq![b],
{
    out.push(b);
    assert(out@ =~= old(out)@ + seq![b]);
}

proof fn lemma_take_ids_fails(s: Seq<u8>, m: nat, n: nat, what: Seq<char>)
    requires
        m <= n,
        take_ids(s, m, what) is Err,
    ensures
        take_ids(s, n, what) == take_ids(s, m, what),
    decreases n - m,
{
    if m < n {
        lemma_take_ids_fails(s, m + 1, n, what);
    }
}

/// Bytes that are read from front to back. `what` names them in errors.
pub struct Reader<'a> {
    bytes: &'a [u8],
    at: usize,
    what: &'static str,
}

impl<'a> Reader<'a> {
    pub closed spec fn wf(&self) -> bool {
        self.at <= self.bytes@.len()
    }

    /// What is still to be read.
    pub closed spec fn rest(&self) -> Seq<u8> {
        self.bytes@.skip(self.at as int)
    }

    /// The name of what is read.
    pub closed spec fn what(&self) -> Seq<char> {
        self.what@
    }

    /// Start at the front.
    pub fn new(bytes: &'a [u8], what: &'static str) -> (r: Reader<'a>)
        ensures
            r.wf(),
            r.rest() == bytes@,
            r.what() == what@,
    {
        let r = Reader { bytes, at: 0, what };
        assert(bytes@.skip(0) =~= bytes@);
        r
    }

    fn truncated(&self) -> (e: String)
        ensures
            e@ == truncated_text(self.what()),
    {
        prefixed(self.what, text(" is truncated"))
    }

    /// Read a byte.
    pub fn u8(&mut self) -> (r: Result<u8, String>)
        requires
            old(self).wf(),
        ensures
            final(self).wf(),
            final(self).what() == old(self).what(),
            match take_u8(old(self).rest(), old(self).what()) {
                Ok((b, rest)) => r matches Ok(x) && x == b && final(self).rest() == rest,
                Err(e) => r matches Err(x) && x@ == e,
            },
    {
        if self.at >= self.bytes.len() {
            return Err(self.truncated());
        }
        let b = self.bytes[self.at];
        self.at = self.at + 1;
        assert(self.rest() =~= old(self).rest().skip(1));
        Ok(b)
    }

    /// Read an id.
    pub fn id(&mut self) -> (r: Result<EventId, String>)
        requires
            old(self).wf(),
        ensures
            final(self).wf(),
            final(self).what() == old(self).what(),
            match take_id(old(self).rest(), old(self).what()) {
                Ok((id, rest)) => r matches Ok(x) && x == id && final(self).rest() == rest,
                Err(e) => r matches Err(x) && x@ == e,
            },
    {
        if self.bytes.len() - self.at < 32 {
            return Err(self.truncated());
        }
        let id = id_at(self.bytes, self.at);
        assert(id@ =~= self.rest().take(32));
        proof {
            lemma_id_with(id);
        }
        self.at = self.at + 32;
        assert(self.rest() =~= old(self).rest().skip(32));
        Ok(id)
    }

    /// Read some ids.
    pub fn ids(&mut self, n: usize) -> (r: Result<Vec<EventId>, String>)
        requires
            old(self).wf(),
        ensures
            final(self).wf(),
            final(self).what() == old(self).what(),
            match take_ids(old(self).rest(), n as nat, old(self).what()) {
                Ok((ids, rest)) => r matches Ok(x) && x@ == ids && x@.len() == n
                    && final(self).rest() == rest,
                Err(e) => r matches Err(x) && x@ == e,
            },
    {
        let mut out: Vec<EventId> = Vec::new();
        let mut i: usize = 0;
        while i < n
            invariant
                self.wf(),
                i <= n,
                out@.len() == i,
                self.what() == old(self).what(),
                take_ids(old(self).rest(), i as nat, old(self).what()) == Ok::<
                    (Seq<EventId>, Seq<u8>),
                    Seq<char>,
                >((out@, self.rest())),
            decreases n - i,
        {
            match self.id() {
                Ok(id) => {
                    out.push(id);
                },
                Err(e) => {
                    proof {
                        lemma_take_ids_fails(old(self).rest(), (i + 1) as nat, n as nat, self.what());
                    }
                    return Err(e);
                },
            }
            i = i + 1;
        }
        Ok(out)
    }

    /// Read an integer.
    pub fn u64(&mut self) -> (r: Result<u64, String>)
        requires
            old(self).wf(),
        ensures
            final(self).wf(),
            final(self).what() == old(self).what(),
            match take_u64(old(self).rest(), old(self).what()) {
                Ok((n, rest)) => r matches Ok(x) && x == n && final(self).rest() == rest,
                Err(e) => r matches Err(x) && x@ == e,
            },
    {
        if self.bytes.len() - self.at < 8 {
            return Err(self.truncated());
        }
        let n = be64_at(self.bytes, self.at);
        assert(self.bytes@.subrange(self.at as int, self.at + 8) =~= self.rest().take(8));
        self.at = self.at + 8;
        assert(self.rest() =~= old(self).rest().skip(8));
        Ok(n)
    }

    /// Read a byte string behind its length.
    pub fn sized_bytes(&mut self) -> (r: Result<Vec<u8>, String>)
        requires
            old(self).wf(),
        ensures
            final(self).wf(),
            final(self).what() == old(self).what(),
            match take_sized(old(self).rest(), old(self).what()) {
                Ok((b, rest)) => r matches Ok(x) && x@ == b && final(self).rest() == rest,
                Err(e) => r matches Err(x) && x@ == e,
            },
    {
        let n = match self.u64() {
            Ok(n) => n,
            Err(e) => {
                return Err(e);
            },
        };
        if ((self.bytes.len() - self.at) as u64) < n {
            return Err(self.truncated());
        }
        let end: usize = self.at + n as usize;
        let b = copy_range(self.bytes, self.at, end);
        let ghost mid = self.rest();
        assert(b@ =~= mid.take(n as int));
        self.at = end;
        assert(self.rest() =~= mid.skip(n as int));
        Ok(b)
    }

    /// Read a byte string behind its length that is UTF-8.
    pub fn text_bytes(&mut self, not_text: &str) -> (r: Result<Vec<u8>, String>)
        requires
            old(self).wf(),
        ensures
            final(self).wf(),
            final(self).what() == old(self).what(),
            match take_text(old(self).rest(), old(self).what(), not_text@) {
                Ok((b, rest)) => r matches Ok(x) && x@ == b && final(self).rest() == rest,
                Err(e) => r matches Err(x) && x@ == e,
            },
    {
        proof {
            reveal(take_text);
        }
        let b = match self.sized_bytes() {
            Ok(b) => b,
            Err(e) => {
                return Err(e);
            },
        };
        match check_utf8(b.as_slice()) {
            Ok(_) => Ok(b),
            Err(e) => Err(prefixed(not_text, e)),
        }
    }

    /// Make sure that everything was read.
    pub fn finish(self) -> (r: Result<(), String>)
        requires
            self.wf(),
        ensures
            r is Ok == (self.rest().len() == 0),
            r matches Err(e) ==> e@ == trailing_text(self.what()),
    {
        if self.at == self.bytes.len() {
            Ok(())
        } else {
            Err(prefixed(self.what, text(" has trailing bytes")))
        }
    }
}

/// The bytes from `from` up to `to`.
pub fn copy_range(bytes: &[u8], from: usize, to: usize) -> (r: Vec<u8>)
    requires
        from <= to <= bytes@.len(),
    ensures
        r@ == bytes@.subrange(from as int, to as int),
{
    let mut out: Vec<u8> = Vec::new();
    let mut i: usize = from;
    while i < to
        invariant
            from <= i <= to <= bytes.len(),
            out@ == bytes@.subrange(from as int, i as int),
        decreases to - i,
    {
        out.push(bytes[i]);
        assert(bytes@.subrange(from as int, i + 1) =~= bytes@.subrange(
            from as int,
            i as int,
        ).push(bytes@[i as int]));
        i = i + 1;
    }
    out
}

} // verus!
