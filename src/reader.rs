//! Byte streams: an in-memory reader, and a reader bounded by a byte budget
//! that fails on overrun instead of truncating silently.

use vstd::prelude::*;

use crate::error::ObjectError;

verus! {

/// The index of the first `b` in `s`, if any.
pub open spec fn index_of(s: Seq<u8>, b: u8) -> Option<nat>
    decreases s.len(),
{
    if s.len() == 0 {
        None
    } else if s[0] == b {
        Some(0)
    } else {
        match index_of(s.drop_first(), b) {
            Some(i) => Some(i + 1),
            None => None,
        }
    }
}

/// `index_of` agrees with a scan that stopped at `k`.
pub proof fn lemma_index_of(s: Seq<u8>, b: u8, k: int)
    requires
        0 <= k <= s.len(),
        forall|j: int| 0 <= j < k ==> s[j] != b,
    ensures
        k < s.len() && s[k] == b ==> index_of(s, b) == Some(k as nat),
        k == s.len() ==> index_of(s, b) is None,
    decreases s.len(),
{
    if s.len() > 0 && k > 0 {
        lemma_index_of(s.drop_first(), b, k - 1);
    }
}

/// What `index_of` says of the sequence.
pub proof fn lemma_index_of_props(s: Seq<u8>, b: u8)
    ensures
        index_of(s, b) matches Some(i) ==> i < s.len() && s[i as int] == b && forall|j: int|
            0 <= j < i ==> s[j] != b,
        index_of(s, b) is None ==> forall|j: int| 0 <= j < s.len() ==> s[j] != b,
    decreases s.len(),
{
    if s.len() > 0 {
        lemma_index_of_props(s.drop_first(), b);
        assert forall|j: int| 1 <= j < s.len() implies s[j] == s.drop_first()[j - 1] by {}
    }
}

/// The index of the first `b` in `s`, if any.
pub fn position_of(s: &[u8], b: u8) -> (r: Option<usize>)
    ensures
        r matches Some(i) ==> index_of(s@, b) == Some(i as nat),
        r is None ==> index_of(s@, b) is None,
{
    let mut i: usize = 0;
    while i < s.len()
        invariant
            i <= s@.len(),
            forall|j: int| 0 <= j < i ==> s@[j] != b,
        decreases s@.len() - i,
    {
        if s[i] == b {
            proof {
                lemma_index_of(s@, b, i as int);
            }
            return Some(i);
        }
        i = i + 1;
    }
    proof {
        lemma_index_of(s@, b, i as int);
    }
    None
}

/// How many bytes `read_until` takes from `s`: up to and including the first
/// `b`, or everything when there is none.
pub open spec fn until_len(s: Seq<u8>, b: u8) -> nat {
    match index_of(s, b) {
        Some(i) => i + 1,
        None => s.len(),
    }
}

/// A forward-only reader over bytes held in memory.
pub struct ByteReader {
    data: Vec<u8>,
    pos: usize,
}

impl View for ByteReader {
    /// The bytes not yet read.
    type V = Seq<u8>;

    closed spec fn view(&self) -> Seq<u8> {
        self.data@.subrange(self.pos as int, self.data@.len() as int)
    }
}

impl ByteReader {
    #[verifier::type_invariant]
    spec fn inv(&self) -> bool {
        self.pos <= self.data@.len()
    }

    /// A reader at the start of `data`.
    pub fn new(data: Vec<u8>) -> (r: ByteReader)
        ensures
            r@ == data@,
    {
        let r = ByteReader { data, pos: 0 };
        assert(r@ =~= r.data@);
        r
    }

    /// The number of bytes not yet read.
    pub fn remaining(&self) -> (r: usize)
        ensures
            r == self@.len(),
    {
        proof {
            use_type_invariant(self);
        }
        self.data.len() - self.pos
    }

    /// Reads up to `max` bytes; fewer only at the end of the data.
    pub fn read(&mut self, max: usize) -> (r: Vec<u8>)
        ensures
            r@.len() == if max <= old(self)@.len() { max as nat } else { old(self)@.len() },
            r@ == old(self)@.subrange(0, r@.len() as int),
            final(self)@ == old(self)@.subrange(r@.len() as int, old(self)@.len() as int),
    {
        proof {
            use_type_invariant(&*self);
        }
        let avail = self.data.len() - self.pos;
        let n = if max <= avail { max } else { avail };
        let mut out: Vec<u8> = Vec::new();
        let start = self.pos;
        let mut i: usize = 0;
        while i < n
            invariant
                start == self.pos,
                self.pos + n <= self.data@.len(),
                self.data@.len() <= usize::MAX,
                i <= n,
                out@ == self.data@.subrange(start as int, start + i),
            decreases n - i,
        {
            out.push(self.data[start + i]);
            i = i + 1;
            assert(out@ =~= self.data@.subrange(start as int, start + i));
        }
        self.pos = start + n;
        assert(out@ =~= old(self)@.subrange(0, n as int));
        assert(self@ =~= old(self)@.subrange(n as int, old(self)@.len() as int));
        out
    }

    /// Reads up to and including the first `delim`, or to the end of the
    /// data when there is none.
    pub fn read_until(&mut self, delim: u8) -> (r: Vec<u8>)
        ensures
            r@ == old(self)@.subrange(0, until_len(old(self)@, delim) as int),
            final(self)@ == old(self)@.subrange(
                until_len(old(self)@, delim) as int,
                old(self)@.len() as int,
            ),
    {
        proof {
            use_type_invariant(&*self);
        }
        let ghost s = self@;
        let len = self.data.len();
        let mut i = self.pos;
        while i < len && self.data[i] != delim
            invariant
                self.pos <= i <= len,
                len == self.data@.len(),
                s == self.data@.subrange(self.pos as int, len as int),
                forall|j: int| 0 <= j < i - self.pos ==> s[j] != delim,
            decreases len - i,
        {
            i = i + 1;
        }
        proof {
            lemma_index_of(s, delim, i - self.pos);
        }
        let n = if i < len { i - self.pos + 1 } else { i - self.pos };
        self.read(n)
    }
}

/// How many bytes a read of `max` takes from an inner reader holding
/// `avail` bytes under a budget of `limit`: at most one past the budget is
/// asked for.
pub open spec fn limited_read_len(avail: nat, limit: nat, max: nat) -> nat {
    let ask = if max > limit {
        limit + 1
    } else {
        max
    };
    if ask <= avail {
        ask
    } else {
        avail
    }
}

/// A reader that hands out at most `limit` more bytes of an inner reader,
/// and fails as soon as the inner reader offers more than that.
pub struct LimitReader {
    reader: ByteReader,
    limit: usize,
}

impl LimitReader {
    /// A reader over `reader` with a budget of `limit` bytes.
    pub fn new(reader: ByteReader, limit: usize) -> (r: LimitReader)
        ensures
            r.inner_view() == reader@,
            r.limit_view() == limit,
    {
        LimitReader { reader, limit }
    }

    /// The bytes that the inner reader still holds.
    pub closed spec fn inner_view(&self) -> Seq<u8> {
        self.reader@
    }

    /// The budget left.
    pub closed spec fn limit_view(&self) -> nat {
        self.limit as nat
    }

    /// The budget left.
    pub fn limit(&self) -> (r: usize)
        ensures
            r == self.limit_view(),
    {
        self.limit
    }

    /// Reads up to `max` bytes. At most one byte past the budget is asked of
    /// the inner reader; where it yields more than the budget, the read
    /// fails with `TrailingData`.
    pub fn read(&mut self, max: usize) -> (r: Result<Vec<u8>, ObjectError>)
        ensures
            final(self).inner_view() == old(self).inner_view().subrange(
                limited_read_len(old(self).inner_view().len(), old(self).limit_view(), max as nat)
                    as int,
                old(self).inner_view().len() as int,
            ),
            limited_read_len(old(self).inner_view().len(), old(self).limit_view(), max as nat)
                > old(self).limit_view() ==> r == Err::<Vec<u8>, ObjectError>(
                ObjectError::TrailingData,
            ) && final(self).limit_view() == old(self).limit_view(),
            limited_read_len(old(self).inner_view().len(), old(self).limit_view(), max as nat)
                <= old(self).limit_view() ==> (r matches Ok(v) && v@ == old(self).inner_view().subrange(
                0,
                v@.len() as int,
            ) && v@.len() == limited_read_len(
                old(self).inner_view().len(),
                old(self).limit_view(),
                max as nat,
            ) && final(self).limit_view() == old(self).limit_view() - v@.len()),
    {
        let ask = if max > self.limit {
            self.limit + 1
        } else {
            max
        };
        let out = self.reader.read(ask);
        let n = out.len();
        if n > self.limit {
            return Err(ObjectError::TrailingData);
        }
        self.limit = self.limit - n;
        Ok(out)
    }

    /// Gives back the inner reader.
    pub fn into_inner(self) -> (r: ByteReader)
        ensures
            r@ == self.inner_view(),
    {
        self.reader
    }
}

} // verus!
