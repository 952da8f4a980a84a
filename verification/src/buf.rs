//! The growable buffer facade.
//!
//! A [`Buf`] behaves like a length/capacity byte vector whose capacity is
//! fixed at creation: writes past the capacity are refused rather than
//! reallocating.  Its storage is a block drawn from a [`crate::pool::BufPool`]
//! and is handed back to that pool with [`crate::pool::BufPool::release`].

use vstd::prelude::*;
use crate::model::BlockModel;
use crate::sizes::is_pow2;

verus! {

/// The model of a growable buffer: its block's base address, its logical
/// length, and the full backing store (`capacity` bytes; the logical contents
/// are the first `len` of them).
pub ghost struct BufModel {
    pub addr: nat,
    pub len: nat,
    pub store: Seq<u8>,
}

impl BufModel {
    /// The logical contents: the first `len` stored bytes.
    pub open spec fn contents(self) -> Seq<u8> {
        self.store.take(self.len as int)
    }

    /// Well-formedness: the length never exceeds the capacity, the capacity
    /// is a power of two that fits a machine word, and the address is the
    /// nonzero address of a real block.
    pub open spec fn wf(self) -> bool {
        &&& self.len <= self.store.len()
        &&& is_pow2(self.store.len())
        &&& self.store.len() <= usize::MAX
        &&& self.addr >= 1
    }
}

/// The block a buffer occupies, as handed back to a pool on release.
pub open spec fn block_of(b: BufModel) -> BlockModel {
    BlockModel { addr: b.addr, bytes: b.store }
}

/// A growable byte buffer over pooled storage: a block address, a logical
/// length, and the block's bytes.
#[derive(Debug)]
pub struct Buf {
    pub(crate) addr: usize,
    pub(crate) len: usize,
    pub(crate) bytes: Vec<u8>,
}

impl View for Buf {
    type V = BufModel;

    closed spec fn view(&self) -> BufModel {
        BufModel { addr: self.addr as nat, len: self.len as nat, store: self.bytes@ }
    }
}

/// Lexicographic order on byte sequences: -1 when `a` orders below `b`, 0
/// when they are equal, 1 when `a` orders above `b`.  A proper prefix orders
/// below its extension.
pub open spec fn lex_cmp(a: Seq<u8>, b: Seq<u8>) -> int
    decreases a.len(),
{
    if a.len() == 0 && b.len() == 0 {
        0
    } else if a.len() == 0 {
        -1
    } else if b.len() == 0 {
        1
    } else if a[0] < b[0] {
        -1
    } else if a[0] > b[0] {
        1
    } else {
        lex_cmp(a.drop_first(), b.drop_first())
    }
}

/// A common prefix does not decide the order: comparison continues on the
/// remainders.
pub proof fn lemma_lex_cmp_skip(a: Seq<u8>, b: Seq<u8>, i: nat)
    requires
        i <= a.len(),
        i <= b.len(),
        forall|j: int| 0 <= j < i ==> a[j] == b[j],
    ensures
        lex_cmp(a, b) == lex_cmp(a.skip(i as int), b.skip(i as int)),
    decreases i,
{
    if i > 0 {
        lemma_lex_cmp_skip(a.drop_first(), b.drop_first(), (i - 1) as nat);
        assert(a.skip(i as int) =~= a.drop_first().skip(i as int - 1));
        assert(b.skip(i as int) =~= b.drop_first().skip(i as int - 1));
    } else {
        assert(a.skip(0) =~= a);
        assert(b.skip(0) =~= b);
    }
}

/// Crate-internal: how a buffer's view relates to its representation.
pub(crate) proof fn lemma_buf_view(b: &Buf)
    ensures
        b@.addr == b.addr as nat,
        b@.len == b.len as nat,
        b@.store == b.bytes@,
{
}

impl Buf {
    /// The buffer is well formed.
    pub open spec fn wf(self) -> bool {
        self@.wf()
    }

    /// Capacity: how many bytes the buffer can hold without growing.
    pub fn capacity(&self) -> (r: usize)
        ensures
            r == self@.store.len(),
    {
        self.bytes.len()
    }

    /// Current logical length.
    pub fn len(&self) -> (r: usize)
        ensures
            r == self@.len,
    {
        self.len
    }

    /// The buffer's block address: the identity of its backing storage.
    pub fn address(&self) -> (r: usize)
        ensures
            r == self@.addr,
    {
        self.addr
    }

    /// The logical contents as a byte slice.
    pub fn as_slice(&self) -> (r: &[u8])
        requires
            self.wf(),
        ensures
            r@ == self@.contents(),
    {
        let s: &[u8] = self.bytes.as_slice();
        &s[0..self.len]
    }

    /// Read the byte at logical index `i`.
    pub fn get(&self, i: usize) -> (r: u8)
        requires
            self.wf(),
            i < self@.len,
        ensures
            r == self@.contents()[i as int],
    {
        self.bytes[i]
    }

    /// Overwrite the byte at logical index `i`.
    pub fn set(&mut self, i: usize, v: u8)
        requires
            old(self).wf(),
            i < old(self)@.len,
        ensures
            final(self).wf(),
            final(self)@.addr == old(self)@.addr,
            final(self)@.len == old(self)@.len,
            final(self)@.store == old(self)@.store.update(i as int, v),
            final(self)@.contents() == old(self)@.contents().update(i as int, v),
    {
        self.bytes[i] = v;
        proof {
            assert(final(self)@.contents() =~= old(self)@.contents().update(i as int, v));
        }
    }

    /// Set the logical length to zero; capacity and stored bytes are kept.
    pub fn clear(&mut self)
        requires
            old(self).wf(),
        ensures
            final(self).wf(),
            final(self)@.addr == old(self)@.addr,
            final(self)@.len == 0,
            final(self)@.store == old(self)@.store,
    {
        self.len = 0;
    }

    /// Shrink the logical length to `len`; does nothing if `len` is not
    /// smaller than the current length.
    pub fn truncate(&mut self, len: usize)
        requires
            old(self).wf(),
        ensures
            final(self).wf(),
            final(self)@.addr == old(self)@.addr,
            final(self)@.store == old(self)@.store,
            final(self)@.len == if len < old(self)@.len {
                len as nat
            } else {
                old(self)@.len
            },
    {
        if len < self.len {
            self.len = len;
        }
    }

    /// Set the logical length outright, up to the capacity.  Growing exposes
    /// whatever bytes the store already holds.
    pub fn set_len(&mut self, len: usize)
        requires
            old(self).wf(),
            len <= old(self)@.store.len(),
        ensures
            final(self).wf(),
            final(self)@.addr == old(self)@.addr,
            final(self)@.len == len,
            final(self)@.store == old(self)@.store,
    {
        self.len = len;
    }

    /// Append one byte; the write must fit the capacity.
    pub fn push(&mut self, v: u8)
        requires
            old(self).wf(),
            old(self)@.len < old(self)@.store.len(),
        ensures
            final(self).wf(),
            final(self)@.addr == old(self)@.addr,
            final(self)@.len == old(self)@.len + 1,
            final(self)@.store == old(self)@.store.update(old(self)@.len as int, v),
            final(self)@.contents() == old(self)@.contents().push(v),
    {
        self.bytes[self.len] = v;
        self.len = self.len + 1;
        proof {
            assert(final(self)@.contents() =~= old(self)@.contents().push(v));
        }
    }

    /// Append one byte if it fits; report whether it did.  On a refusal the
    /// buffer is unchanged.
    pub fn try_push(&mut self, v: u8) -> (ok: bool)
        requires
            old(self).wf(),
        ensures
            final(self).wf(),
            ok == (old(self)@.len < old(self)@.store.len()),
            ok ==> final(self)@.addr == old(self)@.addr && final(self)@.len == old(self)@.len
                + 1 && final(self)@.contents() == old(self)@.contents().push(v),
            !ok ==> *final(self) == *old(self),
    {
        if self.len < self.bytes.len() {
            self.push(v);
            true
        } else {
            false
        }
    }

    /// Remove and return the last logical byte, if any.
    pub fn pop(&mut self) -> (r: Option<u8>)
        requires
            old(self).wf(),
        ensures
            final(self).wf(),
            final(self)@.addr == old(self)@.addr,
            final(self)@.store == old(self)@.store,
            old(self)@.len == 0 ==> r is None && final(self)@.len == 0,
            old(self)@.len > 0 ==> r == Some(old(self)@.contents().last()) && final(self)@.len
                == old(self)@.len - 1 && final(self)@.contents() == old(
                self,
            )@.contents().drop_last(),
    {
        if self.len == 0 {
            return None;
        }
        self.len = self.len - 1;
        let v = self.bytes[self.len];
        proof {
            assert(final(self)@.contents() =~= old(self)@.contents().drop_last());
        }
        Some(v)
    }

    /// Append a copy of `other`; the write must fit the capacity.
    #[verifier::loop_isolation(false)]
    pub fn extend_from_slice(&mut self, other: &[u8])
        requires
            old(self).wf(),
            old(self)@.len + other@.len() <= old(self)@.store.len(),
        ensures
            final(self).wf(),
            final(self)@.addr == old(self)@.addr,
            final(self)@.len == old(self)@.len + other@.len(),
            final(self)@.contents() == old(self)@.contents() + other@,
            final(self)@.store.len() == old(self)@.store.len(),
    {
        let n = other.len();
        let base = self.len;
        let mut i: usize = 0;
        while i < n
            invariant
                i <= n,
                n == other@.len(),
                base == old(self)@.len,
                base + n <= self.bytes@.len(),
                self.addr == old(self).addr,
                self.len == base,
                self.bytes@.len() == old(self)@.store.len(),
                forall|j: int| 0 <= j < base ==> self.bytes@[j] == old(self)@.store[j],
                forall|j: int| 0 <= j < i ==> self.bytes@[base + j] == other@[j],
            decreases n - i,
        {
            self.bytes[base + i] = other[i];
            i = i + 1;
        }
        self.len = base + n;
        proof {
            assert(final(self)@.contents() =~= old(self)@.contents() + other@);
        }
    }

    /// Append a copy of `other` if it fits; report whether it did.  On a
    /// refusal the buffer is unchanged and no byte is written.
    pub fn try_extend_from_slice(&mut self, other: &[u8]) -> (ok: bool)
        requires
            old(self).wf(),
        ensures
            final(self).wf(),
            ok == (old(self)@.len + other@.len() <= old(self)@.store.len()),
            ok ==> final(self)@.addr == old(self)@.addr && final(self)@.len == old(self)@.len
                + other@.len() && final(self)@.contents() == old(self)@.contents() + other@,
            !ok ==> *final(self) == *old(self),
    {
        if other.len() <= self.bytes.len() - self.len {
            self.extend_from_slice(other);
            true
        } else {
            false
        }
    }

    /// Append a copy of the logical bytes in `start..end`; the write must fit
    /// the capacity.
    #[verifier::loop_isolation(false)]
    pub fn extend_from_within(&mut self, start: usize, end: usize)
        requires
            old(self).wf(),
            start <= end,
            end <= old(self)@.len,
            old(self)@.len + (end - start) <= old(self)@.store.len(),
        ensures
            final(self).wf(),
            final(self)@.addr == old(self)@.addr,
            final(self)@.len == old(self)@.len + (end - start),
            final(self)@.contents() == old(self)@.contents() + old(self)@.contents().subrange(
                start as int,
                end as int,
            ),
            final(self)@.store.len() == old(self)@.store.len(),
    {
        let n = end - start;
        let base = self.len;
        let mut i: usize = 0;
        while i < n
            invariant
                i <= n,
                n == end - start,
                start <= end,
                end <= base,
                base == old(self)@.len,
                base + n <= self.bytes@.len(),
                self.addr == old(self).addr,
                self.len == base,
                self.bytes@.len() == old(self)@.store.len(),
                forall|j: int| 0 <= j < base ==> self.bytes@[j] == old(self)@.store[j],
                forall|j: int|
                    base <= j < base + i ==> #[trigger] self.bytes@[j] == old(self)@.store[start + j
                        - base],
            decreases n - i,
        {
            let v = self.bytes[start + i];
            self.bytes[base + i] = v;
            i = i + 1;
        }
        self.len = base + n;
        proof {
            assert(final(self)@.contents() =~= old(self)@.contents() + old(
                self,
            )@.contents().subrange(start as int, end as int));
        }
    }

    /// Move all of `other`'s logical bytes onto the end of `self`, leaving
    /// `other` empty; the write must fit `self`'s capacity.
    pub fn append(&mut self, other: &mut Buf)
        requires
            old(self).wf(),
            old(other).wf(),
            old(self)@.len + old(other)@.len <= old(self)@.store.len(),
        ensures
            final(self).wf(),
            final(other).wf(),
            final(self)@.addr == old(self)@.addr,
            final(self)@.len == old(self)@.len + old(other)@.len,
            final(self)@.contents() == old(self)@.contents() + old(other)@.contents(),
            final(other)@.addr == old(other)@.addr,
            final(other)@.len == 0,
            final(other)@.store == old(other)@.store,
    {
        self.extend_from_slice(other.as_slice());
        other.clear();
    }

    /// Overwrite every logical byte with `v`.
    #[verifier::loop_isolation(false)]
    pub fn fill(&mut self, v: u8)
        requires
            old(self).wf(),
        ensures
            final(self).wf(),
            final(self)@.addr == old(self)@.addr,
            final(self)@.len == old(self)@.len,
            final(self)@.store.len() == old(self)@.store.len(),
            final(self)@.contents() == Seq::new(old(self)@.len, |i: int| v),
    {
        let n = self.len;
        let mut i: usize = 0;
        while i < n
            invariant
                i <= n,
                n == old(self)@.len,
                n <= self.bytes@.len(),
                self.addr == old(self).addr,
                self.len == n,
                self.bytes@.len() == old(self)@.store.len(),
                forall|j: int| 0 <= j < i ==> self.bytes@[j] == v,
            decreases n - i,
        {
            self.bytes[i] = v;
            i = i + 1;
        }
        proof {
            assert(final(self)@.contents() =~= Seq::new(old(self)@.len, |i: int| v));
        }
    }

    /// Order two buffers by their logical byte contents: -1 below, 0 equal,
    /// 1 above.
    #[verifier::loop_isolation(false)]
    pub fn compare(&self, other: &Buf) -> (r: i8)
        requires
            self.wf(),
            other.wf(),
        ensures
            r as int == lex_cmp(self@.contents(), other@.contents()),
    {
        let an = self.len;
        let bn = other.len;
        let n = if an < bn {
            an
        } else {
            bn
        };
        let mut i: usize = 0;
        while i < n
            invariant
                i <= n,
                forall|j: int| 0 <= j < i ==> self.bytes@[j] == other.bytes@[j],
            decreases n - i,
        {
            let x = self.bytes[i];
            let y = other.bytes[i];
            if x < y {
                proof {
                    lemma_lex_cmp_skip(self@.contents(), other@.contents(), i as nat);
                }
                return -1;
            }
            if x > y {
                proof {
                    lemma_lex_cmp_skip(self@.contents(), other@.contents(), i as nat);
                }
                return 1;
            }
            i = i + 1;
        }
        proof {
            lemma_lex_cmp_skip(self@.contents(), other@.contents(), n as nat);
        }
        if an < bn {
            -1
        } else if an > bn {
            1
        } else {
            0
        }
    }

    /// Logical equality: equal logical byte contents (and hence equal
    /// lengths); capacity and block address play no part.
    #[verifier::loop_isolation(false)]
    pub fn equals(&self, other: &Buf) -> (r: bool)
        requires
            self.wf(),
            other.wf(),
        ensures
            r == (self@.contents() == other@.contents()),
    {
        if self.len != other.len {
            proof {
                assert(self@.contents().len() != other@.contents().len());
            }
            return false;
        }
        let n = self.len;
        let mut i: usize = 0;
        while i < n
            invariant
                i <= n,
                self.wf(),
                other.wf(),
                n == self@.len,
                n == other@.len,
                forall|j: int| 0 <= j < i ==> self.bytes@[j] == other.bytes@[j],
            decreases n - i,
        {
            if self.bytes[i] != other.bytes[i] {
                proof {
                    assert(self@.contents()[i as int] != other@.contents()[i as int]);
                }
                return false;
            }
            i = i + 1;
        }
        proof {
            assert(self@.contents() =~= other@.contents());
        }
        true
    }
}

} // verus!
