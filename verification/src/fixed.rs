//! The fixed-capacity buffer facade and its pool.
//!
//! A [`FixedBuf`] has no length distinct from its capacity: every allocated
//! byte is always addressable.  Its handle packs the block's base address and
//! the capacity's base-2 logarithm into one machine word, which is sound
//! because the pool's alignment exceeds the largest exponent, so an address's
//! low bits are always free to carry it.  Because every byte is observable,
//! the pool only hands fixed buffers out zero-filled.

use vstd::prelude::*;
use std::collections::VecDeque;
use vstd::arithmetic::power2::pow2;
use vstd::arithmetic::power2::lemma_pow2_pos;
use crate::buf::lex_cmp;
use crate::buf::lemma_lex_cmp_skip;
use crate::model::BlockModel;
use crate::model::PoolModel;
use crate::model::spec_new_pool;
use crate::model::spec_allocate_pool;
use crate::model::spec_allocate_block;
use crate::model::spec_release;
use crate::model::spec_step;
use crate::model::lemma_new_pool_wf;
use crate::model::lemma_allocate_wf;
use crate::model::lemma_release_wf;
use crate::model::lemma_allocate_fresh_addr;
use crate::pack::spec_unpack_exp;
use crate::pack::spec_unpack_addr;
use crate::pack::pack;
use crate::pack::unpack_exp;
use crate::pack::unpack_addr;
use crate::pack::lemma_unpack_addr_aligned;
use crate::pack::lemma_aligned_gap;
use crate::pool::Block;
use crate::pool::lemma_block_view;
use crate::pool::slots_view;
use crate::pool::zeroed_bytes;
use crate::sizes::exp_of;
use crate::sizes::is_pow2;
use crate::sizes::log2_of;
use crate::sizes::pow2_exec;
use crate::sizes::lemma_round_up_pow2_exact;
use crate::sizes::lemma_exp_of_pow2;

verus! {

/// The model of a fixed buffer: its packed word, the alignment of the pool
/// it came from, and the bytes of its block.
pub ghost struct FixedBufModel {
    pub word: nat,
    pub align: nat,
    pub bytes: Seq<u8>,
}

impl FixedBufModel {
    /// The capacity exponent held in the word's low bits.
    pub open spec fn exp(self) -> nat {
        spec_unpack_exp(self.word, self.align)
    }

    /// The block's base address held in the word's high bits.
    pub open spec fn addr(self) -> nat {
        spec_unpack_addr(self.word, self.align)
    }

    /// Well-formedness: the alignment is a power of two large enough to keep
    /// every possible exponent clear of genuine address bits, the stored
    /// bytes are exactly the capacity the word encodes, and the address is a
    /// real block address.
    pub open spec fn wf(self) -> bool {
        &&& is_pow2(self.align)
        &&& self.align > 64
        &&& self.exp() < 64
        &&& self.bytes.len() == pow2(self.exp())
        &&& self.bytes.len() <= usize::MAX
        &&& self.align <= self.addr()
    }
}

/// The block a fixed buffer occupies, as handed back to a pool on release.
pub open spec fn fixed_block_of(b: FixedBufModel) -> BlockModel {
    BlockModel { addr: b.addr(), bytes: b.bytes }
}

/// A fixed-capacity byte buffer over pooled storage: one packed word, the
/// owning pool's alignment, and the block's bytes.
#[derive(Debug)]
pub struct FixedBuf {
    word: usize,
    align: usize,
    bytes: Vec<u8>,
}

impl View for FixedBuf {
    type V = FixedBufModel;

    closed spec fn view(&self) -> FixedBufModel {
        FixedBufModel { word: self.word as nat, align: self.align as nat, bytes: self.bytes@ }
    }
}

impl FixedBuf {
    /// The buffer is well formed.
    pub open spec fn wf(self) -> bool {
        self@.wf()
    }

    /// Capacity, recovered from the packed word: `2^exp` where `exp` sits in
    /// the word's low bits.
    pub fn capacity(&self) -> (r: usize)
        requires
            self.wf(),
        ensures
            r == self@.bytes.len(),
            r as nat == pow2(self@.exp()),
    {
        let exp = unpack_exp(self.word, self.align);
        pow2_exec(exp)
    }

    /// The buffer's block address, recovered from the packed word.
    pub fn address(&self) -> (r: usize)
        requires
            self.wf(),
        ensures
            r as nat == self@.addr(),
    {
        unpack_addr(self.word, self.align)
    }

    /// The whole capacity as a byte slice.
    pub fn as_slice(&self) -> (r: &[u8])
        ensures
            r@ == self@.bytes,
    {
        self.bytes.as_slice()
    }

    /// Read the byte at index `i`.
    pub fn get(&self, i: usize) -> (r: u8)
        requires
            i < self@.bytes.len(),
        ensures
            r == self@.bytes[i as int],
    {
        self.bytes[i]
    }

    /// Overwrite the byte at index `i`.
    pub fn set(&mut self, i: usize, v: u8)
        requires
            i < old(self)@.bytes.len(),
        ensures
            final(self)@.word == old(self)@.word,
            final(self)@.align == old(self)@.align,
            final(self)@.bytes == old(self)@.bytes.update(i as int, v),
            old(self).wf() ==> final(self).wf(),
    {
        self.bytes[i] = v;
    }

    /// Overwrite the whole capacity with a copy of `data`, whose length must
    /// equal the capacity.
    #[verifier::loop_isolation(false)]
    pub fn copy_from_slice(&mut self, data: &[u8])
        requires
            data@.len() == old(self)@.bytes.len(),
        ensures
            final(self)@.word == old(self)@.word,
            final(self)@.align == old(self)@.align,
            final(self)@.bytes == data@,
            old(self).wf() ==> final(self).wf(),
    {
        let n = self.bytes.len();
        let mut i: usize = 0;
        while i < n
            invariant
                i <= n,
                self.word == old(self).word,
                self.align == old(self).align,
                self.bytes@.len() == n,
                forall|j: int| 0 <= j < i ==> self.bytes@[j] == data@[j],
            decreases n - i,
        {
            self.bytes[i] = data[i];
            i = i + 1;
        }
        proof {
            assert(final(self)@.bytes =~= data@);
        }
    }

    /// Order two fixed buffers by their underlying bytes: -1 below, 0 equal,
    /// 1 above.
    #[verifier::loop_isolation(false)]
    pub fn compare(&self, other: &FixedBuf) -> (r: i8)
        ensures
            r as int == lex_cmp(self@.bytes, other@.bytes),
    {
        let an = self.bytes.len();
        let bn = other.bytes.len();
        let n = if an < bn {
            an
        } else {
            bn
        };
        let mut i: usize = 0;
        while i < n
            invariant
                i <= n,
                forall|j: int| 0 <= j < i ==> self.bytes@[j] == other.bytes@[j],
            decreases n - i,
        {
            let x = self.bytes[i];
            let y = other.bytes[i];
            if x < y {
                proof {
                    lemma_lex_cmp_skip(self@.bytes, other@.bytes, i as nat);
                }
                return -1;
            }
            if x > y {
                proof {
                    lemma_lex_cmp_skip(self@.bytes, other@.bytes, i as nat);
                }
                return 1;
            }
            i = i + 1;
        }
        proof {
            lemma_lex_cmp_skip(self@.bytes, other@.bytes, n as nat);
        }
        if an < bn {
            -1
        } else if an > bn {
            1
        } else {
            0
        }
    }

    /// Equality: equal underlying bytes; capacity exponent and block address
    /// play no part beyond the length the bytes already carry.
    #[verifier::loop_isolation(false)]
    pub fn equals(&self, other: &FixedBuf) -> (r: bool)
        ensures
            r == (self@.bytes == other@.bytes),
    {
        if self.bytes.len() != other.bytes.len() {
            proof {
                assert(self@.bytes.len() != other@.bytes.len());
            }
            return false;
        }
        let n = self.bytes.len();
        let mut i: usize = 0;
        while i < n
            invariant
                i <= n,
                n == self@.bytes.len(),
                n == other@.bytes.len(),
                forall|j: int| 0 <= j < i ==> self.bytes@[j] == other.bytes@[j],
            decreases n - i,
        {
            if self.bytes[i] != other.bytes[i] {
                return false;
            }
            i = i + 1;
        }
        proof {
            assert(self@.bytes =~= other@.bytes);
        }
        true
    }
}

/// A recycling pool of fixed buffers: an alignment large enough for the
/// packed-word trick, one free list per size class, and the bump pointer
/// from which fresh block addresses are carved.
pub struct FixedBufPool {
    align: usize,
    next: usize,
    slots: Vec<VecDeque<Block>>,
}

impl View for FixedBufPool {
    type V = PoolModel;

    closed spec fn view(&self) -> PoolModel {
        PoolModel { align: self.align as nat, slots: slots_view(self.slots), next: self.next as nat }
    }
}

impl FixedBufPool {
    /// The pool is well formed; the alignment must exceed the largest
    /// capacity exponent so that exponent bits never collide with a genuine
    /// address bit.
    pub open spec fn wf(self) -> bool {
        &&& self@.wf()
        &&& self@.align > 64
    }

    /// Create an empty pool whose blocks will all be aligned to `align`,
    /// which must be a power of two above 64.
    pub fn with_alignment(align: usize) -> (r: FixedBufPool)
        requires
            align > 64,
            is_pow2(align as nat),
        ensures
            r.wf(),
            r@ == spec_new_pool(align as nat),
    {
        let mut slots: Vec<VecDeque<Block>> = Vec::new();
        let mut i: usize = 0;
        while i < 64
            invariant
                i <= 64,
                slots@.len() == i,
                forall|j: int| 0 <= j < i ==> (#[trigger] slots@[j])@.len() == 0,
            decreases 64 - i,
        {
            slots.push(VecDeque::new());
            i = i + 1;
        }
        let r = FixedBufPool { align, next: align, slots };
        proof {
            assert(r@.slots =~~= spec_new_pool(align as nat).slots);
            lemma_new_pool_wf(align as nat);
        }
        r
    }

    /// Create a pool with the default alignment of 128 bytes, the smallest
    /// power of two above 64.
    pub fn new() -> (r: FixedBufPool)
        ensures
            r.wf(),
            r@ == spec_new_pool(128),
    {
        proof {
            vstd::arithmetic::power2::lemma2_to64();
            lemma_exp_of_pow2(7);
        }
        Self::with_alignment(128)
    }

    /// Whether the pool still has address space for an allocation of `cap`
    /// bytes.  Exhaustion is otherwise fatal, so callers may pre-check.
    pub fn can_allocate(&self, cap: usize) -> (r: bool)
        requires
            self.wf(),
            is_pow2(cap as nat),
        ensures
            r == self@.can_allocate(cap as nat),
    {
        proof {
            lemma_round_up_pow2_exact(cap as nat);
        }
        let step = if cap > self.align {
            cap
        } else {
            self.align
        };
        proof {
            assert(step as nat == spec_step(self@, cap as nat));
        }
        self.next <= usize::MAX - step
    }

    /// Hand out a fixed buffer of capacity exactly `cap`, which must be a
    /// power of two, with every byte zero — also when the block is recycled
    /// and previously held other data.
    pub fn allocate_with_zeros(&mut self, cap: usize) -> (r: FixedBuf)
        requires
            old(self).wf(),
            is_pow2(cap as nat),
            old(self)@.can_allocate(cap as nat),
        ensures
            final(self).wf(),
            r.wf(),
            final(self)@ == spec_allocate_pool(old(self)@, cap as nat),
            r@.align == old(self)@.align,
            r@.addr() == spec_allocate_block(old(self)@, cap as nat).addr,
            !final(self)@.holds_addr(r@.addr()),
            r@.addr() < final(self)@.next,
            forall|a: nat| #[trigger] final(self)@.holds_addr(a) ==> old(self)@.holds_addr(a),
            final(self)@.next >= old(self)@.next,
            r@.bytes == Seq::new(cap as nat, |i: int| 0u8),
            r@.bytes.len() == cap,
    {
        proof {
            lemma_round_up_pow2_exact(cap as nat);
            lemma_allocate_wf(old(self)@, cap as nat);
            lemma_exp_of_pow2(exp_of(cap as nat));
            lemma_pow2_pos(exp_of(cap as nat));
            assert(self@.slots.len() == 64);
        }
        let e = log2_of(cap);
        let popped = self.slots[e].pop_front();
        let (addr, mut bytes): (usize, Vec<u8>) = match popped {
            Some(b) => {
                let ghost bm = b@;
                proof {
                    lemma_block_view(&b);
                    assert(bm == old(self)@.slots[e as int][0]);
                }
                (b.addr, b.bytes)
            },
            None => {
                let step = if cap > self.align {
                    cap
                } else {
                    self.align
                };
                proof {
                    assert(step as nat == spec_step(old(self)@, cap as nat));
                }
                let addr = self.next;
                self.next = self.next + step;
                (addr, zeroed_bytes(cap))
            },
        };
        proof {
            assert(self@.slots =~~= spec_allocate_pool(old(self)@, cap as nat).slots);
            assert(self@ == spec_allocate_pool(old(self)@, cap as nat));
            assert(addr as nat == spec_allocate_block(old(self)@, cap as nat).addr);
            assert(addr % self.align == 0 && self.align <= addr && (addr as nat)
                < self@.next);
            lemma_aligned_gap(addr as nat, self@.next, self@.align);
            assert(addr + e <= usize::MAX);
        }
        zero_fill(&mut bytes);
        let word = pack(addr, e, self.align);
        let buf = FixedBuf { word, align: self.align, bytes };
        proof {
            assert(buf@.bytes =~= Seq::new(cap as nat, |i: int| 0u8));
            assert(buf@.exp() == e as nat && buf@.addr() == addr as nat);
        }
        buf
    }

    /// Allocate a zeroed fixed buffer sized for `data` — whose length must
    /// be a power of two — and fill it with a copy of `data`.
    pub fn allocate_from_data(&mut self, data: &[u8]) -> (r: FixedBuf)
        requires
            old(self).wf(),
            is_pow2(data@.len()),
            old(self)@.can_allocate(data@.len()),
        ensures
            final(self).wf(),
            r.wf(),
            final(self)@ == spec_allocate_pool(old(self)@, data@.len()),
            r@.align == old(self)@.align,
            r@.addr() == spec_allocate_block(old(self)@, data@.len()).addr,
            !final(self)@.holds_addr(r@.addr()),
            r@.addr() < final(self)@.next,
            forall|a: nat| #[trigger] final(self)@.holds_addr(a) ==> old(self)@.holds_addr(a),
            final(self)@.next >= old(self)@.next,
            r@.bytes == data@,
    {
        let mut buf = self.allocate_with_zeros(data.len());
        buf.copy_from_slice(data);
        buf
    }

    /// Return a fixed buffer's block to the free list of its size class,
    /// recovering the class from the packed word.  The block must be in
    /// flight: its address must not already sit in a free list, so that no
    /// block is ever free twice.
    pub fn release(&mut self, buf: FixedBuf)
        requires
            old(self).wf(),
            buf.wf(),
            buf@.align == old(self)@.align,
            buf@.addr() < old(self)@.next,
            !old(self)@.holds_addr(buf@.addr()),
        ensures
            final(self).wf(),
            final(self)@ == spec_release(old(self)@, fixed_block_of(buf@)),
            forall|a: nat|
                #[trigger] final(self)@.holds_addr(a) <==> old(self)@.holds_addr(a) || a
                    == buf@.addr(),
    {
        let ghost bm = buf@;
        proof {
            lemma_exp_of_pow2(bm.exp());
            lemma_unpack_addr_aligned(bm.word, bm.align);
            assert(old(self)@.admits(fixed_block_of(bm)));
            lemma_release_wf(old(self)@, fixed_block_of(bm));
            assert(self@.slots.len() == 64);
        }
        let e = unpack_exp(buf.word, self.align);
        let addr = unpack_addr(buf.word, self.align);
        let FixedBuf { word: _, align: _, bytes } = buf;
        let blk = Block { addr, bytes };
        proof {
            lemma_block_view(&blk);
            assert(blk@ == fixed_block_of(bm));
            assert(e as nat == exp_of(bm.bytes.len()));
        }
        self.slots[e].push_back(blk);
        proof {
            assert(self@.slots =~~= spec_release(old(self)@, fixed_block_of(bm)).slots);
            assert(self@ == spec_release(old(self)@, fixed_block_of(bm)));
        }
    }
}

impl FixedBuf {
    /// Copy this buffer into a fixed buffer newly allocated from `pool`:
    /// same bytes, a distinct block, so mutating either never affects the
    /// other.  The source must be live: no free slot of the pool holds its
    /// address.
    pub fn clone_in(&self, pool: &mut FixedBufPool) -> (r: FixedBuf)
        requires
            self.wf(),
            old(pool).wf(),
            self@.align == old(pool)@.align,
            old(pool)@.can_allocate(self@.bytes.len()),
            self@.addr() < old(pool)@.next,
            !old(pool)@.holds_addr(self@.addr()),
        ensures
            final(pool).wf(),
            r.wf(),
            final(pool)@ == spec_allocate_pool(old(pool)@, self@.bytes.len()),
            r@.align == self@.align,
            r@.bytes == self@.bytes,
            r@.addr() != self@.addr(),
            !final(pool)@.holds_addr(r@.addr()),
            r@.addr() < final(pool)@.next,
            forall|a: nat| #[trigger] final(pool)@.holds_addr(a) ==> old(pool)@.holds_addr(a),
            final(pool)@.next >= old(pool)@.next,
    {
        proof {
            lemma_exp_of_pow2(self@.exp());
            lemma_round_up_pow2_exact(self@.bytes.len());
            lemma_allocate_fresh_addr(old(pool)@, self@.bytes.len(), self@.addr());
        }
        pool.allocate_from_data(self.as_slice())
    }
}

/// Overwrite every byte of `v` with zero.
#[verifier::loop_isolation(false)]
fn zero_fill(v: &mut Vec<u8>)
    ensures
        final(v)@ == Seq::new(old(v)@.len(), |i: int| 0u8),
{
    let n = v.len();
    let mut i: usize = 0;
    while i < n
        invariant
            i <= n,
            v@.len() == n,
            forall|j: int| 0 <= j < i ==> v@[j] == 0u8,
        decreases n - i,
    {
        v[i] = 0;
        i = i + 1;
    }
    proof {
        assert(final(v)@ =~= Seq::new(old(v)@.len(), |i: int| 0u8));
    }
}

} // verus!
