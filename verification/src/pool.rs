//! The growable-buffer pool.
//!
//! A [`BufPool`] keeps one FIFO free list per power-of-two size class.  An
//! allocation rounds the requested size up to the next power of two and takes
//! the oldest free block of that class, or carves a fresh zeroed block when
//! the class is empty; a release pushes the buffer's block onto the back of
//! its class's list.  Every operation's contract is stated as a function over
//! the model in [`crate::model`].

use vstd::prelude::*;
use std::collections::VecDeque;
use crate::buf::Buf;
use crate::buf::block_of;
use crate::buf::lemma_buf_view;
use crate::model::BlockModel;
use crate::model::PoolModel;
use crate::model::spec_new_pool;
use crate::model::spec_allocate_pool;
use crate::model::spec_allocate_block;
use crate::model::spec_release;
use crate::model::spec_step;
use crate::model::lemma_new_pool_wf;
use crate::model::lemma_allocate_wf;
use crate::model::lemma_release_wf;
use crate::model::lemma_allocate_fresh_addr;
use crate::model::lemma_can_allocate_round_fits;
use crate::sizes::exp_for;
use crate::sizes::exp_of;
use crate::sizes::is_pow2;
use crate::sizes::round_up_pow2;
use crate::sizes::next_pow2;
use crate::sizes::log2_of;
use crate::sizes::lemma_round_up_pow2_bounds;
use crate::sizes::lemma_round_up_pow2_exact;
use crate::sizes::lemma_exp_of_pow2;

verus! {

/// A raw block as a free list stores it: its address and its bytes.
pub(crate) struct Block {
    pub(crate) addr: usize,
    pub(crate) bytes: Vec<u8>,
}

impl View for Block {
    type V = BlockModel;

    closed spec fn view(&self) -> BlockModel {
        BlockModel { addr: self.addr as nat, bytes: self.bytes@ }
    }
}

/// Crate-internal: how a block's view relates to its representation.
pub(crate) proof fn lemma_block_view(b: &Block)
    ensures
        b@.addr == b.addr as nat,
        b@.bytes == b.bytes@,
{
}

/// The model of a free-list table: each slot's deque of blocks, as block
/// models.
pub(crate) open spec fn slots_view(slots: Vec<VecDeque<Block>>) -> Seq<Seq<BlockModel>> {
    slots@.map_values(|q: VecDeque<Block>| q@.map_values(|b: Block| b@))
}

/// A zero-filled byte vector of length `n`: fresh storage as the system
/// allocator hands it to the pool.
pub(crate) fn zeroed_bytes(n: usize) -> (r: Vec<u8>)
    ensures
        r@ == Seq::new(n as nat, |i: int| 0u8),
{
    let mut v: Vec<u8> = Vec::new();
    while v.len() < n
        invariant
            v@.len() <= n,
            forall|j: int| 0 <= j < v@.len() ==> v@[j] == 0u8,
        decreases n - v@.len(),
    {
        v.push(0);
    }
    proof {
        assert(v@ =~= Seq::new(n as nat, |i: int| 0u8));
    }
    v
}

/// A recycling pool of growable buffers: an alignment, one free list per
/// size class, and the bump pointer from which fresh block addresses are
/// carved.
pub struct BufPool {
    align: usize,
    next: usize,
    slots: Vec<VecDeque<Block>>,
}

impl View for BufPool {
    type V = PoolModel;

    closed spec fn view(&self) -> PoolModel {
        PoolModel { align: self.align as nat, slots: slots_view(self.slots), next: self.next as nat }
    }
}

impl BufPool {
    /// The pool is well formed.
    pub open spec fn wf(self) -> bool {
        self@.wf()
    }

    /// Create an empty pool whose blocks will all be aligned to `align`,
    /// which must be a nonzero power of two.
    pub fn with_alignment(align: usize) -> (r: BufPool)
        requires
            align >= 1,
            is_pow2(align as nat),
        ensures
            r.wf(),
            r@ == spec_new_pool(align as nat),
    {
        let mut slots: Vec<VecDeque<Block>> = Vec::new();
        let mut i: usize = 0;
        while i < 64
            invariant
                i <= 64,
                slots@.len() == i,
                forall|j: int| 0 <= j < i ==> (#[trigger] slots@[j])@.len() == 0,
            decreases 64 - i,
        {
            slots.push(VecDeque::new());
            i = i + 1;
        }
        let r = BufPool { align, next: align, slots };
        proof {
            assert(r@.slots =~~= spec_new_pool(align as nat).slots);
            lemma_new_pool_wf(align as nat);
        }
        r
    }

    /// Create a pool with the default machine-word alignment of 8 bytes.
    pub fn new() -> (r: BufPool)
        ensures
            r.wf(),
            r@ == spec_new_pool(8),
    {
        proof {
            vstd::arithmetic::power2::lemma2_to64();
            lemma_exp_of_pow2(3);
        }
        Self::with_alignment(8)
    }

    /// Whether the pool still has address space for an allocation of `n`
    /// bytes.  Exhaustion is otherwise fatal, so callers may pre-check.
    pub fn can_allocate(&self, n: usize) -> (r: bool)
        requires
            self.wf(),
            n <= usize::MAX / 2 + 1,
        ensures
            r == self@.can_allocate(n as nat),
    {
        let cap = next_pow2(n);
        let step = if cap > self.align {
            cap
        } else {
            self.align
        };
        proof {
            assert(step as nat == spec_step(self@, n as nat));
        }
        self.next <= usize::MAX - step
    }

    /// Hand out an empty buffer of capacity `max(1, next_power_of_two(n))`:
    /// the oldest free block of the matching size class, or a fresh zeroed
    /// block when that class has none.
    pub fn allocate(&mut self, n: usize) -> (r: Buf)
        requires
            old(self).wf(),
            n <= usize::MAX / 2 + 1,
            old(self)@.can_allocate(n as nat),
        ensures
            final(self).wf(),
            r.wf(),
            final(self)@ == spec_allocate_pool(old(self)@, n as nat),
            r@.len == 0,
            r@.addr == spec_allocate_block(old(self)@, n as nat).addr,
            r@.store == spec_allocate_block(old(self)@, n as nat).bytes,
            r@.store.len() == round_up_pow2(n as nat),
            final(self)@.admits(block_of(r@)),
            !final(self)@.holds_addr(r@.addr),
            forall|a: nat| #[trigger] final(self)@.holds_addr(a) ==> old(self)@.holds_addr(a),
            final(self)@.next >= old(self)@.next,
    {
        proof {
            lemma_can_allocate_round_fits(old(self)@, n as nat);
            lemma_round_up_pow2_bounds(n as nat);
            lemma_allocate_wf(old(self)@, n as nat);
            lemma_exp_of_pow2(exp_for(n as nat));
        }
        let cap = next_pow2(n);
        let e = log2_of(cap);
        proof {
            lemma_round_up_pow2_exact(cap as nat);
            assert(e as nat == exp_for(n as nat));
            assert(self@.slots.len() == 64);
        }
        let popped = self.slots[e].pop_front();
        match popped {
            Some(b) => {
                let ghost bm = b@;
                proof {
                    lemma_block_view(&b);
                    assert(bm == old(self)@.slots[e as int][0]);
                }
                let buf = Buf { addr: b.addr, len: 0, bytes: b.bytes };
                proof {
                    lemma_buf_view(&buf);
                    assert(buf@.addr == bm.addr && buf@.store == bm.bytes && buf@.len == 0);
                    assert(self@.slots =~~= spec_allocate_pool(old(self)@, n as nat).slots);
                    assert(self@ == spec_allocate_pool(old(self)@, n as nat));
                }
                buf
            },
            None => {
                let step = if cap > self.align {
                    cap
                } else {
                    self.align
                };
                proof {
                    assert(step as nat == spec_step(old(self)@, n as nat));
                }
                let addr = self.next;
                self.next = self.next + step;
                let bytes = zeroed_bytes(cap);
                let buf = Buf { addr, len: 0, bytes };
                proof {
                    lemma_buf_view(&buf);
                    assert(self@.slots =~~= spec_allocate_pool(old(self)@, n as nat).slots);
                    assert(self@ == spec_allocate_pool(old(self)@, n as nat));
                    assert(buf@.store =~= spec_allocate_block(old(self)@, n as nat).bytes);
                }
                buf
            },
        }
    }

    /// Return a buffer's block to the free list of its size class, where it
    /// becomes the newest free block.  The block must be in flight: its
    /// address must not already sit in a free list, so that no block is ever
    /// free twice.
    pub fn release(&mut self, buf: Buf)
        requires
            old(self).wf(),
            buf.wf(),
            old(self)@.admits(block_of(buf@)),
            !old(self)@.holds_addr(buf@.addr),
        ensures
            final(self).wf(),
            final(self)@ == spec_release(old(self)@, block_of(buf@)),
            forall|a: nat|
                #[trigger] final(self)@.holds_addr(a) <==> old(self)@.holds_addr(a) || a
                    == buf@.addr,
    {
        let ghost bm = buf@;
        proof {
            lemma_buf_view(&buf);
            lemma_release_wf(old(self)@, block_of(bm));
            vstd::arithmetic::power2::lemma_pow2_pos(exp_of(bm.store.len()));
            assert(bm.store.len() >= 1);
            assert(self@.slots.len() == 64);
        }
        let cap = buf.bytes.len();
        let e = log2_of(cap);
        let Buf { addr, len: _, bytes } = buf;
        let blk = Block { addr, bytes };
        proof {
            lemma_block_view(&blk);
            assert(blk@ == block_of(bm));
        }
        self.slots[e].push_back(blk);
        proof {
            assert(self@.slots =~~= spec_release(old(self)@, block_of(bm)).slots);
            assert(self@ == spec_release(old(self)@, block_of(bm)));
        }
    }

    /// Allocate a buffer sized for `data` and fill it with a copy of `data`.
    pub fn allocate_from_data(&mut self, data: &[u8]) -> (r: Buf)
        requires
            old(self).wf(),
            data@.len() <= usize::MAX / 2 + 1,
            old(self)@.can_allocate(data@.len()),
        ensures
            final(self).wf(),
            r.wf(),
            final(self)@ == spec_allocate_pool(old(self)@, data@.len()),
            r@.addr == spec_allocate_block(old(self)@, data@.len()).addr,
            !final(self)@.holds_addr(r@.addr),
            forall|a: nat| #[trigger] final(self)@.holds_addr(a) ==> old(self)@.holds_addr(a),
            final(self)@.next >= old(self)@.next,
            r@.len == data@.len(),
            r@.contents() == data@,
            r@.store.len() == round_up_pow2(data@.len()),
    {
        proof {
            lemma_round_up_pow2_bounds(data@.len());
        }
        let mut buf = self.allocate(data.len());
        buf.extend_from_slice(data);
        proof {
            assert(buf@.contents() =~= data@);
        }
        buf
    }

    /// Allocate a buffer with capacity for `len` bytes and fill it with a
    /// copy of `data`, which must fit that capacity.
    pub fn allocate_from_iter(&mut self, data: &[u8], len: usize) -> (r: Buf)
        requires
            old(self).wf(),
            len <= usize::MAX / 2 + 1,
            old(self)@.can_allocate(len as nat),
            data@.len() <= round_up_pow2(len as nat),
        ensures
            final(self).wf(),
            r.wf(),
            final(self)@ == spec_allocate_pool(old(self)@, len as nat),
            r@.addr == spec_allocate_block(old(self)@, len as nat).addr,
            !final(self)@.holds_addr(r@.addr),
            forall|a: nat| #[trigger] final(self)@.holds_addr(a) ==> old(self)@.holds_addr(a),
            final(self)@.next >= old(self)@.next,
            r@.len == data@.len(),
            r@.contents() == data@,
            r@.store.len() == round_up_pow2(len as nat),
    {
        let mut buf = self.allocate(len);
        buf.extend_from_slice(data);
        proof {
            assert(buf@.contents() =~= data@);
        }
        buf
    }

    /// Allocate a buffer whose logical length already equals its whole
    /// capacity, `max(1, next_power_of_two(len))`; its bytes are whatever the
    /// block held, so callers must overwrite before reading.
    pub fn allocate_uninitialised(&mut self, len: usize) -> (r: Buf)
        requires
            old(self).wf(),
            len <= usize::MAX / 2 + 1,
            old(self)@.can_allocate(len as nat),
        ensures
            final(self).wf(),
            r.wf(),
            final(self)@ == spec_allocate_pool(old(self)@, len as nat),
            r@.addr == spec_allocate_block(old(self)@, len as nat).addr,
            !final(self)@.holds_addr(r@.addr),
            forall|a: nat| #[trigger] final(self)@.holds_addr(a) ==> old(self)@.holds_addr(a),
            final(self)@.next >= old(self)@.next,
            r@.store == spec_allocate_block(old(self)@, len as nat).bytes,
            r@.len == round_up_pow2(len as nat),
            r@.store.len() == round_up_pow2(len as nat),
    {
        proof {
            lemma_round_up_pow2_bounds(len as nat);
        }
        let mut buf = self.allocate(len);
        let cap = buf.capacity();
        buf.set_len(cap);
        buf
    }

    /// Allocate a buffer of logical length `len` with every byte set to
    /// `val`.
    pub fn allocate_with_fill(&mut self, val: u8, len: usize) -> (r: Buf)
        requires
            old(self).wf(),
            len <= usize::MAX / 2 + 1,
            old(self)@.can_allocate(len as nat),
        ensures
            final(self).wf(),
            r.wf(),
            final(self)@ == spec_allocate_pool(old(self)@, len as nat),
            r@.addr == spec_allocate_block(old(self)@, len as nat).addr,
            !final(self)@.holds_addr(r@.addr),
            forall|a: nat| #[trigger] final(self)@.holds_addr(a) ==> old(self)@.holds_addr(a),
            final(self)@.next >= old(self)@.next,
            r@.len == len,
            r@.contents() == Seq::new(len as nat, |i: int| val),
            r@.store.len() == round_up_pow2(len as nat),
    {
        proof {
            lemma_round_up_pow2_bounds(len as nat);
        }
        let mut buf = self.allocate(len);
        buf.set_len(len);
        buf.fill(val);
        buf
    }

    /// Allocate a buffer of logical length `len` whose bytes are all zero,
    /// regardless of what the recycled block previously held.
    pub fn allocate_with_zeros(&mut self, len: usize) -> (r: Buf)
        requires
            old(self).wf(),
            len <= usize::MAX / 2 + 1,
            old(self)@.can_allocate(len as nat),
        ensures
            final(self).wf(),
            r.wf(),
            final(self)@ == spec_allocate_pool(old(self)@, len as nat),
            r@.addr == spec_allocate_block(old(self)@, len as nat).addr,
            !final(self)@.holds_addr(r@.addr),
            forall|a: nat| #[trigger] final(self)@.holds_addr(a) ==> old(self)@.holds_addr(a),
            final(self)@.next >= old(self)@.next,
            r@.len == len,
            r@.contents() == Seq::new(len as nat, |i: int| 0u8),
            r@.store.len() == round_up_pow2(len as nat),
    {
        self.allocate_with_fill(0, len)
    }
}

impl Buf {
    /// Copy this buffer into a buffer newly allocated from `pool`: same
    /// logical contents, a distinct block, so mutating either never affects
    /// the other.  The source must be live: no free slot of the pool holds
    /// its address.
    pub fn clone_in(&self, pool: &mut BufPool) -> (r: Buf)
        requires
            self.wf(),
            old(pool).wf(),
            self@.len <= usize::MAX / 2 + 1,
            old(pool)@.can_allocate(self@.len),
            self@.addr < old(pool)@.next,
            !old(pool)@.holds_addr(self@.addr),
        ensures
            final(pool).wf(),
            r.wf(),
            final(pool)@ == spec_allocate_pool(old(pool)@, self@.len),
            r@.len == self@.len,
            r@.contents() == self@.contents(),
            r@.addr != self@.addr,
            !final(pool)@.holds_addr(r@.addr),
            final(pool)@.admits(block_of(r@)),
            forall|a: nat| #[trigger] final(pool)@.holds_addr(a) ==> old(pool)@.holds_addr(a),
            final(pool)@.next >= old(pool)@.next,
            r@.store.len() == round_up_pow2(self@.len),
    {
        proof {
            lemma_can_allocate_round_fits(old(pool)@, self@.len);
            lemma_round_up_pow2_bounds(self@.len);
            lemma_allocate_fresh_addr(old(pool)@, self@.len, self@.addr);
        }
        let mut buf = pool.allocate(self.len());
        buf.extend_from_slice(self.as_slice());
        proof {
            assert(buf@.contents() =~= self@.contents());
        }
        buf
    }
}

} // verus!
