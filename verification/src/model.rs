//! Mathematical model of the recycling pool.
//!
//! A pool is modelled as an alignment, 64 size-class slots — one FIFO sequence
//! of free blocks per power-of-two capacity — and a bump pointer from which
//! fresh block addresses are carved.  A block is an address plus the bytes of
//! its storage.  The exec pools' contracts state each operation as a function
//! over this model, and the recycling laws are proved about those functions.

use vstd::prelude::*;
use vstd::arithmetic::power2::pow2;
use crate::sizes::exp_for;
use crate::sizes::exp_of;
use crate::sizes::is_pow2;
use crate::sizes::round_up_pow2;
use crate::sizes::lemma_round_up_pow2_bounds;
use crate::sizes::lemma_round_up_pow2_exact;
use crate::sizes::lemma_pow2_divides;
use crate::sizes::lemma_exp_fits_word;

verus! {

/// Number of size classes: one per possible power-of-two capacity of a
/// machine-word-sized length.
pub open spec fn slot_count() -> nat {
    64
}

/// A raw memory block: its base address and the bytes it stores.
pub ghost struct BlockModel {
    pub addr: nat,
    pub bytes: Seq<u8>,
}

/// A pool: alignment, free-list slots indexed by capacity exponent, and the
/// next fresh block address.
pub ghost struct PoolModel {
    pub align: nat,
    pub slots: Seq<Seq<BlockModel>>,
    pub next: nat,
}

impl PoolModel {
    /// Well-formedness: the alignment is a power of two, there is one slot per
    /// size class, fresh addresses stay aligned and nonzero, every free
    /// block in slot `e` has capacity exactly `2^e`, an aligned nonzero
    /// address, and was carved below the bump pointer — and no two free
    /// blocks share an address, so a block is free at most once.
    pub open spec fn wf(self) -> bool {
        &&& self.align >= 1
        &&& is_pow2(self.align)
        &&& self.slots.len() == slot_count()
        &&& self.next >= self.align
        &&& self.next % self.align == 0
        &&& forall|e: int, j: int|
            0 <= e < self.slots.len() && 0 <= j < self.slots[e].len()
                ==> self.block_wf_in_slot(e, #[trigger] self.slots[e][j])
        &&& self.free_addrs_distinct()
    }

    /// No address sits in the free lists twice: together with the releases'
    /// preconditions this makes a block either in flight or free, never both.
    pub open spec fn free_addrs_distinct(self) -> bool {
        forall|e1: int, j1: int, e2: int, j2: int|
            #![trigger self.slots[e1][j1], self.slots[e2][j2]]
            0 <= e1 < self.slots.len() && 0 <= j1 < self.slots[e1].len() && 0 <= e2
                < self.slots.len() && 0 <= j2 < self.slots[e2].len() && (e1 != e2 || j1 != j2)
                ==> self.slots[e1][j1].addr != self.slots[e2][j2].addr
    }

    /// What slot `e` requires of a block stored in it.
    pub open spec fn block_wf_in_slot(self, e: int, b: BlockModel) -> bool {
        &&& b.bytes.len() == pow2(e as nat)
        &&& b.addr % self.align == 0
        &&& self.align <= b.addr
        &&& b.addr < self.next
    }

    /// Block `b` may be returned to this pool: it has a power-of-two capacity
    /// that fits a size class, and the address shape of a block this pool
    /// handed out.
    pub open spec fn admits(self, b: BlockModel) -> bool {
        &&& is_pow2(b.bytes.len())
        &&& b.bytes.len() <= usize::MAX
        &&& b.addr % self.align == 0
        &&& self.align <= b.addr
        &&& b.addr < self.next
    }

    /// Some free block in some slot has address `a`.
    pub open spec fn holds_addr(self, a: nat) -> bool {
        exists|e: int, j: int|
            0 <= e < self.slots.len() && 0 <= j < self.slots[e].len()
                && (#[trigger] self.slots[e][j]).addr == a
    }

    /// The pool has address space left for an allocation of `n` bytes.
    pub open spec fn can_allocate(self, n: nat) -> bool {
        self.next + spec_step(self, n) <= usize::MAX
    }
}

/// The empty pool with alignment `align`.
pub open spec fn spec_new_pool(align: nat) -> PoolModel {
    PoolModel {
        align: align,
        slots: Seq::new(slot_count(), |e: int| Seq::empty()),
        next: align,
    }
}

/// How far the bump pointer advances for a fresh block serving a request of
/// `n` bytes: the rounded capacity, or the alignment if that is larger, so
/// that the next address stays aligned.
pub open spec fn spec_step(p: PoolModel, n: nat) -> nat {
    let cap = round_up_pow2(n);
    if cap > p.align {
        cap
    } else {
        p.align
    }
}

/// The zero-filled fresh block carved at the bump pointer for a request of
/// `n` bytes.
pub open spec fn spec_fresh_block(p: PoolModel, n: nat) -> BlockModel {
    BlockModel { addr: p.next, bytes: Seq::new(round_up_pow2(n), |i: int| 0u8) }
}

/// The block an allocation of `n` bytes hands out: the oldest free block of
/// the matching size class, or a fresh block on a miss.
pub open spec fn spec_allocate_block(p: PoolModel, n: nat) -> BlockModel {
    let e = exp_for(n) as int;
    if p.slots[e].len() > 0 {
        p.slots[e][0]
    } else {
        spec_fresh_block(p, n)
    }
}

/// The pool state after an allocation of `n` bytes.
pub open spec fn spec_allocate_pool(p: PoolModel, n: nat) -> PoolModel {
    let e = exp_for(n) as int;
    if p.slots[e].len() > 0 {
        PoolModel {
            align: p.align,
            slots: p.slots.update(e, p.slots[e].drop_first()),
            next: p.next,
        }
    } else {
        PoolModel { align: p.align, slots: p.slots, next: p.next + spec_step(p, n) }
    }
}

/// The pool state after block `b` is released into its size class.
pub open spec fn spec_release(p: PoolModel, b: BlockModel) -> PoolModel {
    let e = exp_of(b.bytes.len()) as int;
    PoolModel { align: p.align, slots: p.slots.update(e, p.slots[e].push(b)), next: p.next }
}

/// If the pool has address space left for a request, the rounded capacity
/// itself fits in a machine word.
pub proof fn lemma_can_allocate_round_fits(p: PoolModel, n: nat)
    requires
        p.wf(),
        p.can_allocate(n),
    ensures
        round_up_pow2(n) <= usize::MAX,
{
    lemma_round_up_pow2_bounds(n);
}

/// The empty pool is well formed.
pub proof fn lemma_new_pool_wf(align: nat)
    requires
        align >= 1,
        is_pow2(align),
    ensures
        spec_new_pool(align).wf(),
{
}

/// Releasing an in-flight admissible block preserves well-formedness and
/// moves the block to the back of its slot, touching nothing else.  The
/// block must not already be free: a block is free at most once.
pub proof fn lemma_release_wf(p: PoolModel, b: BlockModel)
    requires
        p.wf(),
        p.admits(b),
        !p.holds_addr(b.addr),
    ensures
        spec_release(p, b).wf(),
        exp_of(b.bytes.len()) < slot_count(),
        spec_release(p, b).slots[exp_of(b.bytes.len()) as int]
            == p.slots[exp_of(b.bytes.len()) as int].push(b),
        forall|e: int|
            0 <= e < p.slots.len() && e != exp_of(b.bytes.len())
                ==> spec_release(p, b).slots[e] == #[trigger] p.slots[e],
        forall|a: nat|
            #[trigger] spec_release(p, b).holds_addr(a) <==> p.holds_addr(a) || a == b.addr,
{
    lemma_exp_fits_word(exp_of(b.bytes.len()));
    let q = spec_release(p, b);
    let ee = exp_of(b.bytes.len()) as int;
    assert forall|e: int, j: int|
        0 <= e < q.slots.len() && 0 <= j < q.slots[e].len() implies q.block_wf_in_slot(
        e,
        #[trigger] q.slots[e][j],
    ) by {
        if e == ee && j == q.slots[e].len() - 1 {
            assert(q.slots[e][j] == b);
        } else {
            assert(q.slots[e][j] == p.slots[e][j]);
        }
    }
    assert forall|e1: int, j1: int, e2: int, j2: int|
        0 <= e1 < q.slots.len() && 0 <= j1 < q.slots[e1].len() && 0 <= e2 < q.slots.len() && 0
            <= j2 < q.slots[e2].len() && (e1 != e2 || j1 != j2) implies (
    #[trigger] q.slots[e1][j1]).addr != (#[trigger] q.slots[e2][j2]).addr by {
        let new1 = e1 == ee && j1 == q.slots[e1].len() - 1;
        let new2 = e2 == ee && j2 == q.slots[e2].len() - 1;
        if new1 && !new2 {
            assert(q.slots[e1][j1] == b);
            assert(q.slots[e2][j2] == p.slots[e2][j2]);
            if p.slots[e2][j2].addr == b.addr {
                assert(p.holds_addr(b.addr));
            }
        } else if !new1 && new2 {
            assert(q.slots[e2][j2] == b);
            assert(q.slots[e1][j1] == p.slots[e1][j1]);
            if p.slots[e1][j1].addr == b.addr {
                assert(p.holds_addr(b.addr));
            }
        } else if !new1 && !new2 {
            assert(q.slots[e1][j1] == p.slots[e1][j1]);
            assert(q.slots[e2][j2] == p.slots[e2][j2]);
        }
    }
    assert forall|a: nat| #[trigger] q.holds_addr(a) implies p.holds_addr(a) || a == b.addr by {
        let (e2, j2): (int, int) = choose|e2: int, j2: int|
            0 <= e2 < q.slots.len() && 0 <= j2 < q.slots[e2].len() && (
            #[trigger] q.slots[e2][j2]).addr == a;
        if e2 == ee && j2 == q.slots[e2].len() - 1 {
            assert(q.slots[e2][j2] == b);
        } else {
            assert(q.slots[e2][j2] == p.slots[e2][j2]);
            assert(p.holds_addr(a));
        }
    }
    assert forall|a: nat| p.holds_addr(a) || a == b.addr implies #[trigger] q.holds_addr(a) by {
        if p.holds_addr(a) {
            let (e2, j2): (int, int) = choose|e2: int, j2: int|
                0 <= e2 < p.slots.len() && 0 <= j2 < p.slots[e2].len() && (
                #[trigger] p.slots[e2][j2]).addr == a;
            assert(q.slots[e2][j2] == p.slots[e2][j2]);
        } else {
            assert(q.slots[ee][q.slots[ee].len() - 1] == b);
        }
    }
}

/// Allocation preserves well-formedness; the block handed out has the rounded
/// capacity, an aligned in-range address, and the bump pointer never moves
/// backwards.
pub proof fn lemma_allocate_wf(p: PoolModel, n: nat)
    requires
        p.wf(),
        round_up_pow2(n) <= usize::MAX,
    ensures
        spec_allocate_pool(p, n).wf(),
        spec_allocate_pool(p, n).align == p.align,
        spec_allocate_pool(p, n).next >= p.next,
        exp_for(n) < slot_count(),
        spec_allocate_block(p, n).bytes.len() == round_up_pow2(n),
        spec_allocate_block(p, n).addr % p.align == 0,
        p.align <= spec_allocate_block(p, n).addr,
        spec_allocate_block(p, n).addr < spec_allocate_pool(p, n).next,
        spec_allocate_pool(p, n).admits(spec_allocate_block(p, n)),
        !spec_allocate_pool(p, n).holds_addr(spec_allocate_block(p, n).addr),
        forall|a: nat| #[trigger] spec_allocate_pool(p, n).holds_addr(a) ==> p.holds_addr(a),
{
    lemma_round_up_pow2_bounds(n);
    let cap = round_up_pow2(n);
    let e = exp_for(n) as int;
    assert(exp_for(n) < slot_count()) by {
        crate::sizes::lemma_exp_of_pow2(exp_for(n));
        lemma_exp_fits_word(exp_for(n));
    }
    let q = spec_allocate_pool(p, n);
    let b = spec_allocate_block(p, n);
    crate::sizes::lemma_exp_of_pow2(exp_for(n));
    if p.slots[e].len() > 0 {
        assert(b == p.slots[e][0]);
        assert(p.block_wf_in_slot(e, b));
        assert forall|e2: int, j: int|
            0 <= e2 < q.slots.len() && 0 <= j < q.slots[e2].len() implies q.block_wf_in_slot(
            e2,
            #[trigger] q.slots[e2][j],
        ) by {
            if e2 == e {
                assert(q.slots[e2][j] == p.slots[e2][j + 1]);
            } else {
                assert(q.slots[e2][j] == p.slots[e2][j]);
            }
        }
        assert forall|e1: int, j1: int, e2: int, j2: int|
            0 <= e1 < q.slots.len() && 0 <= j1 < q.slots[e1].len() && 0 <= e2 < q.slots.len()
                && 0 <= j2 < q.slots[e2].len() && (e1 != e2 || j1 != j2) implies (
        #[trigger] q.slots[e1][j1]).addr != (#[trigger] q.slots[e2][j2]).addr by {
            let k1 = if e1 == e {
                j1 + 1
            } else {
                j1
            };
            let k2 = if e2 == e {
                j2 + 1
            } else {
                j2
            };
            assert(q.slots[e1][j1] == p.slots[e1][k1]);
            assert(q.slots[e2][j2] == p.slots[e2][k2]);
            assert(p.slots[e1][k1].addr != p.slots[e2][k2].addr);
        }
        assert(!q.holds_addr(b.addr)) by {
            if q.holds_addr(b.addr) {
                let (e2, j2): (int, int) = choose|e2: int, j2: int|
                    0 <= e2 < q.slots.len() && 0 <= j2 < q.slots[e2].len() && (
                    #[trigger] q.slots[e2][j2]).addr == b.addr;
                let k2 = if e2 == e {
                    j2 + 1
                } else {
                    j2
                };
                assert(q.slots[e2][j2] == p.slots[e2][k2]);
                assert(p.slots[e][0].addr != p.slots[e2][k2].addr);
            }
        }
        assert forall|a: nat| #[trigger] q.holds_addr(a) implies p.holds_addr(a) by {
            let (e2, j2): (int, int) = choose|e2: int, j2: int|
                0 <= e2 < q.slots.len() && 0 <= j2 < q.slots[e2].len() && (
                #[trigger] q.slots[e2][j2]).addr == a;
            let k2 = if e2 == e {
                j2 + 1
            } else {
                j2
            };
            assert(q.slots[e2][j2] == p.slots[e2][k2]);
            assert(p.holds_addr(a));
        }
    } else {
        assert(q.next % p.align == 0) by {
            lemma_step_divisible(p, n);
        }
        assert(q.wf());
        assert(!q.holds_addr(b.addr)) by {
            if q.holds_addr(b.addr) {
                let (e2, j2): (int, int) = choose|e2: int, j2: int|
                    0 <= e2 < q.slots.len() && 0 <= j2 < q.slots[e2].len() && (
                    #[trigger] q.slots[e2][j2]).addr == b.addr;
                assert(p.block_wf_in_slot(e2, p.slots[e2][j2]));
            }
        }
    }
}

/// Helper: the bump step is a multiple of the alignment.
proof fn lemma_step_divisible(p: PoolModel, n: nat)
    requires
        p.wf(),
    ensures
        spec_step(p, n) % p.align == 0,
        (p.next + spec_step(p, n)) % p.align == 0,
{
    let cap = round_up_pow2(n);
    lemma_round_up_pow2_bounds(n);
    if cap > p.align {
        lemma_round_up_pow2_exact(p.align);
        lemma_round_up_pow2_exact(cap);
        assert(pow2(exp_of(cap)) == cap);
        assert(pow2(exp_of(p.align)) == p.align);
        assert(exp_of(p.align) <= exp_of(cap)) by {
            if exp_of(cap) < exp_of(p.align) {
                vstd::arithmetic::power2::lemma_pow2_strictly_increases(
                    exp_of(cap),
                    exp_of(p.align),
                );
            }
        }
        lemma_pow2_divides(exp_of(cap), exp_of(p.align));
    } else {
        vstd::arithmetic::div_mod::lemma_mod_self_0(p.align as int);
    }
    let s = spec_step(p, n);
    assert(0int % (p.align as int) == 0) by {
        vstd::arithmetic::div_mod::lemma_small_mod(0, p.align);
    }
    vstd::arithmetic::div_mod::lemma_add_mod_noop(p.next as int, s as int, p.align as int);
}

/// Capacity rounding: for every requested size `n`, an allocation hands out
/// a block whose capacity is exactly the smallest power of two at or above
/// `max(1, n)`.
pub proof fn lemma_allocate_capacity(p: PoolModel, n: nat)
    requires
        p.wf(),
        round_up_pow2(n) <= usize::MAX,
    ensures
        spec_allocate_block(p, n).bytes.len() == round_up_pow2(n),
        round_up_pow2(n) >= 1,
        round_up_pow2(n) >= n,
        is_pow2(round_up_pow2(n)),
        forall|m: nat| #[trigger] is_pow2(m) && m >= n ==> round_up_pow2(n) <= m,
{
    lemma_round_up_pow2_bounds(n);
    lemma_allocate_wf(p, n);
    assert forall|m: nat| #[trigger] is_pow2(m) && m >= n implies round_up_pow2(n) <= m by {
        vstd::arithmetic::power2::lemma_pow2_pos(exp_of(m));
        if m < round_up_pow2(n) {
            if exp_of(m) >= exp_for(n) {
                if exp_of(m) > exp_for(n) {
                    vstd::arithmetic::power2::lemma_pow2_strictly_increases(
                        exp_for(n),
                        exp_of(m),
                    );
                }
            } else {
                if exp_of(m) < exp_for(n) - 1 {
                    vstd::arithmetic::power2::lemma_pow2_strictly_increases(
                        exp_of(m),
                        (exp_for(n) - 1) as nat,
                    );
                }
            }
        }
    }
}

/// Recycling: releasing a block into an empty size class and immediately
/// allocating its capacity again hands back the very same block — same
/// address, same bytes — and returns the pool to its prior state.
pub proof fn lemma_recycling_roundtrip(p: PoolModel, b: BlockModel)
    requires
        p.wf(),
        p.admits(b),
        !p.holds_addr(b.addr),
        p.slots[exp_of(b.bytes.len()) as int].len() == 0,
    ensures
        spec_allocate_block(spec_release(p, b), b.bytes.len()) == b,
        spec_allocate_pool(spec_release(p, b), b.bytes.len()) == p,
{
    let c = b.bytes.len();
    lemma_round_up_pow2_exact(c);
    lemma_release_wf(p, b);
    let q = spec_release(p, b);
    let e = exp_of(c) as int;
    assert(q.slots[e] == p.slots[e].push(b));
    assert(q.slots[e].len() == 1);
    assert(q.slots[e][0] == b);
    let r = spec_allocate_pool(q, c);
    assert(r.slots[e] =~= p.slots[e]);
    assert(r.slots =~= p.slots);
    assert(r == p);
}

/// A block handed out by an allocation never carries the address of a live
/// block: one whose address is not held by any free slot and lies below the
/// bump pointer.
pub proof fn lemma_allocate_fresh_addr(p: PoolModel, n: nat, a: nat)
    requires
        p.wf(),
        round_up_pow2(n) <= usize::MAX,
        !p.holds_addr(a),
        a < p.next,
    ensures
        spec_allocate_block(p, n).addr != a,
{
    let e = exp_for(n) as int;
    lemma_allocate_wf(p, n);
    if p.slots[e].len() > 0 {
        if p.slots[e][0].addr == a {
            assert(0 <= e < p.slots.len() && 0 <= 0 < p.slots[e].len()
                && p.slots[e][0].addr == a);
            assert(p.holds_addr(a));
        }
    }
}

} // verus!
