//! Packing a block address and a capacity exponent into one machine word.
//!
//! A fixed buffer's handle is a single word: the block's base address in the
//! high bits and the base-2 logarithm of its capacity in the low bits.  This
//! is sound only because every address the pool hands out is a multiple of the
//! alignment, so its low bits are zero and can carry the exponent; unpacking
//! splits the word back into the two components.

use vstd::prelude::*;
use vstd::arithmetic::div_mod::lemma_fundamental_div_mod;
use vstd::arithmetic::div_mod::lemma_mod_multiples_vanish;
use vstd::arithmetic::div_mod::lemma_small_mod;

verus! {

/// The packed word for address `addr` and exponent `exp`: the exponent sits
/// in the address's zero low bits, so the sum loses nothing.
pub open spec fn spec_pack(addr: nat, exp: nat) -> nat {
    addr + exp
}

/// The exponent held in packed word `w` under alignment `align`: the word
/// reduced to the low bits that an `align`-aligned address leaves free.
pub open spec fn spec_unpack_exp(w: nat, align: nat) -> nat
    recommends
        align >= 1,
{
    w % align
}

/// The base address held in packed word `w` under alignment `align`: the word
/// with its low exponent bits cleared.
pub open spec fn spec_unpack_addr(w: nat, align: nat) -> nat
    recommends
        align >= 1,
{
    (w - w % align) as nat
}

/// Packing any valid address/exponent pair and unpacking the word recovers
/// both components exactly.
pub proof fn lemma_pack_unpack(addr: nat, exp: nat, align: nat)
    requires
        align >= 1,
        addr % align == 0,
        exp < align,
    ensures
        spec_unpack_exp(spec_pack(addr, exp), align) == exp,
        spec_unpack_addr(spec_pack(addr, exp), align) == addr,
{
    let k = addr as int / align as int;
    lemma_fundamental_div_mod(addr as int, align as int);
    assert(addr as int == align * k);
    lemma_mod_multiples_vanish(k, exp as int, align as int);
    lemma_small_mod(exp, align);
    assert((addr + exp) as int % (align as int) == exp);
}

/// The address recovered from any word is itself aligned.
pub proof fn lemma_unpack_addr_aligned(w: nat, align: nat)
    requires
        align >= 1,
    ensures
        spec_unpack_addr(w, align) % align == 0,
{
    let wi = w as int;
    let ai = align as int;
    lemma_fundamental_div_mod(wi, ai);
    let k = wi / ai;
    assert((wi - wi % ai) == ai * k);
    lemma_mod_multiples_vanish(k, 0, ai);
}

/// Two distinct `m`-aligned values are at least `m` apart.
pub proof fn lemma_aligned_gap(a: nat, b: nat, m: nat)
    requires
        m >= 1,
        a % m == 0,
        b % m == 0,
        a < b,
    ensures
        a + m <= b,
{
    let d = (b - a) as nat;
    vstd::arithmetic::div_mod::lemma_add_mod_noop(a as int, d as int, m as int);
    lemma_small_mod(d % m, m);
    assert(d % m == 0);
    if d < m {
        lemma_small_mod(d, m);
    }
}

/// Pack `addr` and `exp` into one word.
pub fn pack(addr: usize, exp: usize, align: usize) -> (w: usize)
    requires
        align >= 1,
        addr % align == 0,
        exp < align,
        addr + exp <= usize::MAX,
    ensures
        w as nat == spec_pack(addr as nat, exp as nat),
        spec_unpack_exp(w as nat, align as nat) == exp,
        spec_unpack_addr(w as nat, align as nat) == addr,
{
    proof {
        lemma_pack_unpack(addr as nat, exp as nat, align as nat);
    }
    addr + exp
}

/// Recover the capacity exponent from packed word `w`.
pub fn unpack_exp(w: usize, align: usize) -> (exp: usize)
    requires
        align >= 1,
    ensures
        exp as nat == spec_unpack_exp(w as nat, align as nat),
        exp < align,
{
    w % align
}

/// Recover the base address from packed word `w`.
pub fn unpack_addr(w: usize, align: usize) -> (addr: usize)
    requires
        align >= 1,
    ensures
        addr as nat == spec_unpack_addr(w as nat, align as nat),
        addr % align == 0,
{
    proof {
        let wi = w as int;
        let ai = align as int;
        lemma_fundamental_div_mod(wi, ai);
        let k = wi / ai;
        assert((wi - wi % ai) == ai * k);
        lemma_mod_multiples_vanish(k, 0, ai);
    }
    w - w % align
}

} // verus!
