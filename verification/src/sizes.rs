//! Power-of-two size-class arithmetic.
//!
//! Every block the pool manages has a power-of-two capacity; requested sizes
//! are rounded up to the next power of two and routed to the free-list slot
//! indexed by the base-2 logarithm of that capacity.

use vstd::prelude::*;
use vstd::arithmetic::power2::pow2;
use vstd::arithmetic::power2::lemma_pow2_unfold;
use vstd::arithmetic::power2::lemma_pow2_pos;
use vstd::arithmetic::power2::lemma_pow2_strictly_increases;
use vstd::arithmetic::power2::lemma2_to64;

verus! {

/// Exponent of the smallest power of two that is at least `max(1, n)`.
pub open spec fn exp_for(n: nat) -> nat
    decreases n,
{
    if n <= 1 {
        0
    } else {
        1 + exp_for(((n + 1) / 2) as nat)
    }
}

/// Smallest power of two that is at least `max(1, n)`: the capacity a request
/// of `n` bytes is rounded up to.
pub open spec fn round_up_pow2(n: nat) -> nat {
    pow2(exp_for(n))
}

/// Number of times `n` can be halved before reaching 1; for a power of two
/// this is its base-2 logarithm.
pub open spec fn exp_of(n: nat) -> nat
    decreases n,
{
    if n < 2 {
        0
    } else {
        1 + exp_of(n / 2)
    }
}

/// `n` is an exact power of two.
pub open spec fn is_pow2(n: nat) -> bool {
    n == pow2(exp_of(n))
}

/// `pow2` and `exp_of` are inverses on powers of two.
pub proof fn lemma_exp_of_pow2(e: nat)
    ensures
        exp_of(pow2(e)) == e,
        is_pow2(pow2(e)),
    decreases e,
{
    if e == 0 {
        lemma2_to64();
    } else {
        lemma_pow2_unfold(e);
        lemma_pow2_pos((e - 1) as nat);
        lemma_exp_of_pow2((e - 1) as nat);
        assert(pow2(e) / 2 == pow2((e - 1) as nat));
    }
}

/// The rounded capacity is a power of two, at least 1, at least `n`, and the
/// smallest such: no smaller power of two reaches `n`.
pub proof fn lemma_round_up_pow2_bounds(n: nat)
    ensures
        round_up_pow2(n) >= n,
        round_up_pow2(n) >= 1,
        is_pow2(round_up_pow2(n)),
        n > 1 ==> pow2((exp_for(n) - 1) as nat) < n,
        n <= 1 ==> exp_for(n) == 0,
    decreases n,
{
    lemma_exp_of_pow2(exp_for(n));
    if n <= 1 {
        lemma2_to64();
    } else {
        let m = ((n + 1) / 2) as nat;
        assert(1 <= m < n);
        lemma_round_up_pow2_bounds(m);
        lemma_pow2_unfold((1 + exp_for(m)) as nat);
        assert(round_up_pow2(n) == 2 * round_up_pow2(m));
        assert(2 * m >= n);
        assert(round_up_pow2(n) >= n);
        if m == 1 {
            lemma2_to64();
            assert(pow2((exp_for(n) - 1) as nat) == 1);
        } else {
            lemma_pow2_unfold(exp_for(m));
            assert(round_up_pow2(m) == 2 * pow2((exp_for(m) - 1) as nat));
            assert(pow2((exp_for(m) - 1) as nat) < m);
            assert(2 * m <= n + 1);
            assert(round_up_pow2(m) < n);
        }
    }
}

/// Two exponents that are both minimal for reaching `n` are equal.
pub proof fn lemma_min_exp_unique(a: nat, b: nat, n: nat)
    requires
        pow2(a) >= n,
        a == 0 || pow2((a - 1) as nat) < n,
        pow2(b) >= n,
        b == 0 || pow2((b - 1) as nat) < n,
    ensures
        a == b,
{
    if a < b {
        lemma_pow2_pos(a);
        if a < b - 1 {
            lemma_pow2_strictly_increases(a, (b - 1) as nat);
        }
        assert(false);
    }
    if b < a {
        lemma_pow2_pos(b);
        if b < a - 1 {
            lemma_pow2_strictly_increases(b, (a - 1) as nat);
        }
        assert(false);
    }
}

/// Rounding is exact on powers of two, and the two exponent functions agree
/// there.
pub proof fn lemma_round_up_pow2_exact(c: nat)
    requires
        is_pow2(c),
    ensures
        round_up_pow2(c) == c,
        exp_for(c) == exp_of(c),
{
    let ee = exp_of(c);
    lemma_round_up_pow2_bounds(c);
    if c <= 1 {
        lemma2_to64();
    } else {
        assert(ee >= 1) by {
            if ee == 0 {
                lemma2_to64();
            }
        }
        lemma_pow2_strictly_increases((ee - 1) as nat, ee);
        lemma_min_exp_unique(exp_for(c), ee, c);
    }
}

/// A smaller power of two divides a larger one.
pub proof fn lemma_pow2_divides(a: nat, b: nat)
    requires
        b <= a,
    ensures
        pow2(a) % pow2(b) == 0,
{
    vstd::arithmetic::power2::lemma_pow2_adds(b, (a - b) as nat);
    lemma_pow2_pos(b);
    vstd::arithmetic::div_mod::lemma_mod_multiples_vanish(
        pow2((a - b) as nat) as int,
        0,
        pow2(b) as int,
    );
}

/// A power of two that fits in a `usize` has exponent below 64.
pub proof fn lemma_exp_fits_word(e: nat)
    requires
        pow2(e) <= usize::MAX,
    ensures
        e < 64,
{
    lemma2_to64();
    if e > 64 {
        lemma_pow2_strictly_increases(64, e);
    }
    assert(e != 64);
}

/// Round `n` up to the next power of two; a request of 0 rounds up to 1.
pub fn next_pow2(n: usize) -> (r: usize)
    requires
        n <= usize::MAX / 2 + 1,
    ensures
        r as nat == round_up_pow2(n as nat),
{
    let mut r: usize = 1;
    let ghost mut e: nat = 0;
    proof {
        lemma2_to64();
    }
    while r < n
        invariant
            n <= usize::MAX / 2 + 1,
            1 <= r,
            r as nat == pow2(e),
            e == 0 || pow2((e - 1) as nat) < n as nat,
        decreases 2 * n - r,
    {
        proof {
            lemma_pow2_unfold((e + 1) as nat);
        }
        r = r * 2;
        proof {
            e = e + 1;
        }
    }
    proof {
        lemma_round_up_pow2_bounds(n as nat);
        lemma_min_exp_unique(e, exp_for(n as nat), n as nat);
    }
    r
}

/// Base-2 logarithm of `cap`; exact when `cap` is a power of two.
pub fn log2_of(cap: usize) -> (e: usize)
    requires
        cap >= 1,
    ensures
        e as nat == exp_of(cap as nat),
        e < 64,
{
    let mut c: usize = cap;
    let mut e: usize = 0;
    proof {
        lemma2_to64();
        lemma_pow2_pos(0);
    }
    while c >= 2
        invariant
            1 <= c <= cap,
            exp_of(cap as nat) == e as nat + exp_of(c as nat),
            pow2(e as nat) * c <= cap,
            e < 64,
        decreases c,
    {
        let ghost p = pow2(e as nat);
        proof {
            lemma_pow2_pos(e as nat);
            lemma_pow2_unfold((e + 1) as nat);
            assert(2 * (c as nat / 2) <= c as nat);
            assert((2 * p) * (c as nat / 2) <= p * c as nat) by (nonlinear_arith)
                requires
                    p >= 1,
                    2 * (c as nat / 2) <= c as nat,
            ;
            assert(2 * p <= p * c as nat) by (nonlinear_arith)
                requires
                    p >= 1,
                    c as nat >= 2,
            ;
            lemma2_to64();
            lemma_exp_fits_word((e + 1) as nat);
        }
        c = c / 2;
        e = e + 1;
    }
    proof {
        let p = pow2(e as nat);
        assert(p * 1 == p) by (nonlinear_arith);
    }
    e
}

/// Halving down to 1 never overshoots: `2^exp_of(n)` is at most `n`.
pub proof fn lemma_pow2_exp_of_le(n: nat)
    requires
        n >= 1,
    ensures
        pow2(exp_of(n)) <= n,
    decreases n,
{
    if n < 2 {
        lemma2_to64();
    } else {
        lemma_pow2_exp_of_le(n / 2);
        lemma_pow2_unfold(exp_of(n));
    }
}

/// Whether `n` is a power of two.
pub fn is_power_of_two(n: usize) -> (r: bool)
    ensures
        r == is_pow2(n as nat),
{
    if n == 0 {
        proof {
            lemma2_to64();
        }
        false
    } else {
        let e = log2_of(n);
        proof {
            lemma_pow2_exp_of_le(n as nat);
        }
        let p = pow2_exec(e);
        p == n
    }
}

/// 2 to the power `e`, as a machine word.
pub fn pow2_exec(e: usize) -> (r: usize)
    requires
        pow2(e as nat) <= usize::MAX,
    ensures
        r as nat == pow2(e as nat),
{
    let mut r: usize = 1;
    let mut i: usize = 0;
    proof {
        lemma2_to64();
    }
    while i < e
        invariant
            i <= e,
            r as nat == pow2(i as nat),
            pow2(e as nat) <= usize::MAX,
        decreases e - i,
    {
        proof {
            lemma_pow2_unfold((i + 1) as nat);
            if i + 1 < e {
                lemma_pow2_strictly_increases((i + 1) as nat, e as nat);
            }
        }
        r = r * 2;
        i = i + 1;
    }
    r
}

} // verus!
