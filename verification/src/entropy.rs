//! Base-2 logarithm in binary fixed point with sixteen fractional bits.
//!
//! Shannon entropy guides the solver's choice of the next cell, and only the
//! order and equality of entropies matter there. Both are served by a
//! deterministic fixed-point entropy: `log2_q16(x)` is an integer
//! approximation of `65536 * log2(x)`, exact whenever `x` is a power of two.

use vstd::prelude::*;

verus! {

/// Two to the power `e`.
pub open spec fn pw2(e: nat) -> nat
    decreases e,
{
    if e == 0 {
        1
    } else {
        2 * pw2((e - 1) as nat)
    }
}

/// The whole part of the base-2 logarithm of `x`.
pub open spec fn log2_floor(x: nat) -> nat
    decreases x,
{
    if x < 2 {
        0
    } else {
        1 + log2_floor(x / 2)
    }
}

/// The fractional bits of the base-2 logarithm, by repeated squaring of a
/// normalized mantissa `r` in `[65536, 131072)`; `k` bits remain to be
/// produced.
pub open spec fn frac_bits(r: nat, k: nat) -> nat
    decreases k,
{
    if k == 0 {
        0
    } else {
        let r2 = (r * r) / 65536;
        if r2 >= 131072 {
            pw2((k - 1) as nat) + frac_bits(r2 / 2, (k - 1) as nat)
        } else {
            frac_bits(r2, (k - 1) as nat)
        }
    }
}

/// The base-2 logarithm of `x`, scaled by 65536 and rounded down bitwise;
/// zero for `x == 0`.
pub open spec fn log2_q16(x: nat) -> nat {
    if x == 0 {
        0
    } else {
        65536 * log2_floor(x) + frac_bits((x * 65536) / pw2(log2_floor(x)), 16)
    }
}

/// The powers of two the fixed-point logarithm leans on.
pub proof fn lemma_pw2_values()
    ensures
        pw2(15) == 0x8000,
        pw2(16) == 0x10000,
        pw2(32) == 0x100000000,
        pw2(63) == 0x8000000000000000,
        pw2(64) == 0x10000000000000000,
{
    reveal_with_fuel(pw2, 17);
    assert(pw2(15) == 0x8000);
    assert(pw2(16) == 0x10000);
    lemma_pw2_adds(16, 16);
    assert(pw2(32) == 0x10000nat * 0x10000nat);
    lemma_pw2_adds(16, 15);
    assert(pw2(31) == 0x10000nat * 0x8000nat);
    lemma_pw2_adds(32, 31);
    assert(pw2(63) == 0x100000000nat * 0x80000000nat);
    lemma_pw2_adds(32, 32);
    assert(pw2(64) == 0x100000000nat * 0x100000000nat);
}

/// `x` lies between consecutive powers of two chosen by its logarithm.
pub proof fn lemma_log2_floor_bounds(x: nat)
    requires
        x >= 1,
    ensures
        pw2(log2_floor(x)) <= x < pw2(log2_floor(x) + 1),
    decreases x,
{
    if x >= 2 {
        lemma_log2_floor_bounds(x / 2);
    }
}

/// The logarithm never exceeds that of a larger argument's power bound.
pub proof fn lemma_log2_floor_le(x: nat, e: nat)
    requires
        1 <= x < pw2(e),
    ensures
        log2_floor(x) < e,
    decreases x,
{
    if x >= 2 {
        assert(pw2(e) == 2 * pw2((e - 1) as nat));
        lemma_log2_floor_le(x / 2, (e - 1) as nat);
    }
}

/// The fractional bits fit in `k` bits.
pub proof fn lemma_frac_bits_bound(r: nat, k: nat)
    ensures
        frac_bits(r, k) < pw2(k),
    decreases k,
{
    if k > 0 {
        let r2 = (r * r) / 65536;
        if r2 >= 131072 {
            lemma_frac_bits_bound(r2 / 2, (k - 1) as nat);
        } else {
            lemma_frac_bits_bound(r2, (k - 1) as nat);
        }
    }
}

/// A normalized mantissa of exactly one stays at one: every fractional bit of
/// a power of two is zero.
pub proof fn lemma_frac_bits_one(k: nat)
    ensures
        frac_bits(65536, k) == 0,
    decreases k,
{
    if k > 0 {
        assert((65536nat * 65536nat) / 65536nat == 65536nat);
        lemma_frac_bits_one((k - 1) as nat);
    }
}

/// The logarithm of a power of two is exact.
pub proof fn lemma_log2_q16_pow2(e: nat)
    ensures
        log2_q16(pw2(e)) == 65536 * e,
    decreases e,
{
    lemma_pw2_pos(e);
    assert(log2_floor(pw2(e)) == e) by {
        lemma_log2_floor_pow2(e);
    }
    assert((pw2(e) * 65536) / pw2(e) == 65536) by {
        lemma_pw2_pos(e);
        vstd::arithmetic::div_mod::lemma_div_multiples_vanish(
            65536,
            pw2(e) as int,
        );
        assert(pw2(e) * 65536 == pw2(e) as int * 65536) by {}
    }
    lemma_frac_bits_one(16);
}

/// Powers of two are positive.
pub proof fn lemma_pw2_pos(e: nat)
    ensures
        pw2(e) >= 1,
    decreases e,
{
    if e > 0 {
        lemma_pw2_pos((e - 1) as nat);
    }
}

/// The whole-part logarithm inverts `pw2`.
pub proof fn lemma_log2_floor_pow2(e: nat)
    ensures
        log2_floor(pw2(e)) == e,
    decreases e,
{
    lemma_pw2_pos(e);
    if e > 0 {
        lemma_pw2_pos((e - 1) as nat);
        assert(pw2(e) == 2 * pw2((e - 1) as nat));
        assert(pw2(e) / 2 == pw2((e - 1) as nat));
        lemma_log2_floor_pow2((e - 1) as nat);
    }
}

/// Powers of two add exponents when multiplied.
pub proof fn lemma_pw2_adds(a: nat, b: nat)
    ensures
        pw2(a + b) == pw2(a) * pw2(b),
    decreases a,
{
    if a > 0 {
        lemma_pw2_adds((a - 1) as nat, b);
        assert(((a + b - 1) as nat) == ((a - 1) as nat) + b);
        assert(pw2(a + b) == 2 * pw2(((a - 1) as nat) + b));
        assert(pw2(a + b) == 2 * (pw2((a - 1) as nat) * pw2(b)));
        assert(pw2(a) == 2 * pw2((a - 1) as nat));
        assert((2 * pw2((a - 1) as nat)) * pw2(b) == 2 * (pw2((a - 1) as nat) * pw2(b)))
            by (nonlinear_arith);
        assert(pw2(a) * pw2(b) == (2 * pw2((a - 1) as nat)) * pw2(b)) by (nonlinear_arith)
            requires
                pw2(a) == 2 * pw2((a - 1) as nat),
        ;
    } else {
        assert(pw2(a) == 1);
        assert(pw2(a + b) == pw2(b));
        assert(pw2(a) * pw2(b) == pw2(b)) by (nonlinear_arith)
            requires
                pw2(a) == 1,
        ;
    }
}

/// The base-2 logarithm of `x` in binary fixed point with sixteen
/// fractional bits, rounded down bitwise; zero for `x == 0`.
pub fn log2_fixed(x: usize) -> (r: u64)
    ensures
        r as nat == log2_q16(x as nat),
        r < 0x400000,
{
    proof {
        lemma_frac_bits_bound(0, 16);
    }
    if x == 0 {
        return 0;
    }
    proof {
        assert(pw2(64) > usize::MAX as nat) by {
            lemma_pw2_values();
        }
        lemma_log2_floor_le(x as nat, 64);
    }
    let mut t: usize = x;
    let mut p: u64 = 0;
    let mut pp: u64 = 1;
    while t >= 2
        invariant
            1 <= t <= x,
            x >= 1,
            log2_floor(x as nat) == p + log2_floor(t as nat),
            log2_floor(x as nat) < 64,
            p <= log2_floor(x as nat),
            pp as nat == pw2(p as nat),
            pp >= 1,
        decreases t,
    {
        proof {
            assert(log2_floor(t as nat) == 1 + log2_floor((t / 2) as nat));
            assert(pw2((p + 1) as nat) == 2 * pw2(p as nat));
            assert(p + 1 <= log2_floor(x as nat)) by {
                assert(log2_floor((t / 2) as nat) >= 0);
            }
            assert(pp as nat * 2 <= 0x8000000000000000nat) by {
                lemma_pw2_le((p + 1) as nat, 63);
                lemma_pw2_values();
            }
        }
        t = t / 2;
        p = p + 1;
        pp = pp * 2;
    }
    let ghost pn = p as nat;
    proof {
        assert(log2_floor(t as nat) == 0);
        assert(pn == log2_floor(x as nat));
        lemma_log2_floor_bounds(x as nat);
    }
    let q: u128 = ((x as u128) * 65536) / (pp as u128);
    proof {
        let xn = x as nat;
        assert((xn * 65536) / pw2(pn) >= 65536) by (nonlinear_arith)
            requires
                pw2(pn) <= xn,
                pw2(pn) >= 1,
        ;
        assert((xn * 65536) / pw2(pn) < 131072) by (nonlinear_arith)
            requires
                xn < pw2(pn + 1),
                pw2(pn + 1) == 2 * pw2(pn),
                pw2(pn) >= 1,
        ;
        assert(q as nat == (xn * 65536) / pw2(pn));
    }
    let r0: u64 = q as u64;
    proof {
        lemma_pw2_values();
    }
    let mut r: u64 = r0;
    let mut acc: u64 = 0;
    let mut bit: u64 = 32768;
    let mut k: u64 = 16;
    while k > 0
        invariant
            65536 <= r < 131072,
            k <= 16,
            k >= 1 ==> bit as nat == pw2((k - 1) as nat),
            acc + pw2(k as nat) <= pw2(16),
            acc as nat + frac_bits(r as nat, k as nat) == frac_bits(r0 as nat, 16),
        decreases k,
    {
        proof {
            assert((r as nat) * (r as nat) >= 4294967296nat) by (nonlinear_arith)
                requires
                    (r as nat) >= 65536,
            ;
            assert((r as nat) * (r as nat) < 17179869184nat) by (nonlinear_arith)
                requires
                    (r as nat) < 131072,
            ;
            assert(pw2(k as nat) == 2 * pw2((k - 1) as nat));
            lemma_pw2_values();
        }
        let r2: u64 = (r * r) / 65536;
        if r2 >= 131072 {
            acc = acc + bit;
            r = r2 / 2;
        } else {
            r = r2;
        }
        bit = bit / 2;
        k = k - 1;
        proof {
            if k >= 1 {
                assert(pw2(((k + 1) - 1) as nat) == 2 * pw2((k - 1) as nat));
            }
        }
    }
    proof {
        lemma_pw2_values();
        assert(frac_bits(r as nat, 0) == 0);
        assert(65536nat * log2_floor(x as nat) + frac_bits(r0 as nat, 16) < 65536nat * 64) by {
            lemma_frac_bits_bound(r0 as nat, 16);
            lemma_pw2_values();
        }
    }
    p * 65536 + acc
}

/// A smaller exponent gives a power of two no larger.
pub proof fn lemma_pw2_le(a: nat, b: nat)
    requires
        a <= b,
    ensures
        pw2(a) <= pw2(b),
    decreases b,
{
    if a < b {
        lemma_pw2_le(a, (b - 1) as nat);
        lemma_pw2_pos((b - 1) as nat);
    }
}

} // verus!
