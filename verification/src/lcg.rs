//! The seeded generator behind every procedural layout, and the single-precision
//! arithmetic its draws go through, carried out exactly in integers.
//!
//! A draw is `(state >> 40) / 2^24`, a value in `0.0..1.0` that single precision
//! holds exactly. Scaling it by a count and truncating is the only way the games
//! use a draw, so that one operation is modelled here: the count is rounded to
//! single precision, the product is rounded to nearest (ties to even) at 24
//! significant bits, and the quotient is truncated and saturated like a cast.
use vstd::prelude::*;

verus! {

/// Multiplier of the linear congruential generator.
pub const LCG_MULTIPLIER: u64 = 6364136223846793005;

/// Increment of the linear congruential generator.
pub const LCG_INCREMENT: u64 = 1442695040888963407;

/// Significands of single precision stay below this bound.
pub const SIGNIFICAND_LIMIT: u128 = 0x100_0000;

/// `2^64`, the modulus of the generator.
pub open spec fn word_modulus() -> nat {
    0x1_0000_0000_0000_0000
}

/// The generator state after one draw.
pub open spec fn lcg_next(state: u64) -> u64 {
    ((state as nat * LCG_MULTIPLIER as nat + LCG_INCREMENT as nat) % word_modulus()) as u64
}

/// The 24-bit numerator of the unit value a draw yields from its new state.
pub open spec fn unit_numerator(state: u64) -> nat {
    state as nat / 0x100_0000_0000
}

/// `2^e`.
pub open spec fn two_pow(e: nat) -> nat
    decreases e,
{
    if e == 0 {
        1
    } else {
        2 * two_pow((e - 1) as nat)
    }
}

/// Smallest shift, from `e` on and below 100, that brings `p` under the significand bound.
pub open spec fn significand_shift(p: nat, e: nat) -> nat
    decreases 100 - e,
{
    if e >= 100 || p / two_pow(e) < SIGNIFICAND_LIMIT {
        e
    } else {
        significand_shift(p, e + 1)
    }
}

/// `p` rounded to 24 significant bits, to nearest with ties to even.
pub open spec fn round_to_single(p: nat) -> nat {
    let e = significand_shift(p, 0);
    let u = two_pow(e);
    if e == 0 {
        p
    } else {
        let q = p / u;
        let r = p % u;
        if 2 * r > u || (2 * r == u && q % 2 == 1) {
            (q + 1) * u
        } else {
            q * u
        }
    }
}

/// A value truncated into `usize`, saturating at its maximum like a float cast.
pub open spec fn saturate_usize(v: nat) -> usize {
    if v > usize::MAX {
        usize::MAX
    } else {
        v as usize
    }
}

/// `numerator / 2^24` scaled by `count` in single precision and cast to `usize`.
pub open spec fn scaled_draw(numerator: nat, count: nat) -> usize {
    saturate_usize(round_to_single(numerator * round_to_single(count)) / 0x100_0000)
}

proof fn lemma_two_pow_positive(e: nat)
    ensures
        two_pow(e) >= 1,
    decreases e,
{
    if e > 0 {
        lemma_two_pow_positive((e - 1) as nat);
    }
}

/// Advances the generator by one draw and returns the numerator of the unit value.
pub fn next_unit(rng: &mut u64) -> (numerator: u64)
    ensures
        *final(rng) == lcg_next(*old(rng)),
        numerator == unit_numerator(*final(rng)),
        numerator < SIGNIFICAND_LIMIT,
{
    let product = rng.wrapping_mul(LCG_MULTIPLIER);
    let next = product.wrapping_add(LCG_INCREMENT);
    proof {
        let s = *old(rng) as nat;
        let m = LCG_MULTIPLIER as nat;
        let c = LCG_INCREMENT as nat;
        let w = word_modulus();
        assert(product as nat == (s * m) % w);
        vstd::arithmetic::div_mod::lemma_add_mod_noop((s * m) as int, c as int, w as int);
        vstd::arithmetic::div_mod::lemma_small_mod(c, w);
        assert(((s * m) % w + c) % w == (s * m + c) % w);
        if (s * m) % w + c > u64::MAX {
            vstd::arithmetic::div_mod::lemma_mod_sub_multiples_vanish(((s * m) % w + c - w) as int, w as int);
            assert(next as nat == (s * m) % w + c - w);
            vstd::arithmetic::div_mod::lemma_small_mod(((s * m) % w + c - w) as nat, w);
            assert(((s * m) % w + c) % w == (s * m) % w + c - w) by {
                vstd::arithmetic::div_mod::lemma_mod_add_multiples_vanish(((s * m) % w + c - w) as int, w as int);
            }
        } else {
            vstd::arithmetic::div_mod::lemma_small_mod(((s * m) % w + c) as nat, w);
        }
    }
    *rng = next;
    next / 0x100_0000_0000
}

/// `p` rounded to 24 significant bits, to nearest with ties to even.
pub fn round_single(p: u128) -> (r: u128)
    requires
        p < 0x10_0000_0000_0000_0000_0000_0000,
    ensures
        r == round_to_single(p as nat),
        r <= 2 * p,
{
    let mut e: u32 = 0;
    let mut u: u128 = 1;
    while e < 100 && p / u >= SIGNIFICAND_LIMIT
        invariant
            e <= 100,
            u as nat == two_pow(e as nat),
            u >= 1,
            u <= p || e == 0,
            significand_shift(p as nat, e as nat) == significand_shift(p as nat, 0),
            p < 0x10_0000_0000_0000_0000_0000_0000,
        decreases 100 - e,
    {
        proof {
            vstd::arithmetic::div_mod::lemma_fundamental_div_mod(p as int, u as int);
            assert(u * (p / u) >= u * SIGNIFICAND_LIMIT) by (nonlinear_arith)
                requires p / u >= SIGNIFICAND_LIMIT, u >= 1;
            assert(p % u >= 0) by {
                vstd::arithmetic::div_mod::lemma_mod_bound(p as int, u as int);
            }
        }
        u = u * 2;
        e = e + 1;
    }
    proof {
        lemma_two_pow_positive(e as nat);
    }
    if e == 0 {
        return p;
    }
    let q = p / u;
    let r = p % u;
    proof {
        vstd::arithmetic::div_mod::lemma_fundamental_div_mod(p as int, u as int);
        vstd::arithmetic::div_mod::lemma_mod_bound(p as int, u as int);
        assert(q * u <= p) by (nonlinear_arith)
            requires p == u * q + r, r >= 0;
    }
    if 2 * r > u || (2 * r == u && q % 2 == 1) {
        proof {
            assert((q + 1) * u == q * u + u) by (nonlinear_arith);
        }
        (q + 1) * u
    } else {
        q * u
    }
}

/// A unit draw with numerator `numerator` scaled by `count` in single precision,
/// truncated to `usize`.
pub fn scale_draw(numerator: u64, count: usize) -> (v: usize)
    requires
        numerator < SIGNIFICAND_LIMIT,
    ensures
        v == scaled_draw(numerator as nat, count as nat),
{
    let rounded_count = round_single(count as u128);
    proof {
        assert(numerator * rounded_count <= 0x100_0000 * (2 * 0x1_0000_0000_0000_0000))
            by (nonlinear_arith)
            requires numerator < 0x100_0000, rounded_count <= 2 * count, count < 0x1_0000_0000_0000_0000;
    }
    let product = (numerator as u128) * rounded_count;
    let rounded = round_single(product);
    let whole = rounded / 0x100_0000;
    if whole > usize::MAX as u128 {
        usize::MAX
    } else {
        whole as usize
    }
}

} // verus!

verus! {

proof fn lemma_two_pow_add(a: nat, b: nat)
    ensures
        two_pow(a + b) == two_pow(a) * two_pow(b),
    decreases a,
{
    if a == 0 {
        assert(two_pow(0) == 1);
        assert(a + b == b);
    } else {
        lemma_two_pow_add((a - 1) as nat, b);
        assert(two_pow(a + b) == 2 * two_pow((a - 1 + b) as nat));
        assert(two_pow(a) * two_pow(b) == 2 * (two_pow((a - 1) as nat) * two_pow(b))) by (nonlinear_arith)
            requires two_pow(a) == 2 * two_pow((a - 1) as nat);
    }
}

proof fn lemma_shift_at_most(p: nat, e: nat, bound: nat)
    requires
        e <= bound,
        bound <= 100,
        p / two_pow(bound) < SIGNIFICAND_LIMIT,
    ensures
        significand_shift(p, e) <= bound,
    decreases bound - e,
{
    if e < bound && !(p / two_pow(e) < SIGNIFICAND_LIMIT) {
        lemma_shift_at_most(p, e + 1, bound);
    }
}

/// Scaling a unit draw by a count below `2^24` never lands past the count.
pub proof fn lemma_scaled_draw_at_most_count(numerator: nat, count: nat)
    requires
        numerator < SIGNIFICAND_LIMIT,
        count < SIGNIFICAND_LIMIT,
    ensures
        scaled_draw(numerator, count) <= count,
{
    assert(two_pow(0) == 1);
    assert(significand_shift(count, 0) == 0);
    assert(round_to_single(count) == count);
    let p = numerator * count;
    let big: nat = 0x100_0000;
    assert(p < big * count || count == 0) by (nonlinear_arith)
        requires p == numerator * count, numerator < big;
    if count == 0 {
        assert(p == 0) by (nonlinear_arith)
            requires p == numerator * count, count == 0;
        assert(significand_shift(0, 0) == 0);
        return;
    }
    assert(two_pow(24) == big) by {
        reveal_with_fuel(two_pow, 25);
    }
    assert(big * count <= big * big) by (nonlinear_arith)
        requires count < big;
    assert(p / big < big) by {
        vstd::arithmetic::div_mod::lemma_multiply_divide_lt(p as int, big as int, big as int);
    }
    lemma_shift_at_most(p, 0, 24);
    let e = significand_shift(p, 0);
    let u = two_pow(e);
    lemma_two_pow_positive(e);
    let r = round_to_single(p);
    if e == 0 {
        assert(r == p);
    } else {
        let q = p / u;
        let m = two_pow((24 - e) as nat) * count;
        lemma_two_pow_add(e, (24 - e) as nat);
        assert(u * m == big * count) by (nonlinear_arith)
            requires u * two_pow((24 - e) as nat) == big, m == two_pow((24 - e) as nat) * count;
        vstd::arithmetic::div_mod::lemma_fundamental_div_mod(p as int, u as int);
        vstd::arithmetic::div_mod::lemma_mod_bound(p as int, u as int);
        assert(q * u <= p) by (nonlinear_arith)
            requires p == u * q + p % u, p % u >= 0;
        assert(q < m) by (nonlinear_arith)
            requires q * u <= p, p < u * m, u >= 1;
        assert((q + 1) * u <= m * u) by (nonlinear_arith)
            requires q + 1 <= m, u >= 1;
        assert(q * u <= (q + 1) * u) by (nonlinear_arith)
            requires u >= 1;
        assert(r == q * u || r == (q + 1) * u);
        assert(r <= (q + 1) * u);
    }
    assert(r <= big * count);
    assert(r / big <= count) by {
        vstd::arithmetic::div_mod::lemma_div_is_ordered(r as int, (big * count) as int, big as int);
        vstd::arithmetic::div_mod::lemma_div_multiples_vanish(count as int, big as int);
    }
}

} // verus!
