//! Fractions between zero and one in fixed point, as the ant colony's
//! weights use them.

use vstd::prelude::*;

verus! {

/// The fraction one: a fraction `f` stands for `f / FRACTION_ONE`.
pub const FRACTION_ONE: u64 = 0x8000_0000;

/// The quotient of `num` by `den` as a fraction, rounded down; one where
/// `num` is not below `den`.
pub open spec fn spec_fraction(num: nat, den: nat) -> nat {
    if num >= den {
        FRACTION_ONE as nat
    } else {
        num * (FRACTION_ONE as nat) / den
    }
}

/// The product of the first `e` factors `r`, each product rounded down to
/// a fraction; a factor above one counts as one.
pub open spec fn spec_fraction_power(r: nat, e: nat) -> nat
    decreases e,
{
    if e == 0 {
        FRACTION_ONE as nat
    } else if r >= FRACTION_ONE {
        spec_fraction_power(r, (e - 1) as nat)
    } else {
        spec_fraction_power(r, (e - 1) as nat) * r / (FRACTION_ONE as nat)
    }
}

/// The size of an exponent, whatever its sign.
pub open spec fn spec_magnitude(a: i32) -> nat {
    if a >= 0 {
        a as nat
    } else {
        (-a) as nat
    }
}

/// A power of a fraction is a fraction.
pub proof fn lemma_fraction_power_bound(r: nat, e: nat)
    ensures
        spec_fraction_power(r, e) <= FRACTION_ONE,
    decreases e,
{
    if e > 0 {
        lemma_fraction_power_bound(r, (e - 1) as nat);
        let p = spec_fraction_power(r, (e - 1) as nat);
        if r < FRACTION_ONE {
            assert(p * r / (FRACTION_ONE as nat) <= p) by (nonlinear_arith)
                requires
                    r < FRACTION_ONE,
                    FRACTION_ONE == 0x8000_0000,
            ;
        }
    }
}

/// Once a power has fallen to zero, every later power is zero.
pub proof fn lemma_fraction_power_stays_zero(r: nat, i: nat, e: nat)
    requires
        i <= e,
        spec_fraction_power(r, i) == 0,
    ensures
        spec_fraction_power(r, e) == 0,
    decreases e,
{
    if i < e {
        lemma_fraction_power_stays_zero(r, i, (e - 1) as nat);
        if r < FRACTION_ONE {
            assert(0 * r / (FRACTION_ONE as nat) == 0) by (nonlinear_arith)
                requires
                    FRACTION_ONE == 0x8000_0000,
            ;
        }
    }
}

/// Every power of one is one.
pub proof fn lemma_fraction_power_of_one(r: nat, e: nat)
    requires
        r >= FRACTION_ONE,
    ensures
        spec_fraction_power(r, e) == FRACTION_ONE,
    decreases e,
{
    if e > 0 {
        lemma_fraction_power_of_one(r, (e - 1) as nat);
    }
}

/// The quotient of `num` by `den` as a fraction.
pub fn fraction(num: u64, den: u64) -> (r: u64)
    ensures
        r == spec_fraction(num as nat, den as nat),
        r <= FRACTION_ONE,
{
    if num >= den {
        FRACTION_ONE
    } else {
        assert(num * FRACTION_ONE <= 0xffff_ffff_ffff_ffff * 0x8000_0000) by (nonlinear_arith)
            requires
                num <= 0xffff_ffff_ffff_ffff,
                FRACTION_ONE == 0x8000_0000,
        ;
        let scaled: u128 = num as u128 * FRACTION_ONE as u128;
        let q: u128 = scaled / den as u128;
        assert(q < FRACTION_ONE) by (nonlinear_arith)
            requires
                q == (num * FRACTION_ONE) / (den as int),
                0 <= num < den,
                FRACTION_ONE == 0x8000_0000,
        ;
        q as u64
    }
}

/// The size of an exponent, whatever its sign.
pub fn magnitude(a: i32) -> (m: u32)
    ensures
        m == spec_magnitude(a),
{
    if a >= 0 {
        a as u32
    } else {
        (-(a as i64)) as u32
    }
}

/// The power of a fraction, by repeated multiplication.
pub fn fraction_power(r: u64, e: u32) -> (p: u64)
    ensures
        p == spec_fraction_power(r as nat, e as nat),
        p <= FRACTION_ONE,
{
    if r >= FRACTION_ONE {
        proof {
            lemma_fraction_power_of_one(r as nat, e as nat);
        }
        return FRACTION_ONE;
    }
    let mut acc: u64 = FRACTION_ONE;
    let mut i: u32 = 0;
    while i < e
        invariant
            i <= e,
            r < FRACTION_ONE,
            acc == spec_fraction_power(r as nat, i as nat),
            acc <= FRACTION_ONE,
        decreases e - i,
    {
        if acc == 0 {
            proof {
                lemma_fraction_power_stays_zero(r as nat, i as nat, e as nat);
            }
            return 0;
        }
        proof {
            lemma_fraction_power_bound(r as nat, (i + 1) as nat);
        }
        assert(acc * r <= 0x8000_0000 * 0x8000_0000) by (nonlinear_arith)
            requires
                acc <= 0x8000_0000,
                r <= 0x8000_0000,
        ;
        acc = acc * r / FRACTION_ONE;
        i += 1;
    }
    acc
}

} // verus!
