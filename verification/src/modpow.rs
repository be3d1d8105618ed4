//! Modular exponentiation on 128-bit integers.
use vstd::prelude::*;
use vstd::arithmetic::power::*;
use vstd::arithmetic::div_mod::*;
use vstd::arithmetic::mul::*;

verus! {

/// The largest modulus whose products of residues still fit in 128 bits.
pub open spec fn modulus_bound() -> int {
    0x1_0000_0000_0000_0000
}

/// `base` raised to `exponent`, reduced modulo `modulus`; an exponent of zero
/// gives 1 whatever the modulus.
pub open spec fn modpow_value(base: int, exponent: nat, modulus: int) -> int {
    if exponent == 0 {
        1
    } else {
        pow(base, exponent) % modulus
    }
}

/// Exponentiation modulo a number.
pub trait ModPow<T> {
    /// The inputs on which `modpow` is defined.
    spec fn modpow_accepts(&self, exponent: &T, modulus: &T) -> bool;

    /// What `modpow` returns.
    spec fn modpow_spec(&self, exponent: &T, modulus: &T) -> T;

    fn modpow(&self, exponent: &T, modulus: &T) -> (r: T)
        requires
            self.modpow_accepts(exponent, modulus),
        ensures
            r == self.modpow_spec(exponent, modulus),
    ;
}

proof fn lemma_shr1_is_div2(x: u128)
    ensures
        x >> 1 == x / 2,
        x % 2 == 1 || x % 2 == 0,
{
    assert(x >> 1 == x / 2) by (bit_vector);
}

/// One squaring step keeps `res * base^exp` fixed modulo `m`.
proof fn lemma_square_step(res: int, base: int, exp: nat, m: int)
    requires
        m > 0,
    ensures
        ({
            let q = exp / 2;
            let res2 = if exp % 2 == 1 { (res * base) % m } else { res };
            (res2 * pow((base * base) % m, q)) % m == (res * pow(base, exp)) % m
        }),
{
    let q = exp / 2;
    let r = exp % 2;
    assert(exp == 2 * q + r);
    lemma_pow_multiplies(base, 2, q);
    lemma_square_is_pow2(base);
    lemma_pow_adds(base, 2 * q, r as nat);
    lemma_pow_mod_noop(base * base, q, m);
    let bq = pow((base * base) % m, q);
    let full = pow(base * base, q);
    // bq == full (mod m)
    if r == 1 {
        lemma_pow1(base);
        // res2 * bq == (res*base % m) * bq == res*base*full == res * pow(base, exp)
        lemma_mul_mod_noop_left(res * base, bq, m);
        lemma_mul_mod_noop_right(res * base, bq, m);
        lemma_mul_mod_noop_right(res * base, full, m);
        assert(pow(base, exp) == full * base) by {
            assert(pow(base, (2 * q + r) as nat) == pow(base, 2 * q) * pow(base, r as nat));
        }
        lemma_mul_is_associative(res, base, full);
        lemma_mul_is_commutative(base, full);
        lemma_mul_is_associative(res, full, base);
    } else {
        assert(pow(base, 0) == 1) by {
            reveal(pow);
        }
        assert(pow(base, exp) == full) by {
            assert(pow(base, (2 * q + r) as nat) == pow(base, 2 * q) * pow(base, r as nat));
        }
        lemma_mul_mod_noop_right(res, bq, m);
        lemma_mul_mod_noop_right(res, full, m);
    }
}

impl ModPow<u128> for u128 {
    open spec fn modpow_accepts(&self, exponent: &u128, modulus: &u128) -> bool {
        0 < *modulus <= modulus_bound()
    }

    open spec fn modpow_spec(&self, exponent: &u128, modulus: &u128) -> u128 {
        modpow_value(*self as int, *exponent as nat, *modulus as int) as u128
    }

    /// Square-and-multiply; the modulus must be non-zero and at most 2^64.
    fn modpow(&self, exponent: &u128, modulus: &u128) -> (r: u128) {
        let m = *modulus;
        if *exponent == 0u128 {
            return 1;
        }
        let mut base: u128 = *self % m;
        let mut exp: u128 = *exponent;
        let mut res: u128 = 1;
        proof {
            lemma_pow_mod_noop(*self as int, *exponent as nat, m as int);
            lemma_mod_twice(pow(*self as int, *exponent as nat), m as int);
        }
        while exp > 0
            invariant
                0 < m <= modulus_bound(),
                base < m,
                res < m || (res == 1 && exp > 0),
                (res * pow(base as int, exp as nat)) % (m as int)
                    == pow(*self as int, *exponent as nat) % (m as int),
            decreases exp,
        {
            proof {
                lemma_shr1_is_div2(exp);
                lemma_square_step(res as int, base as int, exp as nat, m as int);
                assert((m - 1) * (m - 1) <= 0xffff_ffff_ffff_ffff_ffff_ffff_ffff_ffff) by (nonlinear_arith)
                    requires 0 < m <= 0x1_0000_0000_0000_0000;
                assert(base * base <= (m - 1) * (m - 1)) by (nonlinear_arith)
                    requires base <= m - 1;
                assert(res * base <= (m - 1) * (m - 1) || res * base <= base) by (nonlinear_arith)
                    requires res <= m - 1 || res == 1, base <= m - 1;
            }
            if exp % 2 == 1 {
                res = res * base % m;
            }
            exp = exp >> 1;
            base = base * base % m;
        }
        proof {
            assert(pow(base as int, 0) == 1) by {
                reveal(pow);
            }
            lemma_small_mod(res as nat, m as nat);
        }
        res
    }
}

} // verus!
