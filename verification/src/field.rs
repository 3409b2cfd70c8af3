//! Arithmetic in the Goldilocks prime field, the value domain of the solver.
//!
//! Field elements are canonical `u64` values strictly below the modulus.
//! The four ring operations are implemented and verified here against the
//! mathematical definitions; inversion and exponentiation are obtained from
//! the field implementation of the `powdr-number` crate.

use vstd::prelude::*;

use powdr_number::FieldElement;
use powdr_number::LargeInt;

verus! {

/// The Goldilocks prime: 2^64 - 2^32 + 1.
pub const GL_MODULUS: u64 = 0xffff_ffff_0000_0001;

/// A canonical representative of a field element.
pub open spec fn is_fe(v: u64) -> bool {
    v < GL_MODULUS
}

/// Addition in the field, on mathematical integers.
pub open spec fn f_add(a: int, b: int) -> int {
    (a + b) % (GL_MODULUS as int)
}

/// Subtraction in the field, on mathematical integers.
pub open spec fn f_sub(a: int, b: int) -> int {
    (a - b) % (GL_MODULUS as int)
}

/// Multiplication in the field, on mathematical integers.
pub open spec fn f_mul(a: int, b: int) -> int {
    (a * b) % (GL_MODULUS as int)
}

/// Additive inverse in the field, on mathematical integers.
pub open spec fn f_neg(a: int) -> int {
    (0 - a) % (GL_MODULUS as int)
}

pub fn fe_add(a: u64, b: u64) -> (r: u64)
    requires
        is_fe(a),
        is_fe(b),
    ensures
        is_fe(r),
        r as int == f_add(a as int, b as int),
{
    (((a as u128) + (b as u128)) % (GL_MODULUS as u128)) as u64
}

pub fn fe_sub(a: u64, b: u64) -> (r: u64)
    requires
        is_fe(a),
        is_fe(b),
    ensures
        is_fe(r),
        r as int == f_sub(a as int, b as int),
{
    proof {
        vstd::arithmetic::div_mod::lemma_mod_add_multiples_vanish(
            a as int - b as int,
            GL_MODULUS as int,
        );
    }
    (((a as u128) + (GL_MODULUS as u128) - (b as u128)) % (GL_MODULUS as u128)) as u64
}

pub fn fe_mul(a: u64, b: u64) -> (r: u64)
    requires
        is_fe(a),
        is_fe(b),
    ensures
        is_fe(r),
        r as int == f_mul(a as int, b as int),
{
    proof {
        vstd::arithmetic::mul::lemma_mul_upper_bound(
            a as int,
            u64::MAX as int,
            b as int,
            u64::MAX as int,
        );
    }
    (((a as u128) * (b as u128)) % (GL_MODULUS as u128)) as u64
}

/// Exponentiation in the field, on mathematical integers.
pub open spec fn f_pow(a: int, e: nat) -> int
    decreases e,
{
    if e == 0 {
        1
    } else {
        f_mul(a, f_pow(a, (e - 1) as nat))
    }
}

/// Relies on the `Div` impl of `powdr_number::GoldilocksField`, which
/// multiplies by the right operand's multiplicative inverse (computed by
/// Fermat's little theorem); it panics on a zero divisor, which the
/// precondition excludes.
#[verifier::external_body]
pub fn fe_inv(a: u64) -> (r: u64)
    requires
        0 < a < GL_MODULUS,
    ensures
        is_fe(r),
        (a as int * r as int) % (GL_MODULUS as int) == 1,
{
    let one = powdr_number::GoldilocksField::from(1u64);
    let x = powdr_number::GoldilocksField::from(a);
    (one / x).to_integer().try_into_u64().unwrap()
}

/// Relies on `powdr_number::FieldElement::pow` for `GoldilocksField`:
/// square-and-multiply exponentiation by the integer exponent.
#[verifier::external_body]
pub fn fe_pow(a: u64, e: u64) -> (r: u64)
    requires
        is_fe(a),
    ensures
        is_fe(r),
        r as int == f_pow(a as int, e as nat),
{
    let x = powdr_number::GoldilocksField::from(a);
    let exp = <powdr_number::GoldilocksField as FieldElement>::Integer::from(e);
    x.pow(exp).to_integer().try_into_u64().unwrap()
}

pub fn fe_neg(a: u64) -> (r: u64)
    requires
        is_fe(a),
    ensures
        is_fe(r),
        r as int == f_neg(a as int),
{
    if a == 0 {
        0
    } else {
        proof {
            vstd::arithmetic::div_mod::lemma_mod_add_multiples_vanish(
                0 - a as int,
                GL_MODULUS as int,
            );
            vstd::arithmetic::div_mod::lemma_small_mod(
                (GL_MODULUS - a) as nat,
                GL_MODULUS as nat,
            );
        }
        GL_MODULUS - a
    }
}

} // verus!
