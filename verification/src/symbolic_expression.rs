//! Symbolic values over already-known cells.
//!
//! A `SymbolicExpression` describes the value of a fully determined quantity:
//! a field constant, a reference to a cell whose value is known (possibly only
//! at execution time), or field arithmetic over such values. The constructors
//! fold constants and apply unit simplifications; each carries a contract that
//! the built expression evaluates, under every well-formed assignment of cell
//! values, to the field operation applied to the operands' values.

use vstd::prelude::*;

use crate::cell::Cell;
use crate::field::{f_add, f_mul, f_neg, f_sub, fe_add, fe_mul, fe_neg, fe_sub, is_fe, GL_MODULUS};

verus! {

#[derive(Debug)]
pub enum SymbolicExpression {
    /// A compile-time field constant.
    Concrete(u64),
    /// The value of a cell that is known by the time this expression is used.
    Symbol(Cell),
    Add(Box<SymbolicExpression>, Box<SymbolicExpression>),
    Sub(Box<SymbolicExpression>, Box<SymbolicExpression>),
    Mul(Box<SymbolicExpression>, Box<SymbolicExpression>),
    Neg(Box<SymbolicExpression>),
}

/// Every constant in the expression is a canonical field value.
pub open spec fn sym_wf(e: SymbolicExpression) -> bool
    decreases e,
{
    match e {
        SymbolicExpression::Concrete(v) => is_fe(v),
        SymbolicExpression::Symbol(_) => true,
        SymbolicExpression::Add(a, b) => sym_wf(*a) && sym_wf(*b),
        SymbolicExpression::Sub(a, b) => sym_wf(*a) && sym_wf(*b),
        SymbolicExpression::Mul(a, b) => sym_wf(*a) && sym_wf(*b),
        SymbolicExpression::Neg(a) => sym_wf(*a),
    }
}

/// The expression reads the value of cell `c`.
pub open spec fn sym_mentions(e: SymbolicExpression, c: Cell) -> bool
    decreases e,
{
    match e {
        SymbolicExpression::Concrete(_) => false,
        SymbolicExpression::Symbol(s) => s == c,
        SymbolicExpression::Add(a, b) => sym_mentions(*a, c) || sym_mentions(*b, c),
        SymbolicExpression::Sub(a, b) => sym_mentions(*a, c) || sym_mentions(*b, c),
        SymbolicExpression::Mul(a, b) => sym_mentions(*a, c) || sym_mentions(*b, c),
        SymbolicExpression::Neg(a) => sym_mentions(*a, c),
    }
}

/// An assignment of a canonical field value to every cell.
pub open spec fn env_ok(env: spec_fn(Cell) -> int) -> bool {
    forall|c: Cell| 0 <= #[trigger] env(c) < GL_MODULUS
}

/// The value of the expression under an assignment of cell values.
pub open spec fn sym_eval(e: SymbolicExpression, env: spec_fn(Cell) -> int) -> int
    decreases e,
{
    match e {
        SymbolicExpression::Concrete(v) => v as int,
        SymbolicExpression::Symbol(s) => env(s),
        SymbolicExpression::Add(a, b) => f_add(sym_eval(*a, env), sym_eval(*b, env)),
        SymbolicExpression::Sub(a, b) => f_sub(sym_eval(*a, env), sym_eval(*b, env)),
        SymbolicExpression::Mul(a, b) => f_mul(sym_eval(*a, env), sym_eval(*b, env)),
        SymbolicExpression::Neg(a) => f_neg(sym_eval(*a, env)),
    }
}

/// A well-formed expression evaluates to a canonical field value.
pub proof fn lemma_sym_eval_in_range(e: SymbolicExpression, env: spec_fn(Cell) -> int)
    requires
        sym_wf(e),
        env_ok(env),
    ensures
        0 <= sym_eval(e, env) < GL_MODULUS,
    decreases e,
{
    match e {
        SymbolicExpression::Concrete(_) => {},
        SymbolicExpression::Symbol(_) => {},
        SymbolicExpression::Add(a, b) => {
            vstd::arithmetic::div_mod::lemma_mod_bound(
                sym_eval(*a, env) + sym_eval(*b, env),
                GL_MODULUS as int,
            );
        },
        SymbolicExpression::Sub(a, b) => {
            vstd::arithmetic::div_mod::lemma_mod_bound(
                sym_eval(*a, env) - sym_eval(*b, env),
                GL_MODULUS as int,
            );
        },
        SymbolicExpression::Mul(a, b) => {
            vstd::arithmetic::div_mod::lemma_mod_bound(
                sym_eval(*a, env) * sym_eval(*b, env),
                GL_MODULUS as int,
            );
        },
        SymbolicExpression::Neg(a) => {
            vstd::arithmetic::div_mod::lemma_mod_bound(0 - sym_eval(*a, env), GL_MODULUS as int);
        },
    }
}

/// Negating twice gives the value back.
pub proof fn lemma_f_neg_involution(x: int)
    requires
        0 <= x < GL_MODULUS,
    ensures
        f_neg(f_neg(x)) == x,
{
    if x == 0 {
        vstd::arithmetic::div_mod::lemma_small_mod(0, GL_MODULUS as nat);
    } else {
        vstd::arithmetic::div_mod::lemma_mod_add_multiples_vanish(0 - x, GL_MODULUS as int);
        vstd::arithmetic::div_mod::lemma_small_mod((GL_MODULUS - x) as nat, GL_MODULUS as nat);
        vstd::arithmetic::div_mod::lemma_mod_add_multiples_vanish(
            0 - (GL_MODULUS - x),
            GL_MODULUS as int,
        );
        vstd::arithmetic::div_mod::lemma_small_mod(x as nat, GL_MODULUS as nat);
    }
}

/// The concrete value of the expression, if it is a constant.
pub open spec fn sym_as_concrete(e: SymbolicExpression) -> Option<u64> {
    match e {
        SymbolicExpression::Concrete(v) => Some(v),
        _ => None,
    }
}

impl SymbolicExpression {
    /// The concrete value, if this expression is a compile-time constant.
    pub fn try_to_number(&self) -> (r: Option<u64>)
        ensures
            r == sym_as_concrete(*self),
    {
        match self {
            SymbolicExpression::Concrete(v) => Some(*v),
            _ => None,
        }
    }
}


/// The exact expression `sym_add` builds, as a function of its operands.
pub open spec fn spec_sym_add(a: SymbolicExpression, b: SymbolicExpression) -> SymbolicExpression {
    match (sym_as_concrete(a), sym_as_concrete(b)) {
        (Some(x), Some(y)) => SymbolicExpression::Concrete(f_add(x as int, y as int) as u64),
        (Some(x), None) => if x == 0 {
            b
        } else {
            SymbolicExpression::Add(Box::new(a), Box::new(b))
        },
        (None, Some(y)) => if y == 0 {
            a
        } else {
            SymbolicExpression::Add(Box::new(a), Box::new(b))
        },
        (None, None) => SymbolicExpression::Add(Box::new(a), Box::new(b)),
    }
}

/// The exact expression `sym_neg` builds, as a function of its operand.
pub open spec fn spec_sym_neg(a: SymbolicExpression) -> SymbolicExpression {
    match a {
        SymbolicExpression::Concrete(x) => SymbolicExpression::Concrete(f_neg(x as int) as u64),
        SymbolicExpression::Neg(inner) => *inner,
        _ => SymbolicExpression::Neg(Box::new(a)),
    }
}

/// The exact expression `sym_sub` builds, as a function of its operands.
pub open spec fn spec_sym_sub(a: SymbolicExpression, b: SymbolicExpression) -> SymbolicExpression {
    match (sym_as_concrete(a), sym_as_concrete(b)) {
        (Some(x), Some(y)) => SymbolicExpression::Concrete(f_sub(x as int, y as int) as u64),
        (None, Some(y)) => if y == 0 {
            a
        } else {
            SymbolicExpression::Sub(Box::new(a), Box::new(b))
        },
        (Some(x), None) => if x == 0 {
            spec_sym_neg(b)
        } else {
            SymbolicExpression::Sub(Box::new(a), Box::new(b))
        },
        (None, None) => SymbolicExpression::Sub(Box::new(a), Box::new(b)),
    }
}

/// The exact expression `sym_mul` builds, as a function of its operands.
pub open spec fn spec_sym_mul(a: SymbolicExpression, b: SymbolicExpression) -> SymbolicExpression {
    match (sym_as_concrete(a), sym_as_concrete(b)) {
        (Some(x), Some(y)) => SymbolicExpression::Concrete(f_mul(x as int, y as int) as u64),
        (Some(x), None) => if x == 0 {
            SymbolicExpression::Concrete(0)
        } else if x == 1 {
            b
        } else {
            SymbolicExpression::Mul(Box::new(a), Box::new(b))
        },
        (None, Some(y)) => if y == 0 {
            SymbolicExpression::Concrete(0)
        } else if y == 1 {
            a
        } else {
            SymbolicExpression::Mul(Box::new(a), Box::new(b))
        },
        (None, None) => SymbolicExpression::Mul(Box::new(a), Box::new(b)),
    }
}

/// Field addition of two symbolic values, folding constants.
pub fn sym_add(a: SymbolicExpression, b: SymbolicExpression) -> (r: SymbolicExpression)
    requires
        sym_wf(a),
        sym_wf(b),
    ensures
        sym_wf(r),
        r == spec_sym_add(a, b),
        forall|c: Cell| #[trigger] sym_mentions(r, c) ==> sym_mentions(a, c) || sym_mentions(b, c),
        forall|env: spec_fn(Cell) -> int|
            env_ok(env) ==> #[trigger] sym_eval(r, env) == f_add(
                sym_eval(a, env),
                sym_eval(b, env),
            ),
{
    let a_conc = a.try_to_number();
    let b_conc = b.try_to_number();
    if let (Some(x), Some(y)) = (a_conc, b_conc) {
        return SymbolicExpression::Concrete(fe_add(x, y));
    }
    if let Some(x) = a_conc {
        if x == 0 {
            assert forall|env: spec_fn(Cell) -> int| env_ok(env) implies #[trigger] sym_eval(
                b,
                env,
            ) == f_add(sym_eval(a, env), sym_eval(b, env)) by {
                lemma_sym_eval_in_range(b, env);
                vstd::arithmetic::div_mod::lemma_small_mod(
                    sym_eval(b, env) as nat,
                    GL_MODULUS as nat,
                );
            }
            return b;
        }
    }
    if let Some(y) = b_conc {
        if y == 0 {
            assert forall|env: spec_fn(Cell) -> int| env_ok(env) implies #[trigger] sym_eval(
                a,
                env,
            ) == f_add(sym_eval(a, env), sym_eval(b, env)) by {
                lemma_sym_eval_in_range(a, env);
                vstd::arithmetic::div_mod::lemma_small_mod(
                    sym_eval(a, env) as nat,
                    GL_MODULUS as nat,
                );
            }
            return a;
        }
    }
    SymbolicExpression::Add(Box::new(a), Box::new(b))
}

/// Field negation of a symbolic value, folding constants and cancelling a
/// double negation.
pub fn sym_neg(a: SymbolicExpression) -> (r: SymbolicExpression)
    requires
        sym_wf(a),
    ensures
        sym_wf(r),
        r == spec_sym_neg(a),
        forall|c: Cell| #[trigger] sym_mentions(r, c) ==> sym_mentions(a, c),
        forall|env: spec_fn(Cell) -> int|
            env_ok(env) ==> #[trigger] sym_eval(r, env) == f_neg(sym_eval(a, env)),
{
    match a {
        SymbolicExpression::Concrete(x) => SymbolicExpression::Concrete(fe_neg(x)),
        SymbolicExpression::Neg(inner) => {
            let r = *inner;
            assert forall|env: spec_fn(Cell) -> int| env_ok(env) implies #[trigger] sym_eval(
                r,
                env,
            ) == f_neg(f_neg(sym_eval(r, env))) by {
                lemma_sym_eval_in_range(r, env);
                lemma_f_neg_involution(sym_eval(r, env));
            }
            r
        },
        other => SymbolicExpression::Neg(Box::new(other)),
    }
}

/// Field subtraction of two symbolic values, folding constants.
pub fn sym_sub(a: SymbolicExpression, b: SymbolicExpression) -> (r: SymbolicExpression)
    requires
        sym_wf(a),
        sym_wf(b),
    ensures
        sym_wf(r),
        r == spec_sym_sub(a, b),
        forall|c: Cell| #[trigger] sym_mentions(r, c) ==> sym_mentions(a, c) || sym_mentions(b, c),
        forall|env: spec_fn(Cell) -> int|
            env_ok(env) ==> #[trigger] sym_eval(r, env) == f_sub(
                sym_eval(a, env),
                sym_eval(b, env),
            ),
{
    let a_conc = a.try_to_number();
    let b_conc = b.try_to_number();
    if let (Some(x), Some(y)) = (a_conc, b_conc) {
        return SymbolicExpression::Concrete(fe_sub(x, y));
    }
    if let Some(y) = b_conc {
        if y == 0 {
            assert forall|env: spec_fn(Cell) -> int| env_ok(env) implies #[trigger] sym_eval(
                a,
                env,
            ) == f_sub(sym_eval(a, env), sym_eval(b, env)) by {
                lemma_sym_eval_in_range(a, env);
                vstd::arithmetic::div_mod::lemma_small_mod(
                    sym_eval(a, env) as nat,
                    GL_MODULUS as nat,
                );
            }
            return a;
        }
    }
    if let Some(x) = a_conc {
        if x == 0 {
            return sym_neg(b);
        }
    }
    SymbolicExpression::Sub(Box::new(a), Box::new(b))
}

/// Field multiplication of two symbolic values, folding constants and
/// simplifying multiplication by zero and one.
pub fn sym_mul(a: SymbolicExpression, b: SymbolicExpression) -> (r: SymbolicExpression)
    requires
        sym_wf(a),
        sym_wf(b),
    ensures
        sym_wf(r),
        r == spec_sym_mul(a, b),
        forall|c: Cell| #[trigger] sym_mentions(r, c) ==> sym_mentions(a, c) || sym_mentions(b, c),
        forall|env: spec_fn(Cell) -> int|
            env_ok(env) ==> #[trigger] sym_eval(r, env) == f_mul(
                sym_eval(a, env),
                sym_eval(b, env),
            ),
{
    let a_conc = a.try_to_number();
    let b_conc = b.try_to_number();
    if let (Some(x), Some(y)) = (a_conc, b_conc) {
        return SymbolicExpression::Concrete(fe_mul(x, y));
    }
    if let Some(x) = a_conc {
        if x == 0 {
            assert forall|env: spec_fn(Cell) -> int| env_ok(env) implies 0 == f_mul(
                sym_eval(a, env),
                sym_eval(b, env),
            ) by {
                vstd::arithmetic::mul::lemma_mul_basics(sym_eval(b, env));
                vstd::arithmetic::div_mod::lemma_small_mod(0, GL_MODULUS as nat);
            }
            return SymbolicExpression::Concrete(0);
        }
        if x == 1 {
            assert forall|env: spec_fn(Cell) -> int| env_ok(env) implies #[trigger] sym_eval(
                b,
                env,
            ) == f_mul(sym_eval(a, env), sym_eval(b, env)) by {
                vstd::arithmetic::mul::lemma_mul_basics(sym_eval(b, env));
                lemma_sym_eval_in_range(b, env);
                vstd::arithmetic::div_mod::lemma_small_mod(
                    sym_eval(b, env) as nat,
                    GL_MODULUS as nat,
                );
            }
            return b;
        }
    }
    if let Some(y) = b_conc {
        if y == 0 {
            assert forall|env: spec_fn(Cell) -> int| env_ok(env) implies 0 == f_mul(
                sym_eval(a, env),
                sym_eval(b, env),
            ) by {
                vstd::arithmetic::mul::lemma_mul_basics(sym_eval(a, env));
                vstd::arithmetic::div_mod::lemma_small_mod(0, GL_MODULUS as nat);
            }
            return SymbolicExpression::Concrete(0);
        }
        if y == 1 {
            assert forall|env: spec_fn(Cell) -> int| env_ok(env) implies #[trigger] sym_eval(
                a,
                env,
            ) == f_mul(sym_eval(a, env), sym_eval(b, env)) by {
                vstd::arithmetic::mul::lemma_mul_basics(sym_eval(a, env));
                lemma_sym_eval_in_range(a, env);
                vstd::arithmetic::div_mod::lemma_small_mod(
                    sym_eval(a, env) as nat,
                    GL_MODULUS as nat,
                );
            }
            return a;
        }
    }
    SymbolicExpression::Mul(Box::new(a), Box::new(b))
}

} // verus!
