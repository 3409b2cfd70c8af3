use std::collections::HashSet;

use witgen_core::affine_symbolic_expression::{
    AffineSymbolicExpression, Effect, MachineCallArgument,
};
use witgen_core::cell::Cell;
use witgen_core::expression::{
    AlgebraicBinaryOperation, AlgebraicBinaryOperator, AlgebraicReference, ColumnKind,
    Expression, Identity, LookupFamilyIdentity, LookupKind, PolynomialIdentity,
    SelectedExpressions,
};
use witgen_core::field::{fe_add, fe_inv, fe_mul, fe_neg, fe_pow, fe_sub, GL_MODULUS};
use witgen_core::range_constraint::RangeConstraint;
use witgen_core::symbolic_expression::SymbolicExpression;
use witgen_core::witgen_inference::{FixedEvaluator, WitgenInference};

struct NoFixed;

impl FixedEvaluator for NoFixed {
    fn evaluate(&self, _var: &AlgebraicReference, _row_offset: i32) -> Option<u64> {
        None
    }
}

fn wit(id: u64) -> Expression {
    Expression::Reference(AlgebraicReference { id, kind: ColumnKind::Witness, next: false })
}

fn fixed_col(id: u64) -> Expression {
    Expression::Reference(AlgebraicReference { id, kind: ColumnKind::Fixed, next: false })
}

fn num(n: u64) -> Expression {
    Expression::Number(n)
}

fn bin(left: Expression, op: AlgebraicBinaryOperator, right: Expression) -> Expression {
    Expression::BinaryOperation(Box::new(AlgebraicBinaryOperation { left, op, right }))
}

fn poly_eq(id: u64, lhs: Expression, rhs: Expression) -> Identity {
    Identity::Polynomial(PolynomialIdentity {
        id,
        expression: bin(lhs, AlgebraicBinaryOperator::Sub, rhs),
    })
}

fn cell(id: u64, row: i64) -> Cell {
    Cell { id, row_offset: row }
}

fn sym_cells(e: &SymbolicExpression, out: &mut Vec<Cell>) {
    match e {
        SymbolicExpression::Concrete(_) => {}
        SymbolicExpression::Symbol(c) => out.push(*c),
        SymbolicExpression::Add(a, b)
        | SymbolicExpression::Sub(a, b)
        | SymbolicExpression::Mul(a, b) => {
            sym_cells(a, out);
            sym_cells(b, out);
        }
        SymbolicExpression::Neg(a) => sym_cells(a, out),
    }
}

fn aff_read_cells(e: &AffineSymbolicExpression, out: &mut Vec<Cell>) {
    sym_cells(&e.offset, out);
    for (_, k) in &e.coefficients {
        sym_cells(k, out);
    }
}

/// Replays the code top to bottom and checks that every operand referenced by
/// an `Assignment` or `MachineCall` is already known at that point, and that
/// no cell is assigned twice.
fn check_executable(code: &[Effect], initially_known: &[Cell]) {
    let mut known: HashSet<(u64, i64)> = HashSet::new();
    for c in initially_known {
        known.insert((c.id, c.row_offset));
    }
    let mut assigned: HashSet<(u64, i64)> = HashSet::new();
    for effect in code {
        match effect {
            Effect::Assignment(c, expr) => {
                let mut reads = Vec::new();
                sym_cells(expr, &mut reads);
                for r in reads {
                    assert!(known.contains(&(r.id, r.row_offset)), "operand not yet known");
                }
                assert!(assigned.insert((c.id, c.row_offset)), "cell assigned twice");
                known.insert((c.id, c.row_offset));
            }
            Effect::MachineCall(_, args) => {
                for arg in args {
                    match arg {
                        MachineCallArgument::Known(e) => {
                            let mut reads = Vec::new();
                            sym_cells(e, &mut reads);
                            for r in reads {
                                assert!(known.contains(&(r.id, r.row_offset)));
                            }
                        }
                        MachineCallArgument::Unknown(a) => {
                            let mut reads = Vec::new();
                            aff_read_cells(a, &mut reads);
                            for r in reads {
                                assert!(known.contains(&(r.id, r.row_offset)));
                            }
                            assert_eq!(a.coefficients.len(), 1);
                            let c = a.coefficients[0].0;
                            known.insert((c.id, c.row_offset));
                        }
                    }
                }
            }
            Effect::Assertion(_) => {}
            Effect::RangeConstraint(..) => panic!("range constraint in code"),
        }
    }
}

#[test]
fn known_cells_grow_monotonically() {
    // Over a sequence of process_identity calls, no known cell is ever lost.
    let (x, y, z) = (0u64, 1u64, 2u64);
    let identities = vec![
        poly_eq(0, wit(x), num(1)),
        poly_eq(1, wit(y), bin(wit(x), AlgebraicBinaryOperator::Add, num(1))),
        poly_eq(2, bin(wit(z), AlgebraicBinaryOperator::Mul, wit(y)), num(10)),
    ];
    let mut witgen = WitgenInference::new(NoFixed, Vec::new(), vec![]);
    let watched = [cell(x, 0), cell(y, 0), cell(z, 0)];
    let mut seen: Vec<Cell> = Vec::new();
    for pass in 0..3 {
        for id in &identities {
            witgen.process_identity(id, 0);
            for c in &seen {
                assert!(witgen.is_known(*c), "a known cell was forgotten in pass {}", pass);
            }
            for c in &watched {
                if witgen.is_known(*c) && !seen.contains(c) {
                    seen.push(*c);
                }
            }
        }
    }
    assert_eq!(seen.len(), 3);
}

#[test]
fn derived_range_constraints_only_tighten() {
    let c = cell(0, 0);
    let mut witgen: WitgenInference<NoFixed> = WitgenInference::new(NoFixed, Vec::new(), vec![]);
    witgen.add_range_constraint(c, RangeConstraint { min: 3, max: 9 });
    let first = witgen.range_constraint(c).unwrap();
    assert_eq!((first.min, first.max), (3, 9));
    witgen.add_range_constraint(c, RangeConstraint { min: 5, max: 20 });
    let second = witgen.range_constraint(c).unwrap();
    assert_eq!((second.min, second.max), (5, 9));
    assert!(second.min >= first.min && second.max <= first.max);
}

#[test]
fn range_collapse_promotes_to_assignment() {
    // A cell constrained only by range information that collapses to a single
    // candidate produces an Assignment, although no identity equated it to a
    // constant; and it produces exactly one.
    let c = cell(4, 2);
    let mut witgen: WitgenInference<NoFixed> = WitgenInference::new(NoFixed, Vec::new(), vec![]);
    witgen.add_range_constraint(c, RangeConstraint { min: 3, max: 7 });
    assert!(!witgen.is_known(c));
    witgen.add_range_constraint(c, RangeConstraint { min: 7, max: 9 });
    assert!(witgen.is_known(c));
    witgen.add_range_constraint(c, RangeConstraint { min: 6, max: 9 });
    let code = witgen.code();
    assert_eq!(code.len(), 1);
    match &code[0] {
        Effect::Assignment(target, SymbolicExpression::Concrete(v)) => {
            assert_eq!(*target, c);
            assert_eq!(*v, 7);
        }
        _ => panic!("expected a concrete assignment"),
    }
}

#[test]
fn empty_intersection_never_collapses() {
    // An impossible conjunction degenerates to the empty constraint and is
    // never promoted to a value.
    let c = cell(1, 1);
    let mut witgen: WitgenInference<NoFixed> = WitgenInference::new(NoFixed, Vec::new(), vec![]);
    witgen.add_range_constraint(c, RangeConstraint { min: 1, max: 2 });
    witgen.add_range_constraint(c, RangeConstraint { min: 5, max: 6 });
    assert!(!witgen.is_known(c));
    assert!(witgen.code().is_empty());
}

#[test]
fn completed_pairs_recompute_idempotently() {
    // Once a polynomial pair completes, reprocessing it with the same
    // knowledge base contributes no new knowledge; a completed lookup
    // re-queried reports not-complete and changes nothing.
    let x = 0u64;
    let ident = poly_eq(0, wit(x), num(1));
    let mut witgen = WitgenInference::new(NoFixed, Vec::new(), vec![]);
    assert!(witgen.process_identity(&ident, 0));
    assert!(witgen.process_identity(&ident, 0));
    let code = witgen.code();
    assert_eq!(code.len(), 1);

    let (a, b) = (0u64, 1u64);
    let lookup = Identity::LookupFamily(LookupFamilyIdentity {
        kind: LookupKind::Lookup,
        id: 1,
        left: SelectedExpressions { selector: num(1), expressions: vec![wit(a), wit(b)] },
        right: SelectedExpressions {
            selector: num(1),
            expressions: vec![fixed_col(10), fixed_col(11)],
        },
    });
    let mut witgen2 = WitgenInference::new(NoFixed, Vec::new(), vec![cell(a, 0)]);
    assert!(witgen2.process_identity(&lookup, 0));
    assert!(!witgen2.process_identity(&lookup, 0));
    assert_eq!(witgen2.code().len(), 1);
}

#[test]
fn generated_code_is_executable() {
    // The fib recurrence plus a lookup: replaying the code top to bottom,
    // every operand is known by the time it is referenced.
    let (x, y) = (0u64, 1u64);
    let identities = vec![
        poly_eq(0, wit_next_help(x), wit(y)),
        poly_eq(1, wit_next_help(y), bin(wit(x), AlgebraicBinaryOperator::Add, wit(y))),
    ];
    let init = vec![cell(x, 0), cell(y, 0)];
    let mut witgen = WitgenInference::new(NoFixed, Vec::new(), init.clone());
    for _ in 0..3 {
        for id in &identities {
            for row in [0i32, 1, 2] {
                witgen.process_identity(id, row);
            }
        }
    }
    let code = witgen.code();
    assert!(!code.is_empty());
    check_executable(&code, &init);
}

fn wit_next_help(id: u64) -> Expression {
    Expression::Reference(AlgebraicReference { id, kind: ColumnKind::Witness, next: true })
}

#[test]
fn promoted_constant_feeds_later_identities() {
    // A cell made known purely through range collapse is treated as the
    // constant in later evaluations.
    let (x, y) = (0u64, 1u64);
    let mut witgen = WitgenInference::new(NoFixed, Vec::new(), vec![]);
    witgen.add_range_constraint(cell(x, 0), RangeConstraint { min: 7, max: 7 });
    assert!(witgen.is_known(cell(x, 0)));
    let ident = poly_eq(0, wit(y), bin(wit(x), AlgebraicBinaryOperator::Add, num(1)));
    assert!(witgen.process_identity(&ident, 0));
    let code = witgen.code();
    assert_eq!(code.len(), 2);
    match &code[1] {
        Effect::Assignment(target, SymbolicExpression::Concrete(v)) => {
            assert_eq!(*target, cell(y, 0));
            assert_eq!(*v, 8);
        }
        _ => panic!("expected a concrete assignment"),
    }
}

struct BadFixed;

impl FixedEvaluator for BadFixed {
    fn evaluate(&self, _var: &AlgebraicReference, _row_offset: i32) -> Option<u64> {
        Some(GL_MODULUS)
    }
}

#[test]
fn out_of_range_fixed_value_defers_evaluation() {
    // A fixed-value provider answer outside the field counts as an
    // evaluation failure, not as a value.
    let x = 0u64;
    let ident = poly_eq(0, wit(x), fixed_col(10));
    let mut witgen = WitgenInference::new(BadFixed, Vec::new(), vec![]);
    assert!(!witgen.process_identity(&ident, 0));
    assert!(witgen.code().is_empty());
}

#[test]
fn field_operations_match_goldilocks() {
    assert_eq!(fe_add(GL_MODULUS - 1, 1), 0);
    assert_eq!(fe_add(2, 3), 5);
    assert_eq!(fe_sub(3, 5), GL_MODULUS - 2);
    assert_eq!(fe_mul(1 << 32, 1 << 32), (1 << 32) - 1);
    assert_eq!(fe_neg(0), 0);
    assert_eq!(fe_neg(1), GL_MODULUS - 1);
    assert_eq!(fe_pow(3, 4), 81);
    assert_eq!(fe_pow(5, 0), 1);
    let inv2 = fe_inv(2);
    assert_eq!(inv2, 9223372034707292161);
    assert_eq!(fe_mul(2, inv2), 1);
    assert_eq!(fe_mul(7, fe_inv(7)), 1);
}

#[test]
fn range_constraint_operations() {
    let u = RangeConstraint::unconstrained();
    assert_eq!((u.min, u.max), (0, GL_MODULUS - 1));
    assert!(u.try_to_single_value().is_none());
    let five = RangeConstraint::from_value(5);
    assert_eq!(five.try_to_single_value(), Some(5));
    let a = RangeConstraint { min: 2, max: 8 };
    let b = RangeConstraint { min: 5, max: 11 };
    let c = a.conjunction(&b);
    assert_eq!((c.min, c.max), (5, 8));
    let d = b.conjunction(&a);
    assert_eq!((d.min, d.max), (5, 8));
    assert_eq!(a.conjunction(&u).min, a.min);
    assert_eq!(a.conjunction(&u).max, a.max);
}
