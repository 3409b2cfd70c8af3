use std::collections::HashSet;

use witgen_core::affine_symbolic_expression::{
    AffineSymbolicExpression, Effect, MachineCallArgument,
};
use witgen_core::cell::Cell;
use witgen_core::expression::{
    AlgebraicBinaryOperation, AlgebraicBinaryOperator, AlgebraicReference,
    AlgebraicUnaryOperation, AlgebraicUnaryOperator, ColumnKind, Expression, Identity,
    LookupFamilyIdentity, LookupKind, PolynomialIdentity, SelectedExpressions,
};
use witgen_core::field::GL_MODULUS;
use witgen_core::symbolic_expression::SymbolicExpression;
use witgen_core::witgen_inference::{FixedEvaluator, WitgenInference};

fn wit(id: u64) -> Expression {
    Expression::Reference(AlgebraicReference { id, kind: ColumnKind::Witness, next: false })
}

fn wit_next(id: u64) -> Expression {
    Expression::Reference(AlgebraicReference { id, kind: ColumnKind::Witness, next: true })
}

fn fixed_col(id: u64) -> Expression {
    Expression::Reference(AlgebraicReference { id, kind: ColumnKind::Fixed, next: false })
}

fn num(n: u64) -> Expression {
    Expression::Number(n)
}

fn bin(left: Expression, op: AlgebraicBinaryOperator, right: Expression) -> Expression {
    Expression::BinaryOperation(Box::new(AlgebraicBinaryOperation { left, op, right }))
}

fn add(a: Expression, b: Expression) -> Expression {
    bin(a, AlgebraicBinaryOperator::Add, b)
}

fn sub(a: Expression, b: Expression) -> Expression {
    bin(a, AlgebraicBinaryOperator::Sub, b)
}

fn mul(a: Expression, b: Expression) -> Expression {
    bin(a, AlgebraicBinaryOperator::Mul, b)
}

fn neg(a: Expression) -> Expression {
    Expression::UnaryOperation(Box::new(AlgebraicUnaryOperation {
        op: AlgebraicUnaryOperator::Minus,
        expr: a,
    }))
}

/// The polynomial identity `lhs = rhs`, stored as `lhs - rhs = 0`.
fn poly_eq(id: u64, lhs: Expression, rhs: Expression) -> Identity {
    Identity::Polynomial(PolynomialIdentity { id, expression: sub(lhs, rhs) })
}

fn cell(id: u64, row: i64) -> Cell {
    Cell { id, row_offset: row }
}

fn fmt_num(v: u64) -> String {
    let half = (GL_MODULUS - 1) / 2;
    if v <= half {
        format!("{}", v)
    } else {
        format!("-{}", GL_MODULUS - v)
    }
}

fn fmt_cell(c: &Cell, names: &[(u64, &str)]) -> String {
    let name = names.iter().find(|(id, _)| *id == c.id).map(|(_, n)| *n).unwrap_or("?");
    format!("{}[{}]", name, c.row_offset)
}

fn fmt_sym(e: &SymbolicExpression, names: &[(u64, &str)]) -> String {
    match e {
        SymbolicExpression::Concrete(v) => fmt_num(*v),
        SymbolicExpression::Symbol(c) => fmt_cell(c, names),
        SymbolicExpression::Add(a, b) => {
            format!("({} + {})", fmt_sym(a, names), fmt_sym(b, names))
        }
        SymbolicExpression::Sub(a, b) => {
            format!("({} - {})", fmt_sym(a, names), fmt_sym(b, names))
        }
        SymbolicExpression::Mul(a, b) => {
            format!("({} * {})", fmt_sym(a, names), fmt_sym(b, names))
        }
        SymbolicExpression::Neg(a) => format!("-{}", fmt_sym(a, names)),
    }
}

fn fmt_affine(e: &AffineSymbolicExpression, names: &[(u64, &str)]) -> String {
    if e.coefficients.len() == 1
        && matches!(e.coefficients[0].1, SymbolicExpression::Concrete(1))
        && matches!(e.offset, SymbolicExpression::Concrete(0))
    {
        fmt_cell(&e.coefficients[0].0, names)
    } else {
        let mut parts: Vec<String> = e
            .coefficients
            .iter()
            .map(|(c, k)| format!("{} * {}", fmt_sym(k, names), fmt_cell(c, names)))
            .collect();
        parts.push(fmt_sym(&e.offset, names));
        parts.join(" + ")
    }
}

fn format_code(effects: &[Effect], names: &[(u64, &str)]) -> String {
    effects
        .iter()
        .map(|effect| match effect {
            Effect::Assignment(v, expr) => {
                format!("{} = {};", fmt_cell(v, names), fmt_sym(expr, names))
            }
            Effect::Assertion(a) => format!(
                "assert {} {} {};",
                fmt_sym(&a.lhs, names),
                if a.expected_equal { "==" } else { "!=" },
                fmt_sym(&a.rhs, names)
            ),
            Effect::MachineCall(id, args) => {
                let rendered: Vec<String> = args
                    .iter()
                    .map(|arg| match arg {
                        MachineCallArgument::Known(k) => format!("Known({})", fmt_sym(k, names)),
                        MachineCallArgument::Unknown(u) => {
                            format!("Unknown({})", fmt_affine(u, names))
                        }
                    })
                    .collect();
                format!("lookup({}, [{}]);", id, rendered.join(", "))
            }
            Effect::RangeConstraint(..) => {
                panic!("Range constraints should not be part of the code.")
            }
        })
        .collect::<Vec<_>>()
        .join("\n")
}

struct NoFixed;

impl FixedEvaluator for NoFixed {
    fn evaluate(&self, _var: &AlgebraicReference, _row_offset: i32) -> Option<u64> {
        None
    }
}

/// A single fixed column `FIRST = [1] + [0]*` of length 8, wrapping around.
struct FirstOfEight;

impl FixedEvaluator for FirstOfEight {
    fn evaluate(&self, var: &AlgebraicReference, row_offset: i32) -> Option<u64> {
        assert!(matches!(var.kind, ColumnKind::Fixed));
        let row = (row_offset as usize + var.next as usize) % 8;
        Some(if row == 0 { 1 } else { 0 })
    }
}

fn solve_on_rows<F: FixedEvaluator>(
    fixed: F,
    identities: &[Identity],
    rows: &[i32],
    known_cells: Vec<Cell>,
    expected_complete: Option<usize>,
) -> Vec<Effect> {
    for id in identities {
        assert!(id.check_wf());
    }
    let mut witgen = WitgenInference::new(fixed, Vec::new(), known_cells);
    let mut complete: HashSet<(u64, i32)> = HashSet::new();
    let expected_complete = expected_complete.unwrap_or(identities.len() * rows.len());
    let mut counter = 0;
    while complete.len() != expected_complete {
        counter += 1;
        for row in rows {
            for id in identities {
                if !complete.contains(&(id.id(), *row)) && witgen.process_identity(id, *row) {
                    complete.insert((id.id(), *row));
                }
            }
        }
        assert!(counter < 10000, "Solving took more than 10000 rounds.");
    }
    witgen.code()
}

#[test]
fn simple_polynomial_solving() {
    // let X; let Y; let Z; X = 1; Y = X + 1; Z * Y = X + 10;
    let (x, y, z) = (0u64, 1u64, 2u64);
    let identities = vec![
        poly_eq(0, wit(x), num(1)),
        poly_eq(1, wit(y), add(wit(x), num(1))),
        poly_eq(2, mul(wit(z), wit(y)), add(wit(x), num(10))),
    ];
    let code = solve_on_rows(NoFixed, &identities, &[0], vec![], None);
    let names = [(x, "X"), (y, "Y"), (z, "Z")];
    assert_eq!(
        format_code(&code, &names),
        "X[0] = 1;\nY[0] = 2;\nZ[0] = -9223372034707292155;"
    );
}

#[test]
fn fib() {
    // let X; let Y; X' = Y; Y' = X + Y;
    let (x, y) = (0u64, 1u64);
    let identities = vec![
        poly_eq(0, wit_next(x), wit(y)),
        poly_eq(1, wit_next(y), add(wit(x), wit(y))),
    ];
    let code = solve_on_rows(
        NoFixed,
        &identities,
        &[0, 1],
        vec![cell(x, 0), cell(y, 0)],
        None,
    );
    let names = [(x, "X"), (y, "Y")];
    assert_eq!(
        format_code(&code, &names),
        "X[1] = Y[0];\nY[1] = (X[0] + Y[0]);\nX[2] = Y[1];\nY[2] = (X[1] + Y[1]);"
    );
}

#[test]
fn fib_with_fixed() {
    // col fixed FIRST = [1] + [0]*;
    // FIRST * (y - 1) = 0; FIRST * (x - 1) = 0; x' - y = 0; y' - (x + y) = 0;
    let (x, y, first) = (0u64, 1u64, 100u64);
    let identities = vec![
        Identity::Polynomial(PolynomialIdentity {
            id: 0,
            expression: mul(fixed_col(first), sub(wit(y), num(1))),
        }),
        Identity::Polynomial(PolynomialIdentity {
            id: 1,
            expression: mul(fixed_col(first), sub(wit(x), num(1))),
        }),
        Identity::Polynomial(PolynomialIdentity {
            id: 2,
            expression: sub(wit_next(x), wit(y)),
        }),
        Identity::Polynomial(PolynomialIdentity {
            id: 3,
            expression: sub(wit_next(y), add(wit(x), wit(y))),
        }),
    ];
    let code = solve_on_rows(FirstOfEight, &identities, &[0, 1, 2, 3], vec![], None);
    let names = [(x, "Fib::x"), (y, "Fib::y")];
    assert_eq!(
        format_code(&code, &names),
        "Fib::y[0] = 1;
Fib::x[0] = 1;
Fib::x[1] = 1;
Fib::y[1] = 2;
Fib::x[2] = 2;
Fib::y[2] = 3;
Fib::x[3] = 3;
Fib::y[3] = 5;
Fib::x[4] = 5;
Fib::y[4] = 8;"
    );
}

#[test]
fn lookup_with_single_unknown() {
    // [ A, B, C ] in [ P_A, P_B, P_C ] with A and C known: one machine call
    // is emitted, B is tagged Unknown and becomes known immediately.
    let (a, b, c) = (0u64, 1u64, 2u64);
    let (pa, pb, pc) = (10u64, 11u64, 12u64);
    let lookup = Identity::LookupFamily(LookupFamilyIdentity {
        kind: LookupKind::Lookup,
        id: 0,
        left: SelectedExpressions {
            selector: num(1),
            expressions: vec![wit(a), wit(b), wit(c)],
        },
        right: SelectedExpressions {
            selector: num(1),
            expressions: vec![fixed_col(pa), fixed_col(pb), fixed_col(pc)],
        },
    });
    assert!(lookup.check_wf());
    let mut witgen = WitgenInference::new(NoFixed, Vec::new(), vec![cell(a, 0), cell(c, 0)]);
    assert!(witgen.process_identity(&lookup, 0));
    assert!(witgen.is_known(cell(b, 0)));
    let names = [(a, "A"), (b, "B"), (c, "C")];
    assert_eq!(
        format_code(&witgen.code(), &names),
        "lookup(0, [Known(A[0]), Unknown(B[0]), Known(C[0])]);"
    );
}

#[test]
fn lookup_not_resolvable_cases() {
    let (a, b) = (0u64, 1u64);
    let pa = 10u64;
    // Two unknowns on the left: not complete, no effects.
    let two_unknown = Identity::LookupFamily(LookupFamilyIdentity {
        kind: LookupKind::PhantomLookup,
        id: 0,
        left: SelectedExpressions { selector: num(1), expressions: vec![wit(a), wit(b)] },
        right: SelectedExpressions {
            selector: num(1),
            expressions: vec![fixed_col(pa), fixed_col(pa)],
        },
    });
    let mut witgen = WitgenInference::new(NoFixed, Vec::new(), vec![]);
    assert!(!witgen.process_identity(&two_unknown, 0));
    // Selector not known to be one: not complete.
    let gated = Identity::LookupFamily(LookupFamilyIdentity {
        kind: LookupKind::Permutation,
        id: 1,
        left: SelectedExpressions { selector: wit(5), expressions: vec![wit(a)] },
        right: SelectedExpressions { selector: num(1), expressions: vec![fixed_col(pa)] },
    });
    assert!(!witgen.process_identity(&gated, 0));
    // Right side not a static table: not complete.
    let dynamic_rhs = Identity::LookupFamily(LookupFamilyIdentity {
        kind: LookupKind::PhantomPermutation,
        id: 2,
        left: SelectedExpressions { selector: num(1), expressions: vec![wit(a)] },
        right: SelectedExpressions { selector: num(1), expressions: vec![wit(b)] },
    });
    assert!(!witgen.process_identity(&dynamic_rhs, 0));
    assert!(witgen.code().is_empty());
}

#[test]
fn two_unknowns_in_one_term_defer_until_reduced() {
    // Z * Y = 5 never completes while Z and Y are both unknown; once Y = 2
    // resolves, it completes.
    let (y, z) = (0u64, 1u64);
    let nonlinear = poly_eq(0, mul(wit(z), wit(y)), num(5));
    let fix_y = poly_eq(1, wit(y), num(2));
    let mut witgen = WitgenInference::new(NoFixed, Vec::new(), vec![]);
    assert!(!witgen.process_identity(&nonlinear, 0));
    assert!(!witgen.process_identity(&nonlinear, 0));
    assert!(witgen.process_identity(&fix_y, 0));
    assert!(witgen.process_identity(&nonlinear, 0));
    assert!(witgen.is_known(cell(z, 0)));
}

#[test]
fn unsupported_identities_never_complete() {
    let mut witgen = WitgenInference::new(NoFixed, Vec::new(), vec![]);
    assert!(!witgen.process_identity(&Identity::PhantomBusInteraction(7), 0));
    assert!(!witgen.process_identity(&Identity::Connect(8), 0));
    let public = Identity::Polynomial(PolynomialIdentity {
        id: 9,
        expression: sub(Expression::PublicReference(0), num(1)),
    });
    assert!(!witgen.process_identity(&public, 0));
    let challenge = Identity::Polynomial(PolynomialIdentity {
        id: 10,
        expression: sub(Expression::Challenge(0), num(1)),
    });
    assert!(!witgen.process_identity(&challenge, 0));
    assert!(witgen.code().is_empty());
}

#[test]
fn conflicting_constant_becomes_assertion() {
    // The identity `5 = 0` is complete and lowers the conflict into a
    // runtime assertion instead of failing at solve time.
    let five = Identity::Polynomial(PolynomialIdentity { id: 0, expression: num(5) });
    let mut witgen = WitgenInference::new(NoFixed, Vec::new(), vec![]);
    assert!(witgen.process_identity(&five, 0));
    let names: [(u64, &str); 0] = [];
    assert_eq!(format_code(&witgen.code(), &names), "assert 5 == 0;");
}

#[test]
fn power_of_known_constants() {
    // X = 2 ** 10
    let x = 0u64;
    let ident = poly_eq(0, wit(x), bin(num(2), AlgebraicBinaryOperator::Pow, num(10)));
    let code = solve_on_rows(NoFixed, &[ident], &[0], vec![], None);
    let names = [(x, "X")];
    assert_eq!(format_code(&code, &names), "X[0] = 1024;");
}

#[test]
fn unary_minus_evaluates() {
    // X = -(3) means X picks up the field negation of 3.
    let x = 0u64;
    let ident = poly_eq(0, wit(x), neg(num(3)));
    let code = solve_on_rows(NoFixed, &[ident], &[0], vec![], None);
    let names = [(x, "X")];
    assert_eq!(format_code(&code, &names), "X[0] = -3;");
}
