//! The constraint-language input consumed by the engine: a tree of column
//! references, numeric literals and algebraic operations, and the identity
//! kinds built from such trees.

use vstd::prelude::*;

use crate::field::is_fe;

verus! {

#[derive(Clone, Copy, PartialEq, Eq, Structural, Debug)]
pub enum ColumnKind {
    /// A committed/witness column: its cells are what the solver determines.
    Witness,
    /// A fixed column: its values come from the external fixed-value provider.
    Fixed,
}

/// A reference to one column, with a flag selecting the reference row or the
/// one after it.
#[derive(Clone, Copy, PartialEq, Eq, Structural, Debug)]
pub struct AlgebraicReference {
    pub id: u64,
    pub kind: ColumnKind,
    pub next: bool,
}

#[derive(Clone, Copy, PartialEq, Eq, Structural, Debug)]
pub enum AlgebraicBinaryOperator {
    Add,
    Sub,
    Mul,
    Pow,
}

#[derive(Clone, Copy, PartialEq, Eq, Structural, Debug)]
pub enum AlgebraicUnaryOperator {
    Minus,
}

#[derive(Debug)]
pub enum Expression {
    Reference(AlgebraicReference),
    /// A public-input reference: an unsupported variable kind, evaluation
    /// fails on it.
    PublicReference(u64),
    /// A protocol challenge: an unsupported variable kind, evaluation fails
    /// on it.
    Challenge(u64),
    Number(u64),
    BinaryOperation(Box<AlgebraicBinaryOperation>),
    UnaryOperation(Box<AlgebraicUnaryOperation>),
}

#[derive(Debug)]
pub struct AlgebraicBinaryOperation {
    pub left: Expression,
    pub op: AlgebraicBinaryOperator,
    pub right: Expression,
}

#[derive(Debug)]
pub struct AlgebraicUnaryOperation {
    pub op: AlgebraicUnaryOperator,
    pub expr: Expression,
}

/// One side of a lookup-family identity: a gating selector and the positional
/// expression list.
#[derive(Debug)]
pub struct SelectedExpressions {
    pub selector: Expression,
    pub expressions: Vec<Expression>,
}

/// The four lookup-family kinds; all share one resolution rule.
#[derive(Clone, Copy, PartialEq, Eq, Structural, Debug)]
pub enum LookupKind {
    Lookup,
    Permutation,
    PhantomLookup,
    PhantomPermutation,
}

#[derive(Debug)]
pub struct PolynomialIdentity {
    pub id: u64,
    /// The constraint `expression = 0`.
    pub expression: Expression,
}

#[derive(Debug)]
pub struct LookupFamilyIdentity {
    pub kind: LookupKind,
    pub id: u64,
    pub left: SelectedExpressions,
    pub right: SelectedExpressions,
}

/// A declared constraint that must hold at the rows it is processed on.
#[derive(Debug)]
pub enum Identity {
    Polynomial(PolynomialIdentity),
    LookupFamily(LookupFamilyIdentity),
    /// Unsupported in this version: always unresolved.
    PhantomBusInteraction(u64),
    /// Unsupported in this version: always unresolved.
    Connect(u64),
}

/// Every numeric literal in the expression is a canonical field value.
pub open spec fn expr_wf(e: Expression) -> bool
    decreases e,
{
    match e {
        Expression::Reference(_) => true,
        Expression::PublicReference(_) => true,
        Expression::Challenge(_) => true,
        Expression::Number(n) => is_fe(n),
        Expression::BinaryOperation(op) => expr_wf(op.left) && expr_wf(op.right),
        Expression::UnaryOperation(op) => expr_wf(op.expr),
    }
}

/// The expression contains no fixed-column reference: its evaluation does not
/// depend on the external fixed-value provider.
pub open spec fn no_fixed(e: Expression) -> bool
    decreases e,
{
    match e {
        Expression::Reference(r) => r.kind is Witness,
        Expression::PublicReference(_) => true,
        Expression::Challenge(_) => true,
        Expression::Number(_) => true,
        Expression::BinaryOperation(op) => no_fixed(op.left) && no_fixed(op.right),
        Expression::UnaryOperation(op) => no_fixed(op.expr),
    }
}

pub open spec fn sel_wf(s: SelectedExpressions) -> bool {
    expr_wf(s.selector) && forall|i: int|
        0 <= i < s.expressions@.len() ==> expr_wf(#[trigger] s.expressions@[i])
}

pub open spec fn id_wf(id: Identity) -> bool {
    match id {
        Identity::Polynomial(p) => expr_wf(p.expression),
        Identity::LookupFamily(l) => sel_wf(l.left) && sel_wf(l.right),
        Identity::PhantomBusInteraction(_) => true,
        Identity::Connect(_) => true,
    }
}

impl Expression {
    /// Runtime check of `expr_wf`, for callers that receive a constraint tree
    /// from outside.
    pub fn check_wf(&self) -> (r: bool)
        ensures
            r == expr_wf(*self),
        decreases *self,
    {
        match self {
            Expression::Reference(_) => true,
            Expression::PublicReference(_) => true,
            Expression::Challenge(_) => true,
            Expression::Number(n) => *n < crate::field::GL_MODULUS,
            Expression::BinaryOperation(op) => op.left.check_wf() && op.right.check_wf(),
            Expression::UnaryOperation(op) => op.expr.check_wf(),
        }
    }
}

impl SelectedExpressions {
    /// Runtime check of `sel_wf`.
    pub fn check_wf(&self) -> (r: bool)
        ensures
            r == sel_wf(*self),
    {
        if !self.selector.check_wf() {
            return false;
        }
        let mut i: usize = 0;
        while i < self.expressions.len()
            invariant
                i <= self.expressions@.len(),
                forall|j: int| 0 <= j < i ==> expr_wf(#[trigger] self.expressions@[j]),
            decreases self.expressions@.len() - i,
        {
            if !self.expressions[i].check_wf() {
                return false;
            }
            i = i + 1;
        }
        true
    }
}

impl Identity {
    /// Runtime check of `id_wf`.
    pub fn check_wf(&self) -> (r: bool)
        ensures
            r == id_wf(*self),
    {
        match self {
            Identity::Polynomial(p) => p.expression.check_wf(),
            Identity::LookupFamily(l) => l.left.check_wf() && l.right.check_wf(),
            Identity::PhantomBusInteraction(_) => true,
            Identity::Connect(_) => true,
        }
    }

    /// The declared identity number, used by the external driver to track
    /// which (identity, row) pairs are complete.
    pub fn id(&self) -> (r: u64)
        ensures
            r == match *self {
                Identity::Polynomial(p) => p.id,
                Identity::LookupFamily(l) => l.id,
                Identity::PhantomBusInteraction(i) => i,
                Identity::Connect(i) => i,
            },
    {
        match self {
            Identity::Polynomial(p) => p.id,
            Identity::LookupFamily(l) => l.id,
            Identity::PhantomBusInteraction(i) => *i,
            Identity::Connect(i) => *i,
        }
    }
}

} // verus!
