//! The stateful inference engine.
//!
//! `WitgenInference` generates code that solves identities. It needs a driver
//! that tells it which identities to process on which rows; the driver must
//! not re-submit a pair already reported complete. Its knowledge base is
//! monotone: known cells are never forgotten and derived range constraints
//! only tighten. The emitted `code` is replayable top to bottom: every
//! operand an `Assignment` or `MachineCall` references is known by the time
//! it appears, and no cell is ever assigned twice.

use vstd::prelude::*;

use crate::affine_symbolic_expression::{
    aff_evaluated_for, aff_key, aff_mentions, aff_wf, arg_reads_ok, arg_writes, args_writes,
    assertions_only, coeffs_key, effect_ingestible, effect_reads_ok, effect_writes, effects_ok,
    executable, keys_set, lemma_args_writes_member, lemma_at_most_one_assignment,
    lemma_effects_ok_grow, lemma_keys_set_is_keys, rc_targets_not_rewritten, replay_known,
    spec_merge, spec_neg_coeffs, spec_scale_coeffs, sym_reads_ok, writes_fresh,
    AffineSymbolicExpression, Effect, MachineCallArgument, ProcessResult,
};
use crate::cell::Cell;
use crate::expression::{
    expr_wf, id_wf, no_fixed, sel_wf, AlgebraicBinaryOperation, AlgebraicBinaryOperator,
    AlgebraicReference, AlgebraicUnaryOperation, AlgebraicUnaryOperator, ColumnKind, Expression,
    Identity, SelectedExpressions,
};
use crate::field::{fe_pow, GL_MODULUS};
use crate::range_constraint::{rc_conj, rc_implies, rc_wf, RangeConstraint};
use crate::field::f_pow;
use crate::symbolic_expression::{
    spec_sym_add, spec_sym_mul, spec_sym_neg, sym_as_concrete, sym_mentions, sym_wf,
    SymbolicExpression,
};

verus! {

/// The external fixed-value provider: "evaluate(column reference, row offset)
/// gives an optional field value". Returning `None` is a normal outcome
/// meaning static resolution is currently unavailable; a returned value is
/// accepted only if it is a canonical field value.
pub trait FixedEvaluator {
    fn evaluate(&self, var: &AlgebraicReference, row_offset: i32) -> Option<u64> {
        None
    }
}

/// The map described by an association list; a later entry overrides an
/// earlier one with the same key.
pub open spec fn assoc_map<K, V>(s: Seq<(K, V)>) -> Map<K, V>
    decreases s.len(),
{
    if s.len() == 0 {
        Map::empty()
    } else {
        assoc_map(s.drop_last()).insert(s.last().0, s.last().1)
    }
}

proof fn lemma_assoc_no_key<K, V>(s: Seq<(K, V)>, k: K)
    requires
        forall|i: int| 0 <= i < s.len() ==> (#[trigger] s[i]).0 != k,
    ensures
        !assoc_map(s).contains_key(k),
    decreases s.len(),
{
    if s.len() > 0 {
        let sd = s.drop_last();
        assert forall|i: int| 0 <= i < sd.len() implies (#[trigger] sd[i]).0 != k by {
            assert(sd[i] == s[i]);
        }
        lemma_assoc_no_key(sd, k);
        assert(s[s.len() - 1].0 != k);
    }
}

proof fn lemma_assoc_last_match<K, V>(s: Seq<(K, V)>, i: int)
    requires
        0 <= i < s.len(),
        forall|j: int| i < j < s.len() ==> (#[trigger] s[j]).0 != s[i].0,
    ensures
        assoc_map(s).contains_key(s[i].0),
        assoc_map(s)[s[i].0] == s[i].1,
    decreases s.len(),
{
    if i < s.len() - 1 {
        let sd = s.drop_last();
        assert(sd[i] == s[i]);
        assert forall|j: int| i < j < sd.len() implies (#[trigger] sd[j]).0 != sd[i].0 by {
            assert(sd[j] == s[j]);
        }
        lemma_assoc_last_match(sd, i);
        assert(s[s.len() - 1].0 != s[i].0);
    }
}

/// Membership of one sequence element after a push.
proof fn lemma_vec_push_contains<T>(s: Seq<T>, x: T)
    ensures
        forall|y: T| #[trigger] s.push(x).contains(y) <==> s.contains(y) || y == x,
{
    assert forall|y: T| #[trigger] s.push(x).contains(y) <==> s.contains(y) || y == x by {
        if s.push(x).contains(y) {
            let i = choose|i: int| 0 <= i < s.push(x).len() && s.push(x)[i] == y;
            if i < s.len() {
                assert(s[i] == y);
            }
        }
        if s.contains(y) {
            let i = choose|i: int| 0 <= i < s.len() && s[i] == y;
            assert(s.push(x)[i] == y);
        }
        if y == x {
            assert(s.push(x)[s.len() as int] == y);
        }
    }
}

/// `new` extends `old`: the emitted code is append-only.
pub open spec fn seq_extends<T>(new: Seq<T>, old: Seq<T>) -> bool {
    old.len() <= new.len() && forall|i: int| 0 <= i < old.len() ==> new[i] == old[i]
}

/// Every key of `old` is still bound in `new`, to a constraint at least as
/// tight.
pub open spec fn rc_map_tightened(
    new: Map<Cell, RangeConstraint>,
    old: Map<Cell, RangeConstraint>,
) -> bool {
    forall|c: Cell|
        #[trigger] old.contains_key(c) ==> new.contains_key(c) && rc_implies(new[c], old[c])
}

/// The merged bound depends only on the constraint maps, not on the rest of
/// the state.
proof fn lemma_spec_merged_transfer<F: FixedEvaluator>(
    a: WitgenInference<F>,
    b: WitgenInference<F>,
    cell: Cell,
    rc: RangeConstraint,
)
    requires
        a.globals_map() == b.globals_map(),
        a.derived_map() == b.derived_map(),
    ensures
        a.spec_range_constraint(cell) == b.spec_range_constraint(cell),
        a.spec_merged(cell, rc) == b.spec_merged(cell, rc),
{
}

/// A transition holds of any state with the same views.
proof fn lemma_transition_transfer<F: FixedEvaluator>(
    a: WitgenInference<F>,
    b: WitgenInference<F>,
    e: Effect,
    post: WitgenInference<F>,
)
    requires
        a.globals_map() == b.globals_map(),
        a.derived_map() == b.derived_map(),
        a.known_set() == b.known_set(),
        a.code_seq() == b.code_seq(),
        ingest_one_transition(a, e, post),
    ensures
        ingest_one_transition(b, e, post),
{
    match e {
        Effect::Assignment(c, ex) => {
            if let Some(v) = sym_as_concrete(ex) {
                lemma_spec_merged_transfer(a, b, c, RangeConstraint { min: v, max: v });
            }
        },
        Effect::RangeConstraint(c, rc) => {
            lemma_spec_merged_transfer(a, b, c, rc);
        },
        _ => {},
    }
}

/// Lookup in a cell-keyed association list, agreeing with its map view.
fn derived_get(v: &Vec<(Cell, RangeConstraint)>, c: Cell) -> (r: Option<RangeConstraint>)
    ensures
        match r {
            Some(rc) => assoc_map(v@).contains_key(c) && assoc_map(v@)[c] == rc && exists|i: int|
                0 <= i < v@.len() && (#[trigger] v@[i]) == (c, rc),
            None => !assoc_map(v@).contains_key(c),
        },
{
    let mut idx: usize = v.len();
    while idx > 0
        invariant
            idx <= v@.len(),
            forall|j: int| idx <= j < v@.len() ==> (#[trigger] v@[j]).0 != c,
        decreases idx,
    {
        idx = idx - 1;
        if v[idx].0 == c {
            proof {
                lemma_assoc_last_match(v@, idx as int);
            }
            return Some(v[idx].1);
        }
    }
    proof {
        lemma_assoc_no_key(v@, c);
    }
    None
}

/// Lookup in a column-keyed association list, agreeing with its map view.
fn global_get(v: &Vec<(u64, RangeConstraint)>, id: u64) -> (r: Option<RangeConstraint>)
    ensures
        match r {
            Some(rc) => assoc_map(v@).contains_key(id) && assoc_map(v@)[id] == rc && exists|
                i: int,
            |
                0 <= i < v@.len() && (#[trigger] v@[i]) == (id, rc),
            None => !assoc_map(v@).contains_key(id),
        },
{
    let mut idx: usize = v.len();
    while idx > 0
        invariant
            idx <= v@.len(),
            forall|j: int| idx <= j < v@.len() ==> (#[trigger] v@[j]).0 != id,
        decreases idx,
    {
        idx = idx - 1;
        if v[idx].0 == id {
            proof {
                lemma_assoc_last_match(v@, idx as int);
            }
            return Some(v[idx].1);
        }
    }
    proof {
        lemma_assoc_no_key(v@, id);
    }
    None
}

/// The right-hand side is a static table: every expression is a fixed-column
/// reference or a numeric literal.
pub open spec fn rhs_static(right: SelectedExpressions) -> bool {
    forall|i: int|
        0 <= i < right.expressions@.len() ==> (match #[trigger] right.expressions@[i] {
            Expression::Reference(r) => r.kind is Fixed,
            Expression::Number(_) => true,
            _ => false,
        })
}

/// How folding one effect changes the knowledge base: an `Assignment` makes
/// its cell known, records a single-value bound if the value is a constant,
/// and is appended; a `RangeConstraint` merges by conjunction, promoting its
/// cell when the merge collapses; an `Assertion` is appended unchanged; a
/// `MachineCall` makes every cell it determines known and is appended.
pub open spec fn ingest_one_transition<F: FixedEvaluator>(
    pre: WitgenInference<F>,
    e: Effect,
    post: WitgenInference<F>,
) -> bool {
    match e {
        Effect::Assignment(c, ex) => {
            &&& post.code_seq() == pre.code_seq().push(e)
            &&& post.known_set() == pre.known_set().insert(c)
            &&& post.derived_map() == match sym_as_concrete(ex) {
                Some(v) => pre.derived_map().insert(
                    c,
                    pre.spec_merged(c, RangeConstraint { min: v, max: v }),
                ),
                None => pre.derived_map(),
            }
        },
        Effect::RangeConstraint(c, rc) => {
            let m = pre.spec_merged(c, rc);
            &&& post.derived_map() == pre.derived_map().insert(c, m)
            &&& if !pre.known_set().contains(c) && m.min == m.max {
                post.code_seq() == pre.code_seq().push(
                    Effect::Assignment(c, SymbolicExpression::Concrete(m.min)),
                ) && post.known_set() == pre.known_set().insert(c)
            } else {
                post.code_seq() == pre.code_seq() && post.known_set() == pre.known_set()
            }
        },
        Effect::Assertion(_) => {
            &&& post.code_seq() == pre.code_seq().push(e)
            &&& post.known_set() == pre.known_set()
            &&& post.derived_map() == pre.derived_map()
        },
        Effect::MachineCall(_, _) => {
            &&& post.code_seq() == pre.code_seq().push(e)
            &&& post.known_set() == pre.known_set().union(effect_writes(e))
            &&& post.derived_map() == pre.derived_map()
        },
    }
}

/// The engine. One instance exclusively owns its knowledge base; all mutation
/// happens through `process_identity` and `add_range_constraint`.
pub struct WitgenInference<F: FixedEvaluator> {
    fixed_evaluator: F,
    global_range_constraints: Vec<(u64, RangeConstraint)>,
    derived_range_constraints: Vec<(Cell, RangeConstraint)>,
    known_cells: Vec<Cell>,
    code: Vec<Effect>,
    initially_known: Ghost<Set<Cell>>,
}

impl<F: FixedEvaluator> WitgenInference<F> {
    /// The cells whose value is determined.
    pub closed spec fn known_set(self) -> Set<Cell> {
        Set::new(|c: Cell| self.known_cells@.contains(c))
    }

    /// The locally derived bound per cell.
    pub closed spec fn derived_map(self) -> Map<Cell, RangeConstraint> {
        assoc_map(self.derived_range_constraints@)
    }

    /// The externally supplied static bound per column.
    pub closed spec fn globals_map(self) -> Map<u64, RangeConstraint> {
        assoc_map(self.global_range_constraints@)
    }

    /// The emitted program.
    pub closed spec fn code_seq(self) -> Seq<Effect> {
        self.code@
    }

    /// The cells known at construction time.
    pub closed spec fn spec_initially_known(self) -> Set<Cell> {
        self.initially_known@
    }

    pub open spec fn spec_global_rc(self, cell: Cell) -> Option<RangeConstraint> {
        if self.globals_map().contains_key(cell.id) {
            Some(self.globals_map()[cell.id])
        } else {
            None
        }
    }

    pub open spec fn spec_derived_rc(self, cell: Cell) -> Option<RangeConstraint> {
        if self.derived_map().contains_key(cell) {
            Some(self.derived_map()[cell])
        } else {
            None
        }
    }

    /// The current best-known range constraint on the given cell: the
    /// conjunction of the global constraint for its column and the locally
    /// derived one, where each exists.
    pub open spec fn spec_range_constraint(self, cell: Cell) -> Option<RangeConstraint> {
        match self.spec_global_rc(cell) {
            Some(a) => match self.spec_derived_rc(cell) {
                Some(b) => Some(rc_conj(a, b)),
                None => Some(a),
            },
            None => self.spec_derived_rc(cell),
        }
    }

    /// What a newly reported bound merges to.
    pub open spec fn spec_merged(self, cell: Cell, rc: RangeConstraint) -> RangeConstraint {
        match self.spec_range_constraint(cell) {
            Some(e) => rc_conj(e, rc),
            None => rc,
        }
    }

    /// The engine's invariant: the known set is exactly what replaying the
    /// emitted code over the initially known cells determines; the code is
    /// executable; no cell is determined twice; all stored range constraints
    /// are well-formed.
    /// All stored range constraints are well-formed.
    pub closed spec fn rc_lists_wf(self) -> bool {
        &&& forall|i: int|
            0 <= i < self.global_range_constraints@.len() ==> rc_wf(
                (#[trigger] self.global_range_constraints@[i]).1,
            )
        &&& forall|i: int|
            0 <= i < self.derived_range_constraints@.len() ==> rc_wf(
                (#[trigger] self.derived_range_constraints@[i]).1,
            )
    }

    pub open spec fn inv(self) -> bool {
        &&& self.known_set() == replay_known(self.code_seq(), self.spec_initially_known())
        &&& executable(self.code_seq(), self.spec_initially_known())
        &&& writes_fresh(self.code_seq(), self.spec_initially_known())
        &&& self.rc_lists_wf()
        &&& forall|i: int|
            0 <= i < self.code_seq().len() ==> !((#[trigger] self.code_seq()[i]) is RangeConstraint)
    }

    /// The cell a reference resolves to at the given row.
    pub open spec fn spec_ref_cell(r: AlgebraicReference, offset: i32) -> Cell {
        Cell {
            id: r.id,
            row_offset: (offset as int + if r.next {
                1int
            } else {
                0int
            }) as i64,
        }
    }

    /// The cell's value is determined: it is in the known set, or its range
    /// constraint has collapsed to a single value.
    pub open spec fn cell_resolved(self, cell: Cell) -> bool {
        self.known_set().contains(cell) || (match self.spec_range_constraint(cell) {
            Some(rc) => rc.min == rc.max,
            None => false,
        })
    }

    /// Every witness cell the expression references at this row is resolved.
    pub open spec fn expr_resolved(self, e: Expression, offset: i32) -> bool
        decreases e,
    {
        match e {
            Expression::Reference(r) => r.kind is Fixed || self.cell_resolved(
                Self::spec_ref_cell(r, offset),
            ),
            Expression::PublicReference(_) => true,
            Expression::Challenge(_) => true,
            Expression::Number(_) => true,
            Expression::BinaryOperation(op) => self.expr_resolved(op.left, offset)
                && self.expr_resolved(op.right, offset),
            Expression::UnaryOperation(op) => self.expr_resolved(op.expr, offset),
        }
    }

    /// Every witness cell the identity's resolvable side references at this
    /// row is resolved. This holds in particular after the identity itself
    /// was processed to completion.
    pub open spec fn id_resolved(self, id: Identity, offset: i32) -> bool {
        match id {
            Identity::Polynomial(p) => self.expr_resolved(p.expression, offset),
            Identity::LookupFamily(l) => forall|i: int|
                0 <= i < l.left.expressions@.len() ==> self.expr_resolved(
                    #[trigger] l.left.expressions@[i],
                    offset,
                ),
            Identity::PhantomBusInteraction(_) => true,
            Identity::Connect(_) => true,
        }
    }

    /// The single value the cell's combined range constraint admits, if the
    /// constraint has collapsed.
    pub open spec fn cell_collapsed_value(self, cell: Cell) -> Option<u64> {
        match self.spec_range_constraint(cell) {
            Some(rc) => if rc.min == rc.max {
                Some(rc.min)
            } else {
                None
            },
            None => None,
        }
    }

    /// Whether evaluation of a provider-independent expression succeeds under
    /// the current knowledge.
    pub open spec fn spec_eval_ok(self, e: Expression, offset: i32) -> bool
        decreases e,
    {
        match e {
            Expression::Reference(r) => r.kind is Witness,
            Expression::PublicReference(_) => false,
            Expression::Challenge(_) => false,
            Expression::Number(_) => true,
            Expression::BinaryOperation(op) => self.spec_eval_ok(op.left, offset)
                && self.spec_eval_ok(op.right, offset) && (match op.op {
                AlgebraicBinaryOperator::Add => true,
                AlgebraicBinaryOperator::Sub => true,
                AlgebraicBinaryOperator::Mul => self.spec_eval_coeffs(op.left, offset).len() == 0
                    || self.spec_eval_coeffs(op.right, offset).len() == 0,
                AlgebraicBinaryOperator::Pow => self.spec_eval_coeffs(op.left, offset).len() == 0
                    && self.spec_eval_offset(op.left, offset) is Concrete && self.spec_eval_coeffs(
                    op.right,
                    offset,
                ).len() == 0 && self.spec_eval_offset(op.right, offset) is Concrete,
            }),
            Expression::UnaryOperation(op) => self.spec_eval_ok(op.expr, offset),
        }
    }

    /// The unknown terms of the affine form a provider-independent expression
    /// evaluates to under the current knowledge.
    pub open spec fn spec_eval_coeffs(self, e: Expression, offset: i32) -> Seq<
        (Cell, SymbolicExpression),
    >
        decreases e,
    {
        match e {
            Expression::Reference(r) => {
                let cell = Self::spec_ref_cell(r, offset);
                if self.cell_collapsed_value(cell) is Some || self.known_set().contains(cell) {
                    Seq::empty()
                } else {
                    seq![(cell, SymbolicExpression::Concrete(1))]
                }
            },
            Expression::PublicReference(_) => Seq::empty(),
            Expression::Challenge(_) => Seq::empty(),
            Expression::Number(_) => Seq::empty(),
            Expression::BinaryOperation(op) => {
                let lc = self.spec_eval_coeffs(op.left, offset);
                let rc = self.spec_eval_coeffs(op.right, offset);
                match op.op {
                    AlgebraicBinaryOperator::Add => spec_merge(lc, rc),
                    AlgebraicBinaryOperator::Sub => spec_merge(lc, spec_neg_coeffs(rc)),
                    AlgebraicBinaryOperator::Mul => if lc.len() == 0 {
                        spec_scale_coeffs(rc, self.spec_eval_offset(op.left, offset))
                    } else {
                        spec_scale_coeffs(lc, self.spec_eval_offset(op.right, offset))
                    },
                    AlgebraicBinaryOperator::Pow => Seq::empty(),
                }
            },
            Expression::UnaryOperation(op) => spec_neg_coeffs(self.spec_eval_coeffs(op.expr, offset)),
        }
    }

    /// The known part of the affine form a provider-independent expression
    /// evaluates to under the current knowledge.
    pub open spec fn spec_eval_offset(self, e: Expression, offset: i32) -> SymbolicExpression
        decreases e,
    {
        match e {
            Expression::Reference(r) => {
                let cell = Self::spec_ref_cell(r, offset);
                match self.cell_collapsed_value(cell) {
                    Some(v) => SymbolicExpression::Concrete(v),
                    None => if self.known_set().contains(cell) {
                        SymbolicExpression::Symbol(cell)
                    } else {
                        SymbolicExpression::Concrete(0)
                    },
                }
            },
            Expression::PublicReference(_) => SymbolicExpression::Concrete(0),
            Expression::Challenge(_) => SymbolicExpression::Concrete(0),
            Expression::Number(n) => SymbolicExpression::Concrete(n),
            Expression::BinaryOperation(op) => {
                let lo = self.spec_eval_offset(op.left, offset);
                let ro = self.spec_eval_offset(op.right, offset);
                match op.op {
                    AlgebraicBinaryOperator::Add => spec_sym_add(lo, ro),
                    AlgebraicBinaryOperator::Sub => spec_sym_add(lo, spec_sym_neg(ro)),
                    AlgebraicBinaryOperator::Mul => if self.spec_eval_coeffs(op.left, offset).len()
                        == 0 {
                        spec_sym_mul(ro, lo)
                    } else {
                        spec_sym_mul(lo, ro)
                    },
                    AlgebraicBinaryOperator::Pow => SymbolicExpression::Concrete(
                        f_pow(lo->Concrete_0 as int, ro->Concrete_0 as nat) as u64,
                    ),
                }
            },
            Expression::UnaryOperation(op) => spec_sym_neg(self.spec_eval_offset(op.expr, offset)),
        }
    }

    /// The lookup resolution rule for a provider-independent left side:
    /// (a) the right side is a static table, (b) the selector evaluates to
    /// the known constant one, (c) every left expression evaluates, and
    /// (d) exactly one left expression is unknown, and it has exactly one
    /// distinct unknown cell.
    pub open spec fn lookup_resolvable(
        self,
        left: SelectedExpressions,
        right: SelectedExpressions,
        offset: i32,
    ) -> bool {
        &&& rhs_static(right)
        &&& self.spec_eval_ok(left.selector, offset)
        &&& self.spec_eval_coeffs(left.selector, offset).len() == 0
        &&& self.spec_eval_offset(left.selector, offset) == SymbolicExpression::Concrete(1)
        &&& forall|i: int|
            0 <= i < left.expressions@.len() ==> self.spec_eval_ok(
                #[trigger] left.expressions@[i],
                offset,
            )
        &&& exists|i: int|
            0 <= i < left.expressions@.len() && (#[trigger] self.spec_eval_coeffs(
                left.expressions@[i],
                offset,
            )).len() == 1 && (forall|j: int|
                0 <= j < left.expressions@.len() && j != i ==> self.spec_eval_coeffs(
                    #[trigger] left.expressions@[j],
                    offset,
                ).len() == 0)
    }

    /// A fresh engine over the given fixed-value provider, global range
    /// constraints (keyed by column) and initially known cells.
    pub fn new(
        fixed_evaluator: F,
        global_range_constraints: Vec<(u64, RangeConstraint)>,
        known_cells: Vec<Cell>,
    ) -> (r: WitgenInference<F>)
        requires
            forall|i: int|
                0 <= i < global_range_constraints@.len() ==> rc_wf(
                    (#[trigger] global_range_constraints@[i]).1,
                ),
        ensures
            r.inv(),
            r.code_seq().len() == 0,
            r.known_set() == Set::new(|c: Cell| known_cells@.contains(c)),
            r.spec_initially_known() == r.known_set(),
            r.derived_map() == Map::<Cell, RangeConstraint>::empty(),
            r.globals_map() == assoc_map(global_range_constraints@),
    {
        let ghost init = Set::new(|c: Cell| known_cells@.contains(c));
        let r = WitgenInference {
            fixed_evaluator,
            global_range_constraints,
            derived_range_constraints: Vec::new(),
            known_cells,
            code: Vec::new(),
            initially_known: Ghost(init),
        };
        proof {
            assert(r.known_set() =~= replay_known(r.code@, r.initially_known@));
        }
        r
    }

    /// The generated program: the ordered effect sequence.
    pub fn code(self) -> (r: Vec<Effect>)
        ensures
            r@ == self.code_seq(),
    {
        self.code
    }

    /// Whether the cell's value is determined.
    pub fn is_known(&self, cell: Cell) -> (r: bool)
        ensures
            r == self.known_set().contains(cell),
    {
        let mut i: usize = 0;
        while i < self.known_cells.len()
            invariant
                i <= self.known_cells@.len(),
                forall|j: int| 0 <= j < i ==> self.known_cells@[j] != cell,
            decreases self.known_cells@.len() - i,
        {
            if self.known_cells[i] == cell {
                proof {
                    assert(self.known_cells@[i as int] == cell);
                }
                return true;
            }
            i = i + 1;
        }
        false
    }

    /// The current best-known range constraint on the given cell, combining
    /// the global constraint and the locally derived one by conjunction.
    pub fn range_constraint(&self, cell: Cell) -> (r: Option<RangeConstraint>)
        requires
            self.inv(),
        ensures
            r == self.spec_range_constraint(cell),
            r is Some ==> rc_wf(r->0),
    {
        let g = global_get(&self.global_range_constraints, cell.id);
        let d = derived_get(&self.derived_range_constraints, cell);
        match (g, d) {
            (Some(a), Some(b)) => Some(a.conjunction(&b)),
            (Some(a), None) => Some(a),
            (None, Some(b)) => Some(b),
            (None, None) => None,
        }
    }

    /// Merges a newly derived bound for a cell into the knowledge base by
    /// conjunction. If the merged constraint admits exactly one value and the
    /// cell is not yet known, the cell is promoted: it becomes known and
    /// exactly one `Assignment` of that constant is appended to the code;
    /// otherwise the code is unchanged.
    pub fn add_range_constraint(&mut self, cell: Cell, rc: RangeConstraint)
        requires
            old(self).inv(),
            rc_wf(rc),
        ensures
            final(self).inv(),
            final(self).globals_map() == old(self).globals_map(),
            final(self).spec_initially_known() == old(self).spec_initially_known(),
            old(self).known_set().subset_of(final(self).known_set()),
            final(self).derived_map() == old(self).derived_map().insert(
                cell,
                old(self).spec_merged(cell, rc),
            ),
            rc_map_tightened(final(self).derived_map(), old(self).derived_map()),
            seq_extends(final(self).code_seq(), old(self).code_seq()),
            ({
                let m = old(self).spec_merged(cell, rc);
                if !old(self).known_set().contains(cell) && m.min == m.max {
                    final(self).code_seq() == old(self).code_seq().push(
                        Effect::Assignment(cell, SymbolicExpression::Concrete(m.min)),
                    ) && final(self).known_set() == old(self).known_set().insert(cell)
                } else {
                    final(self).code_seq() == old(self).code_seq() && final(self).known_set()
                        == old(self).known_set()
                }
            }),
    {
        let existing = self.range_constraint(cell);
        let merged = match existing {
            Some(e) => e.conjunction(&rc),
            None => rc,
        };
        assert(merged == old(self).spec_merged(cell, rc));
        let known = self.is_known(cell);
        if !known {
            if let Some(v) = merged.try_to_single_value() {
                let ghost k0 = self.known_cells@;
                let ghost c0 = self.code@;
                let ghost init = self.initially_known@;
                self.known_cells.push(cell);
                self.code.push(Effect::Assignment(cell, SymbolicExpression::Concrete(v)));
                proof {
                    let e = Effect::Assignment(cell, SymbolicExpression::Concrete(v));
                    lemma_vec_push_contains(k0, cell);
                    assert(self.code@.drop_last() =~= c0);
                    assert(self.code@.last() == e);
                    assert(effect_writes(e) =~= Set::<Cell>::empty().insert(cell));
                    assert forall|c: Cell|
                        self.known_set().contains(c) <==> replay_known(
                            self.code@,
                            init,
                        ).contains(c) by {
                        assert(replay_known(self.code@, init) == replay_known(c0, init).union(
                            effect_writes(e),
                        ));
                    }
                    assert(self.known_set() =~= replay_known(self.code@, init));
                    assert(sym_reads_ok(
                        SymbolicExpression::Concrete(v),
                        replay_known(c0, init),
                    ));
                    assert(effect_reads_ok(e, replay_known(c0, init)));
                    assert(executable(self.code@, init));
                    assert(effect_writes(e).disjoint(replay_known(c0, init)));
                    assert(writes_fresh(self.code@, init));
                    assert(self.known_set() =~= old(self).known_set().insert(cell));
                }
            }
        }
        let ghost d0 = self.derived_range_constraints@;
        self.derived_range_constraints.push((cell, merged));
        proof {
            assert(self.derived_range_constraints@.drop_last() =~= d0);
            assert(self.derived_map() == assoc_map(d0).insert(cell, merged));
            assert forall|c: Cell| #[trigger]
                old(self).derived_map().contains_key(c) implies self.derived_map().contains_key(c)
                && rc_implies(self.derived_map()[c], old(self).derived_map()[c]) by {
                if c == cell {
                    let d = old(self).derived_map()[cell];
                    assert(old(self).spec_derived_rc(cell) == Some(d));
                    assert forall|vv: int|
                        crate::range_constraint::rc_contains(merged, vv)
                            implies crate::range_constraint::rc_contains(d, vv) by {}
                }
            }
        }
    }
}

/// Two distinct left expressions with unknowns leave the lookup unresolvable.
proof fn lemma_lookup_two_unknowns<F: FixedEvaluator>(
    eng: WitgenInference<F>,
    left: SelectedExpressions,
    right: SelectedExpressions,
    offset: i32,
    a: int,
    b: int,
)
    requires
        0 <= a < left.expressions@.len(),
        0 <= b < left.expressions@.len(),
        a != b,
        eng.spec_eval_coeffs(left.expressions@[a], offset).len() > 0,
        eng.spec_eval_coeffs(left.expressions@[b], offset).len() > 0,
    ensures
        !eng.lookup_resolvable(left, right, offset),
{
    if eng.lookup_resolvable(left, right, offset) {
        let i2 = choose|i2: int|
            0 <= i2 < left.expressions@.len() && (#[trigger] eng.spec_eval_coeffs(
                left.expressions@[i2],
                offset,
            )).len() == 1 && (forall|j: int|
                0 <= j < left.expressions@.len() && j != i2 ==> eng.spec_eval_coeffs(
                    #[trigger] left.expressions@[j],
                    offset,
                ).len() == 0);
        if i2 != a {
            assert(eng.spec_eval_coeffs(left.expressions@[a], offset).len() == 0);
        } else {
            assert(eng.spec_eval_coeffs(left.expressions@[b], offset).len() == 0);
        }
    }
}

/// With every left expression fully known, the lookup is unresolvable.
proof fn lemma_lookup_no_unknown<F: FixedEvaluator>(
    eng: WitgenInference<F>,
    left: SelectedExpressions,
    right: SelectedExpressions,
    offset: i32,
)
    requires
        forall|j: int|
            0 <= j < left.expressions@.len() ==> eng.spec_eval_coeffs(
                #[trigger] left.expressions@[j],
                offset,
            ).len() == 0,
    ensures
        !eng.lookup_resolvable(left, right, offset),
{
    if eng.lookup_resolvable(left, right, offset) {
        let i2 = choose|i2: int|
            0 <= i2 < left.expressions@.len() && (#[trigger] eng.spec_eval_coeffs(
                left.expressions@[i2],
                offset,
            )).len() == 1 && (forall|j: int|
                0 <= j < left.expressions@.len() && j != i2 ==> eng.spec_eval_coeffs(
                    #[trigger] left.expressions@[j],
                    offset,
                ).len() == 0);
        assert(eng.spec_eval_coeffs(left.expressions@[i2], offset).len() == 0);
    }
}

/// A lone unknown expression with several distinct unknown cells leaves the
/// lookup unresolvable.
proof fn lemma_lookup_wide_unknown<F: FixedEvaluator>(
    eng: WitgenInference<F>,
    left: SelectedExpressions,
    right: SelectedExpressions,
    offset: i32,
    a: int,
)
    requires
        0 <= a < left.expressions@.len(),
        eng.spec_eval_coeffs(left.expressions@[a], offset).len() != 1,
        forall|j: int|
            0 <= j < left.expressions@.len() && j != a ==> eng.spec_eval_coeffs(
                #[trigger] left.expressions@[j],
                offset,
            ).len() == 0,
    ensures
        !eng.lookup_resolvable(left, right, offset),
{
    if eng.lookup_resolvable(left, right, offset) {
        let i2 = choose|i2: int|
            0 <= i2 < left.expressions@.len() && (#[trigger] eng.spec_eval_coeffs(
                left.expressions@[i2],
                offset,
            )).len() == 1 && (forall|j: int|
                0 <= j < left.expressions@.len() && j != i2 ==> eng.spec_eval_coeffs(
                    #[trigger] left.expressions@[j],
                    offset,
                ).len() == 0);
        if i2 == a {
            assert(eng.spec_eval_coeffs(left.expressions@[a], offset).len() == 1);
        } else {
            assert(eng.spec_eval_coeffs(left.expressions@[a], offset).len() == 0);
        }
    }
}

/// Turns one answer of the fixed-value provider into an evaluation result: a
/// canonical field value becomes that known constant; an absent or
/// out-of-field answer is an evaluation failure.
fn fixed_value_result(answer: Option<u64>) -> (r: Option<AffineSymbolicExpression>)
    ensures
        r is Some <==> (answer is Some && answer->0 < GL_MODULUS),
        r is Some ==> aff_wf(r->0) && r->0.coefficients@.len() == 0 && r->0.offset
            == SymbolicExpression::Concrete(answer->0) && (forall|c: Cell|
            !aff_mentions(r->0, c)) && (forall|c: Cell| !aff_key(r->0, c)),
{
    match answer {
        Some(v) => {
            if v < GL_MODULUS {
                Some(AffineSymbolicExpression::from_number(v))
            } else {
                None
            }
        },
        None => None,
    }
}

impl<F: FixedEvaluator> WitgenInference<F> {
    /// Recursively evaluates a constraint expression at the given row into an
    /// affine symbolic expression over current knowledge. `None` means the
    /// expression cannot be evaluated on this pass: an unsupported reference
    /// kind, an unresolved or out-of-range fixed value, a product of two
    /// unknowns, or a power with a symbolic operand.
    fn evaluate(&self, expr: &Expression, offset: i32) -> (r: Option<AffineSymbolicExpression>)
        requires
            self.inv(),
            expr_wf(*expr),
        ensures
            r is Some ==> aff_wf(r->0) && aff_evaluated_for(r->0, self.known_set()),
            (r is Some && self.expr_resolved(*expr, offset)) ==> r->0.coefficients@.len() == 0,
            no_fixed(*expr) ==> (r is Some <==> self.spec_eval_ok(*expr, offset)),
            (no_fixed(*expr) && r is Some) ==> r->0.coefficients@ == self.spec_eval_coeffs(
                *expr,
                offset,
            ) && r->0.offset == self.spec_eval_offset(*expr, offset),
            (expr is Reference && expr->Reference_0.kind is Fixed && r is Some)
                ==> r->0.coefficients@.len() == 0 && r->0.offset is Concrete,
        decreases *expr,
    {
        match expr {
            Expression::Reference(reference) => {
                match reference.kind {
                    ColumnKind::Fixed => fixed_value_result(
                        self.fixed_evaluator.evaluate(reference, offset),
                    ),
                    ColumnKind::Witness => {
                        let row: i64 = offset as i64 + if reference.next {
                            1i64
                        } else {
                            0i64
                        };
                        let cell = Cell { id: reference.id, row_offset: row };
                        proof {
                            assert(cell == Self::spec_ref_cell(*reference, offset));
                        }
                        // A known compile-time constant value is stored in
                        // the range constraints.
                        let rc = self.range_constraint(cell);
                        let mut single: Option<u64> = None;
                        if let Some(rc2) = rc {
                            single = rc2.try_to_single_value();
                        }
                        if let Some(v) = single {
                            Some(AffineSymbolicExpression::from_number(v))
                        } else if self.is_known(cell) {
                            Some(AffineSymbolicExpression::from_known_symbol(cell))
                        } else {
                            proof {
                                assert(!self.cell_resolved(cell));
                            }
                            Some(AffineSymbolicExpression::from_unknown_variable(cell))
                        }
                    },
                }
            },
            Expression::PublicReference(_) => None,
            Expression::Challenge(_) => None,
            Expression::Number(n) => Some(AffineSymbolicExpression::from_number(*n)),
            Expression::BinaryOperation(op) => self.evaluate_binary_operation(&**op, offset),
            Expression::UnaryOperation(op) => self.evaluate_unary_operation(&**op, offset),
        }
    }

    fn evaluate_binary_operation(&self, op: &AlgebraicBinaryOperation, offset: i32) -> (r: Option<
        AffineSymbolicExpression,
    >)
        requires
            self.inv(),
            expr_wf(op.left),
            expr_wf(op.right),
        ensures
            r is Some ==> aff_wf(r->0) && aff_evaluated_for(r->0, self.known_set()),
            (r is Some && self.expr_resolved(op.left, offset) && self.expr_resolved(
                op.right,
                offset,
            )) ==> r->0.coefficients@.len() == 0,
            (no_fixed(op.left) && no_fixed(op.right)) ==> (r is Some <==> self.spec_eval_ok(
                op.left,
                offset,
            ) && self.spec_eval_ok(op.right, offset) && (match op.op {
                AlgebraicBinaryOperator::Add => true,
                AlgebraicBinaryOperator::Sub => true,
                AlgebraicBinaryOperator::Mul => self.spec_eval_coeffs(op.left, offset).len() == 0
                    || self.spec_eval_coeffs(op.right, offset).len() == 0,
                AlgebraicBinaryOperator::Pow => self.spec_eval_coeffs(op.left, offset).len() == 0
                    && self.spec_eval_offset(op.left, offset) is Concrete && self.spec_eval_coeffs(
                    op.right,
                    offset,
                ).len() == 0 && self.spec_eval_offset(op.right, offset) is Concrete,
            })),
            (no_fixed(op.left) && no_fixed(op.right) && r is Some) ==> {
                let lc = self.spec_eval_coeffs(op.left, offset);
                let rc = self.spec_eval_coeffs(op.right, offset);
                let lo = self.spec_eval_offset(op.left, offset);
                let ro = self.spec_eval_offset(op.right, offset);
                match op.op {
                    AlgebraicBinaryOperator::Add => r->0.coefficients@ == spec_merge(lc, rc)
                        && r->0.offset == spec_sym_add(lo, ro),
                    AlgebraicBinaryOperator::Sub => r->0.coefficients@ == spec_merge(
                        lc,
                        spec_neg_coeffs(rc),
                    ) && r->0.offset == spec_sym_add(lo, spec_sym_neg(ro)),
                    AlgebraicBinaryOperator::Mul => if lc.len() == 0 {
                        r->0.coefficients@ == spec_scale_coeffs(rc, lo) && r->0.offset
                            == spec_sym_mul(ro, lo)
                    } else {
                        r->0.coefficients@ == spec_scale_coeffs(lc, ro) && r->0.offset
                            == spec_sym_mul(lo, ro)
                    },
                    AlgebraicBinaryOperator::Pow => r->0.coefficients@.len() == 0 && r->0.offset
                        == SymbolicExpression::Concrete(
                        f_pow(lo->Concrete_0 as int, ro->Concrete_0 as nat) as u64,
                    ),
                }
            },
        decreases *op,
    {
        let left = match self.evaluate(&op.left, offset) {
            Some(l) => l,
            None => {
                return None;
            },
        };
        let right = match self.evaluate(&op.right, offset) {
            Some(x) => x,
            None => {
                return None;
            },
        };
        match op.op {
            AlgebraicBinaryOperator::Add => Some(left.add(right)),
            AlgebraicBinaryOperator::Sub => Some(left.sub(right)),
            AlgebraicBinaryOperator::Mul => left.try_mul(right),
            AlgebraicBinaryOperator::Pow => {
                // Both operands must be compile-time constants.
                let base: Option<u64> = match left.try_to_known() {
                    Some(e) => e.try_to_number(),
                    None => None,
                };
                let exp: Option<u64> = match right.try_to_known() {
                    Some(e) => e.try_to_number(),
                    None => None,
                };
                match (base, exp) {
                    (Some(b), Some(x)) => {
                        assert(left.offset == SymbolicExpression::Concrete(b));
                        Some(AffineSymbolicExpression::from_number(fe_pow(b, x)))
                    },
                    _ => None,
                }
            },
        }
    }

    fn evaluate_unary_operation(&self, op: &AlgebraicUnaryOperation, offset: i32) -> (r: Option<
        AffineSymbolicExpression,
    >)
        requires
            self.inv(),
            expr_wf(op.expr),
        ensures
            r is Some ==> aff_wf(r->0) && aff_evaluated_for(r->0, self.known_set()),
            (r is Some && self.expr_resolved(op.expr, offset)) ==> r->0.coefficients@.len() == 0,
            no_fixed(op.expr) ==> (r is Some <==> self.spec_eval_ok(op.expr, offset)),
            (no_fixed(op.expr) && r is Some) ==> r->0.coefficients@ == spec_neg_coeffs(
                self.spec_eval_coeffs(op.expr, offset),
            ) && r->0.offset == spec_sym_neg(self.spec_eval_offset(op.expr, offset)),
        decreases *op,
    {
        let e = match self.evaluate(&op.expr, offset) {
            Some(x) => x,
            None => {
                return None;
            },
        };
        match op.op {
            AlgebraicUnaryOperator::Minus => Some(e.neg()),
        }
    }

    /// Evaluates the polynomial identity `expression = 0` at the given row
    /// and solves the resulting affine form; evaluation failure yields the
    /// empty, not-complete result.
    fn process_polynomial_identity(&self, expression: &Expression, offset: i32) -> (r:
        ProcessResult)
        requires
            self.inv(),
            expr_wf(*expression),
        ensures
            effects_ok(r.effects@, self.known_set()),
            rc_targets_not_rewritten(r.effects@),
            self.expr_resolved(*expression, offset) ==> assertions_only(r.effects@),
            no_fixed(*expression) ==> ({
                let cs = self.spec_eval_coeffs(*expression, offset);
                let off = self.spec_eval_offset(*expression, offset);
                if self.spec_eval_ok(*expression, offset) {
                    &&& r.complete == (cs.len() == 0 || (cs.len() == 1 && cs[0].1 is Concrete))
                    &&& (cs.len() == 0 && off == SymbolicExpression::Concrete(0))
                        ==> r.effects@.len() == 0
                    &&& (cs.len() == 0 && off != SymbolicExpression::Concrete(0)) ==> {
                        &&& r.effects@.len() == 1
                        &&& r.effects@[0] is Assertion
                        &&& r.effects@[0]->Assertion_0.lhs == off
                        &&& r.effects@[0]->Assertion_0.rhs == SymbolicExpression::Concrete(0)
                        &&& r.effects@[0]->Assertion_0.expected_equal
                    }
                    &&& (cs.len() == 1 && cs[0].1 is Concrete) ==> {
                        &&& r.effects@.len() == 1
                        &&& r.effects@[0] is Assignment
                        &&& r.effects@[0]->Assignment_0 == cs[0].0
                        &&& exists|ic: u64|
                            ic < GL_MODULUS && (cs[0].1->Concrete_0 as int * ic as int) % (
                            GL_MODULUS as int) == 1 && r.effects@[0]->Assignment_1
                                == #[trigger] spec_sym_mul(
                                spec_sym_neg(off),
                                SymbolicExpression::Concrete(ic),
                            )
                    }
                    &&& !r.complete ==> r.effects@.len() == 0
                } else {
                    r.effects@.len() == 0 && !r.complete
                }
            }),
    {
        match self.evaluate(expression, offset) {
            Some(e) => {
                let ghost ge = e;
                let r = e.solve();
                proof {
                    if self.expr_resolved(*expression, offset) {
                        if ge.offset == SymbolicExpression::Concrete(0) {
                            assert(assertions_only(r.effects@));
                        } else {
                            assert(r.effects@[0] is Assertion);
                            assert(assertions_only(r.effects@));
                        }
                    }
                }
                r
            },
            None => ProcessResult::empty(),
        }
    }

    /// Resolves a lookup-family identity: if the right side is a static table
    /// (fixed-column references and constants only), the left selector is the
    /// known constant one, every left expression evaluates, and exactly one
    /// of them is unknown with exactly one unknown cell, a single
    /// `MachineCall` is emitted and the pair is complete. Any other
    /// combination yields the empty, not-complete result.
    #[verifier::rlimit(100)]
    #[verifier::spinoff_prover]
    fn process_lookup(
        &self,
        lookup_id: u64,
        left: &SelectedExpressions,
        right: &SelectedExpressions,
        offset: i32,
    ) -> (r: ProcessResult)
        requires
            self.inv(),
            sel_wf(*left),
            sel_wf(*right),
        ensures
            effects_ok(r.effects@, self.known_set()),
            rc_targets_not_rewritten(r.effects@),
            (forall|i: int|
                0 <= i < left.expressions@.len() ==> self.expr_resolved(
                    #[trigger] left.expressions@[i],
                    offset,
                )) ==> r.effects@.len() == 0 && !r.complete,
            !r.complete ==> r.effects@.len() == 0,
            !rhs_static(*right) ==> !r.complete,
            (no_fixed(left.selector) && (forall|i: int|
                0 <= i < left.expressions@.len() ==> no_fixed(#[trigger] left.expressions@[i])))
                ==> {
                &&& r.complete == self.lookup_resolvable(*left, *right, offset)
                &&& r.complete ==> forall|j: int|
                    0 <= j < left.expressions@.len() ==> match #[trigger] r.effects@[0]->MachineCall_1@[j] {
                        MachineCallArgument::Known(ex) => self.spec_eval_coeffs(
                            left.expressions@[j],
                            offset,
                        ).len() == 0 && ex == self.spec_eval_offset(left.expressions@[j], offset),
                        MachineCallArgument::Unknown(a) => a.coefficients@ == self.spec_eval_coeffs(
                            left.expressions@[j],
                            offset,
                        ) && a.offset == self.spec_eval_offset(left.expressions@[j], offset),
                    }
            },
            r.complete ==> {
                let args = r.effects@[0]->MachineCall_1@;
                &&& r.effects@.len() == 1
                &&& r.effects@[0] is MachineCall
                &&& r.effects@[0]->MachineCall_0 == lookup_id
                &&& args.len() == left.expressions@.len()
                &&& exists|u: int|
                    0 <= u < args.len() && (#[trigger] args[u]) is Unknown && forall|j: int|
                        0 <= j < args.len() && j != u ==> (#[trigger] args[j]) is Known
                &&& forall|j: int|
                    0 <= j < args.len() ==> match #[trigger] args[j] {
                        MachineCallArgument::Known(_) => true,
                        MachineCallArgument::Unknown(a) => a.coefficients@.len() == 1,
                    }
            },
    {
        // The right-hand side must be fully fixed columns or constants.
        let mut i: usize = 0;
        while i < right.expressions.len()
            invariant
                i <= right.expressions@.len(),
                forall|j: int|
                    0 <= j < i ==> (match #[trigger] right.expressions@[j] {
                        Expression::Reference(r) => r.kind is Fixed,
                        Expression::Number(_) => true,
                        _ => false,
                    }),
            decreases right.expressions@.len() - i,
        {
            match &right.expressions[i] {
                Expression::Reference(r) => {
                    if !matches!(r.kind, ColumnKind::Fixed) {
                        proof {
                            assert(!rhs_static(*right));
                        }
                        return ProcessResult::empty();
                    }
                },
                Expression::Number(_) => {},
                _ => {
                    proof {
                        assert(!rhs_static(*right));
                    }
                    return ProcessResult::empty();
                },
            }
            i = i + 1;
        }
        proof {
            assert(rhs_static(*right));
        }
        // The selector must be known to be one.
        let mut selector_is_one: bool = false;
        let sel = self.evaluate(&left.selector, offset);
        proof {
            if no_fixed(left.selector) {
                assert(sel is Some <==> self.spec_eval_ok(left.selector, offset));
            }
        }
        if let Some(s) = sel {
            if let Some(e) = s.try_to_known() {
                if let Some(v) = e.try_to_number() {
                    if v == 1 {
                        selector_is_one = true;
                        proof {
                            if no_fixed(left.selector) {
                                assert(self.spec_eval_coeffs(left.selector, offset).len() == 0);
                                assert(self.spec_eval_offset(left.selector, offset)
                                    == SymbolicExpression::Concrete(1));
                            }
                        }
                    }
                }
            }
        }
        if !selector_is_one {
            proof {
                if no_fixed(left.selector) {
                    assert(!(self.spec_eval_ok(left.selector, offset) && self.spec_eval_coeffs(
                        left.selector,
                        offset,
                    ).len() == 0 && self.spec_eval_offset(left.selector, offset)
                        == SymbolicExpression::Concrete(1)));
                }
            }
            return ProcessResult::empty();
        }
        // All left-hand expressions must evaluate.
        let mut lhs: Vec<AffineSymbolicExpression> = Vec::new();
        let mut i: usize = 0;
        while i < left.expressions.len()
            invariant
                self.inv(),
                sel_wf(*left),
                i <= left.expressions@.len(),
                lhs@.len() == i,
                forall|j: int|
                    0 <= j < lhs@.len() ==> aff_wf(#[trigger] lhs@[j]) && aff_evaluated_for(
                        lhs@[j],
                        self.known_set(),
                    ),
                (forall|k: int|
                    0 <= k < left.expressions@.len() ==> self.expr_resolved(
                        #[trigger] left.expressions@[k],
                        offset,
                    )) ==> forall|j: int|
                    0 <= j < lhs@.len() ==> (#[trigger] lhs@[j]).coefficients@.len() == 0,
                (forall|k: int|
                    0 <= k < left.expressions@.len() ==> no_fixed(#[trigger] left.expressions@[k]))
                    ==> forall|j: int|
                    0 <= j < lhs@.len() ==> self.spec_eval_ok(left.expressions@[j], offset) && (
                    #[trigger] lhs@[j]).coefficients@ == self.spec_eval_coeffs(
                        left.expressions@[j],
                        offset,
                    ) && lhs@[j].offset == self.spec_eval_offset(left.expressions@[j], offset),
            decreases left.expressions@.len() - i,
        {
            match self.evaluate(&left.expressions[i], offset) {
                Some(e) => lhs.push(e),
                None => {
                    proof {
                        if no_fixed(left.expressions@[i as int]) {
                            assert(!self.spec_eval_ok(left.expressions@[i as int], offset));
                        }
                    }
                    return ProcessResult::empty();
                },
            }
            i = i + 1;
        }
        // Exactly one left-hand expression may be unknown, and it must have
        // exactly one distinct unknown cell.
        let mut unknown_count: usize = 0;
        let mut unknown_idx: usize = 0;
        let mut i: usize = 0;
        while i < lhs.len()
            invariant
                i <= lhs@.len(),
                lhs@.len() == left.expressions@.len(),
                unknown_count <= 1,
                (forall|k: int|
                    0 <= k < left.expressions@.len() ==> no_fixed(#[trigger] left.expressions@[k]))
                    ==> forall|j: int|
                    0 <= j < lhs@.len() ==> (#[trigger] lhs@[j]).coefficients@
                        == self.spec_eval_coeffs(left.expressions@[j], offset),
                unknown_count == 0 ==> forall|j: int|
                    0 <= j < i ==> (#[trigger] lhs@[j]).coefficients@.len() == 0,
                unknown_count == 1 ==> 0 <= unknown_idx < i && lhs@[
                    unknown_idx as int
                ].coefficients@.len() > 0 && forall|j: int|
                    0 <= j < i && j != unknown_idx ==> (#[trigger] lhs@[j]).coefficients@.len()
                        == 0,
            decreases lhs@.len() - i,
        {
            if lhs[i].coefficients.len() > 0 {
                if unknown_count >= 1 {
                    proof {
                        if no_fixed(left.selector) && (forall|k: int|
                        0 <= k < left.expressions@.len() ==> no_fixed(
                            #[trigger] left.expressions@[k],
                        )) {
                            assert(lhs@[unknown_idx as int].coefficients@ == self.spec_eval_coeffs(
                                left.expressions@[unknown_idx as int],
                                offset,
                            ));
                            assert(lhs@[i as int].coefficients@ == self.spec_eval_coeffs(
                                left.expressions@[i as int],
                                offset,
                            ));
                            lemma_lookup_two_unknowns(
                                *self,
                                *left,
                                *right,
                                offset,
                                unknown_idx as int,
                                i as int,
                            );
                        }
                    }
                    return ProcessResult::empty();
                }
                unknown_count = unknown_count + 1;
                unknown_idx = i;
            }
            i = i + 1;
        }
        if unknown_count != 1 {
            proof {
                if no_fixed(left.selector) && (forall|k: int|
                        0 <= k < left.expressions@.len() ==> no_fixed(
                            #[trigger] left.expressions@[k],
                        )) {
                    assert(unknown_count == 0);
                    assert forall|j: int|
                        0 <= j < left.expressions@.len() implies self.spec_eval_coeffs(
                        #[trigger] left.expressions@[j],
                        offset,
                    ).len() == 0 by {
                        assert(lhs@[j].coefficients@ == self.spec_eval_coeffs(
                            left.expressions@[j],
                            offset,
                        ));
                        assert(lhs@[j].coefficients@.len() == 0);
                    }
                    lemma_lookup_no_unknown(*self, *left, *right, offset);
                }
            }
            return ProcessResult::empty();
        }
        if lhs[unknown_idx].coefficients.len() != 1 {
            proof {
                if no_fixed(left.selector) && (forall|k: int|
                        0 <= k < left.expressions@.len() ==> no_fixed(
                            #[trigger] left.expressions@[k],
                        )) {
                    assert(lhs@[unknown_idx as int].coefficients@ == self.spec_eval_coeffs(
                        left.expressions@[unknown_idx as int],
                        offset,
                    ));
                    assert forall|j: int|
                        0 <= j < left.expressions@.len() && j != unknown_idx as int
                        implies self.spec_eval_coeffs(
                        #[trigger] left.expressions@[j],
                        offset,
                    ).len() == 0 by {
                        assert(lhs@[j].coefficients@ == self.spec_eval_coeffs(
                            left.expressions@[j],
                            offset,
                        ));
                        assert(lhs@[j].coefficients@.len() == 0);
                    }
                    lemma_lookup_wide_unknown(*self, *left, *right, offset, unknown_idx as int);
                }
            }
            return ProcessResult::empty();
        }
        proof {
            if forall|k: int|
                0 <= k < left.expressions@.len() ==> self.expr_resolved(
                    #[trigger] left.expressions@[k],
                    offset,
                ) {
                assert(lhs@[unknown_idx as int].coefficients@.len() == 0);
                assert(false);
            }
        }
        // Build the argument list, tagging each expression Known or Unknown.
        let ghost glhs = lhs@;
        let ghost gidx = unknown_idx as int;
        let ghost known = self.known_set();
        proof {
            assert(glhs[gidx].coefficients@.len() == 1);
            assert(forall|j: int|
                0 <= j < glhs.len() && j != gidx ==> (#[trigger] glhs[j]).coefficients@.len()
                    == 0);
            if no_fixed(left.selector) && (forall|k: int|
                0 <= k < left.expressions@.len() ==> no_fixed(#[trigger] left.expressions@[k])) {
                assert forall|j: int|
                    0 <= j < left.expressions@.len() implies self.spec_eval_ok(
                    #[trigger] left.expressions@[j],
                    offset,
                ) by {
                    let w = lhs@[j];
                    assert(w == lhs@[j]);
                }
                assert forall|j: int|
                    0 <= j < glhs.len() implies (#[trigger] glhs[j]).coefficients@
                    == self.spec_eval_coeffs(left.expressions@[j], offset) && glhs[j].offset
                    == self.spec_eval_offset(left.expressions@[j], offset) by {
                    let w = lhs@[j];
                    assert(w == lhs@[j]);
                }
            }
        }
        let mut args: Vec<MachineCallArgument> = Vec::new();
        while lhs.len() > 0
            invariant
                args@.len() + lhs@.len() == glhs.len(),
                lhs@ == glhs.skip(args@.len() as int),
                forall|j: int|
                    0 <= j < glhs.len() ==> aff_wf(#[trigger] glhs[j]) && aff_evaluated_for(
                        glhs[j],
                        known,
                    ),
                forall|j: int|
                    0 <= j < glhs.len() ==> (#[trigger] glhs[j]).coefficients@.len() <= 1,
                forall|j: int|
                    0 <= j < args@.len() ==> arg_reads_ok(#[trigger] args@[j], known) && match args@[j] {
                        MachineCallArgument::Known(ex) => sym_wf(ex),
                        MachineCallArgument::Unknown(a) => aff_wf(a) && a.coefficients@.len() == 1,
                    },
                forall|j: int, c: Cell|
                    0 <= j < args@.len() && #[trigger] arg_writes(args@[j]).contains(c)
                        ==> !known.contains(c),
                forall|j: int|
                    0 <= j < args@.len() ==> match #[trigger] args@[j] {
                        MachineCallArgument::Known(ex) => glhs[j].coefficients@.len() == 0 && ex
                            == glhs[j].offset,
                        MachineCallArgument::Unknown(a) => a == glhs[j]
                            && glhs[j].coefficients@.len() == 1,
                    },
            decreases lhs@.len(),
        {
            let ghost k = args@.len() as int;
            let e = lhs.remove(0);
            proof {
                assert(e == glhs[k]);
                assert(lhs@ =~= glhs.skip(k + 1));
            }
            let ghost ge = e;
            let ghost args0 = args@;
            if e.coefficients.len() == 0 {
                let AffineSymbolicExpression { coefficients: _, offset: off } = e;
                proof {
                    assert forall|c: Cell| #[trigger] sym_mentions(off, c) implies known.contains(
                        c,
                    ) by {
                        assert(aff_mentions(ge, c));
                    }
                }
                args.push(MachineCallArgument::Known(off));
                proof {
                    assert forall|j: int, c: Cell|
                        0 <= j < args@.len() && #[trigger] arg_writes(args@[j]).contains(
                            c,
                        ) implies !known.contains(c) by {
                        if j < args0.len() {
                            assert(args@[j] == args0[j]);
                        } else {
                            assert(args@[j] == MachineCallArgument::Known(off));
                        }
                    }
                }
            } else {
                proof {
                    assert(e.coefficients@.len() == 1);
                    assert forall|c: Cell| #[trigger] aff_mentions(ge, c) implies known.contains(
                        c,
                    ) by {}
                    lemma_keys_set_is_keys(e.coefficients@);
                }
                args.push(MachineCallArgument::Unknown(e));
                proof {
                    assert forall|j: int, c: Cell|
                        0 <= j < args@.len() && #[trigger] arg_writes(args@[j]).contains(
                            c,
                        ) implies !known.contains(c) by {
                        if j < args0.len() {
                            assert(args@[j] == args0[j]);
                        } else {
                            assert(args@[j] == MachineCallArgument::Unknown(ge));
                            assert(keys_set(ge.coefficients@).contains(c));
                            assert(coeffs_key(ge.coefficients@, c));
                            assert(aff_key(ge, c));
                        }
                    }
                }
            }
        }
        let ghost gargs = args@;
        let mut effects: Vec<Effect> = Vec::new();
        effects.push(Effect::MachineCall(lookup_id, args));
        proof {
            let e = effects@.first();
            assert(effects@.len() == 1);
            assert(e is MachineCall && e->MachineCall_1@ == gargs);
            assert(effect_writes(e) == args_writes(gargs));
            lemma_args_writes_member(gargs);
            assert forall|c: Cell|
                effect_writes(e).contains(c) implies !known.contains(c) by {
                let j = choose|j: int|
                    0 <= j < gargs.len() && #[trigger] arg_writes(gargs[j]).contains(c);
            }
            assert(effect_writes(e).disjoint(known));
            assert(effect_ingestible(e, known));
            assert(effects@.drop_first().len() == 0);
            assert(effects_ok(effects@.drop_first(), known.union(effect_writes(e))));
            assert(effects_ok(effects@, known));
            assert(rc_targets_not_rewritten(effects@)) by {
                assert(effects@.drop_first().len() == 0);
                assert(rc_targets_not_rewritten(effects@.drop_first()));
            }
            assert(effects@[0]->MachineCall_1@ == gargs);
            assert(gargs[gidx] is Unknown);
            assert forall|j: int|
                0 <= j < gargs.len() && j != gidx implies (#[trigger] gargs[j]) is Known by {}
            if no_fixed(left.selector) && (forall|k: int|
                0 <= k < left.expressions@.len() ==> no_fixed(#[trigger] left.expressions@[k])) {
                assert(glhs[gidx].coefficients@ == self.spec_eval_coeffs(
                    left.expressions@[gidx],
                    offset,
                ));
                assert((self.spec_eval_coeffs(left.expressions@[gidx], offset)).len() == 1);
                assert forall|j: int|
                    0 <= j < left.expressions@.len() && j != gidx implies self.spec_eval_coeffs(
                    #[trigger] left.expressions@[j],
                    offset,
                ).len() == 0 by {
                    assert(glhs[j].coefficients@ == self.spec_eval_coeffs(
                        left.expressions@[j],
                        offset,
                    ));
                    assert(glhs[j].coefficients@.len() == 0);
                }
                assert(exists|i2: int|
                    0 <= i2 < left.expressions@.len() && (#[trigger] self.spec_eval_coeffs(
                        left.expressions@[i2],
                        offset,
                    )).len() == 1 && (forall|j: int|
                        0 <= j < left.expressions@.len() && j != i2 ==> self.spec_eval_coeffs(
                            #[trigger] left.expressions@[j],
                            offset,
                        ).len() == 0)) by {
                    assert(0 <= gidx < left.expressions@.len() && (self.spec_eval_coeffs(
                        left.expressions@[gidx],
                        offset,
                    )).len() == 1 && (forall|j: int|
                        0 <= j < left.expressions@.len() && j != gidx ==> self.spec_eval_coeffs(
                            #[trigger] left.expressions@[j],
                            offset,
                        ).len() == 0));
                }
                assert(self.lookup_resolvable(*left, *right, offset));
                assert forall|j: int|
                    0 <= j < left.expressions@.len() implies match #[trigger] gargs[j] {
                    MachineCallArgument::Known(ex) => self.spec_eval_coeffs(
                        left.expressions@[j],
                        offset,
                    ).len() == 0 && ex == self.spec_eval_offset(left.expressions@[j], offset),
                    MachineCallArgument::Unknown(a) => a.coefficients@ == self.spec_eval_coeffs(
                        left.expressions@[j],
                        offset,
                    ) && a.offset == self.spec_eval_offset(left.expressions@[j], offset),
                } by {
                    assert(glhs[j].coefficients@ == self.spec_eval_coeffs(
                        left.expressions@[j],
                        offset,
                    ));
                    assert(glhs[j].offset == self.spec_eval_offset(left.expressions@[j], offset));
                }
            }
        }
        ProcessResult { effects, complete: true }
    }

    /// Folds a batch of effects into the knowledge base: an `Assignment`
    /// marks its cell known (recording a single-value range constraint if the
    /// value is a constant) and is appended to the code; a `RangeConstraint`
    /// is merged, possibly promoting its cell; a `MachineCall` marks every
    /// `Unknown` argument's cell known (the relation supplies the value at
    /// execution time) and is appended; an `Assertion` is appended unchanged.
    fn ingest_effects(&mut self, effects: Vec<Effect>)
        requires
            old(self).inv(),
            effects_ok(effects@, old(self).known_set()),
            rc_targets_not_rewritten(effects@),
        ensures
            final(self).inv(),
            old(self).known_set().subset_of(final(self).known_set()),
            rc_map_tightened(final(self).derived_map(), old(self).derived_map()),
            final(self).globals_map() == old(self).globals_map(),
            final(self).spec_initially_known() == old(self).spec_initially_known(),
            seq_extends(final(self).code_seq(), old(self).code_seq()),
            assertions_only(effects@) ==> final(self).known_set() == old(self).known_set()
                && final(self).derived_map() == old(self).derived_map(),
            effects@.len() == 0 ==> final(self).known_set() == old(self).known_set()
                && final(self).derived_map() == old(self).derived_map()
                && final(self).code_seq() == old(self).code_seq(),
            effects@.len() == 1 ==> ingest_one_transition(*old(self), effects@[0], *final(self)),
    {
        let mut effects = effects;
        let ghost efs0 = effects@;
        while effects.len() > 0
            invariant
                self.inv(),
                effects_ok(effects@, self.known_set()),
                rc_targets_not_rewritten(effects@),
                old(self).known_set().subset_of(self.known_set()),
                rc_map_tightened(self.derived_map(), old(self).derived_map()),
                self.globals_map() == old(self).globals_map(),
                self.spec_initially_known() == old(self).spec_initially_known(),
                seq_extends(self.code_seq(), old(self).code_seq()),
                effects@.len() <= efs0.len(),
                assertions_only(efs0) ==> (assertions_only(effects@) && self.known_set() == old(self).known_set() && self.derived_map() == old(self).derived_map()),
                effects@.len() == efs0.len() ==> effects@ == efs0 && self.known_set() == old(self).known_set() && self.derived_map() == old(self).derived_map() && self.code_seq()
                    == old(self).code_seq(),
                (efs0.len() == 1 && effects@.len() == 0) ==> ingest_one_transition(
                    *old(self),
                    efs0[0],
                    *self,
                ),
            decreases effects@.len(),
        {
            let ghost efs = effects@;
            let ghost pre = *self;
            let e = effects.remove(0);
            proof {
                assert(efs.first() == e);
                assert(effects@ =~= efs.drop_first());
                assert(effect_ingestible(e, pre.known_set()));
                if assertions_only(efs0) {
                    assert(efs[0] is Assertion);
                    assert forall|j: int|
                        0 <= j < effects@.len() implies effects@[j] is Assertion by {
                        assert(effects@[j] == efs[j + 1]);
                    }
                }
            }
            match e {
                Effect::Assignment(cell, expr) => {
                    let ghost k0 = self.known_cells@;
                    let ghost c0 = self.code@;
                    let ghost init = self.initially_known@;
                    let ghost gexpr = expr;
                    let rc_val: Option<u64> = match &expr {
                        SymbolicExpression::Concrete(v) => Some(*v),
                        _ => None,
                    };
                    self.known_cells.push(cell);
                    self.code.push(Effect::Assignment(cell, expr));
                    proof {
                        let ge = Effect::Assignment(cell, gexpr);
                        lemma_vec_push_contains(k0, cell);
                        assert(self.code@.drop_last() =~= c0);
                        assert(effect_writes(ge) =~= Set::<Cell>::empty().insert(cell));
                        assert(self.known_set() =~= replay_known(self.code@, init)) by {
                            assert(replay_known(self.code@, init) == replay_known(
                                c0,
                                init,
                            ).union(effect_writes(ge)));
                        }
                        assert(executable(self.code@, init));
                        assert(writes_fresh(self.code@, init));
                        assert(self.known_set() =~= pre.known_set().union(effect_writes(ge)));
                        assert(self.known_set() =~= pre.known_set().insert(cell));
                        assert(self.code_seq() == pre.code_seq().push(efs.first()));
                    }
                    if let Some(v) = rc_val {
                        // A cell determined to be a constant also gets a
                        // single-value range constraint, usable in future
                        // evaluations.
                        let ghost mid = *self;
                        let rcv = RangeConstraint::from_value(v);
                        self.add_range_constraint(cell, rcv);
                        proof {
                            assert(self.known_set().contains(cell));
                            assert(self.known_set() == mid.known_set());
                            assert(self.code@ == mid.code@);
                            assert(mid.derived_map() == pre.derived_map());
                            assert(mid.globals_map() == pre.globals_map());
                            lemma_spec_merged_transfer(mid, pre, cell, rcv);
                            assert(rcv == RangeConstraint { min: v, max: v });
                            assert(self.derived_map() == pre.derived_map().insert(
                                cell,
                                pre.spec_merged(cell, RangeConstraint { min: v, max: v }),
                            ));
                            assert(sym_as_concrete(gexpr) == Some(v));
                            assert(ingest_one_transition(pre, efs.first(), *self));
                            assert forall|c: Cell| #[trigger]
                                old(self).derived_map().contains_key(
                                c,
                            ) implies self.derived_map().contains_key(c) && rc_implies(
                                self.derived_map()[c],
                                old(self).derived_map()[c],
                            ) by {
                                assert(mid.derived_map().contains_key(c));
                                assert forall|vv: int|
                                    crate::range_constraint::rc_contains(
                                        self.derived_map()[c],
                                        vv,
                                    ) implies crate::range_constraint::rc_contains(
                                    old(self).derived_map()[c],
                                    vv,
                                ) by {
                                    assert(crate::range_constraint::rc_contains(
                                        mid.derived_map()[c],
                                        vv,
                                    ));
                                }
                            }
                        }
                    } else {
                        proof {
                            assert(self.derived_map() == pre.derived_map());
                            assert(sym_as_concrete(gexpr) is None);
                            assert(ingest_one_transition(pre, efs.first(), *self));
                        }
                    }
                },
                Effect::RangeConstraint(cell, rc) => {
                    let ghost mid = *self;
                    self.add_range_constraint(cell, rc);
                    proof {
                        let m = mid.spec_merged(cell, rc);
                        if !mid.known_set().contains(cell) && m.min == m.max {
                            assert(self.known_set() == mid.known_set().insert(cell));
                            assert(effects_ok(effects@, mid.known_set())) by {
                                assert(mid.known_set().union(effect_writes(efs.first()))
                                    =~= mid.known_set());
                            }
                            assert forall|j: int|
                                0 <= j < effects@.len() implies !effect_writes(
                                #[trigger] effects@[j],
                            ).contains(cell) by {
                                assert(effects@[j] == efs[j + 1]);
                            }
                            lemma_effects_ok_grow(effects@, mid.known_set(), cell);
                        } else {
                            assert(self.known_set() == mid.known_set());
                            assert(mid.known_set().union(effect_writes(efs.first()))
                                =~= mid.known_set());
                        }
                        assert forall|c: Cell| #[trigger]
                            old(self).derived_map().contains_key(
                            c,
                        ) implies self.derived_map().contains_key(c) && rc_implies(
                            self.derived_map()[c],
                            old(self).derived_map()[c],
                        ) by {
                            assert(mid.derived_map().contains_key(c));
                            assert forall|vv: int|
                                crate::range_constraint::rc_contains(
                                    self.derived_map()[c],
                                    vv,
                                ) implies crate::range_constraint::rc_contains(
                                old(self).derived_map()[c],
                                vv,
                            ) by {
                                assert(crate::range_constraint::rc_contains(
                                    mid.derived_map()[c],
                                    vv,
                                ));
                            }
                        }
                        assert(mid.globals_map() == pre.globals_map());
                        assert(mid.derived_map() == pre.derived_map());
                        assert(mid.known_set() =~= pre.known_set());
                        assert(mid.code_seq() == pre.code_seq());
                        lemma_spec_merged_transfer(mid, pre, cell, rc);
                        assert(ingest_one_transition(pre, efs.first(), *self));
                    }
                },
                Effect::Assertion(a) => {
                    let ghost c0 = self.code@;
                    let ghost init = self.initially_known@;
                    let ghost ga = a;
                    self.code.push(Effect::Assertion(a));
                    proof {
                        let ge = Effect::Assertion(ga);
                        assert(self.code@.drop_last() =~= c0);
                        assert(effect_writes(ge) =~= Set::<Cell>::empty());
                        assert(self.known_set() =~= replay_known(self.code@, init)) by {
                            assert(replay_known(self.code@, init) == replay_known(
                                c0,
                                init,
                            ).union(effect_writes(ge)));
                            assert(replay_known(c0, init).union(Set::<Cell>::empty())
                                =~= replay_known(c0, init));
                        }
                        assert(executable(self.code@, init));
                        assert(Set::<Cell>::empty().disjoint(replay_known(c0, init)));
                        assert(writes_fresh(self.code@, init));
                        assert(pre.known_set().union(effect_writes(efs.first()))
                            =~= self.known_set());
                        assert(self.known_set() =~= pre.known_set());
                        assert(self.code_seq() == pre.code_seq().push(efs.first()));
                        assert(self.derived_map() == pre.derived_map());
                        assert(ingest_one_transition(pre, efs.first(), *self));
                    }
                },
                Effect::MachineCall(call_id, args) => {
                    let ghost ks0 = self.known_set();
                    let ghost c0 = self.code@;
                    let ghost init = self.initially_known@;
                    let ghost gargs = args@;
                    let mut i: usize = 0;
                    while i < args.len()
                        invariant
                            i <= args@.len(),
                            args@ == gargs,
                            self.code@ == c0,
                            self.initially_known@ == init,
                            self.derived_range_constraints@
                                == pre.derived_range_constraints@,
                            self.global_range_constraints@
                                == pre.global_range_constraints@,
                            self.known_set() =~= ks0.union(
                                args_writes(gargs.take(i as int)),
                            ),
                            forall|j: int|
                                0 <= j < gargs.len() ==> match #[trigger] gargs[j] {
                                    MachineCallArgument::Known(ex) => sym_wf(ex),
                                    MachineCallArgument::Unknown(a) => aff_wf(a)
                                        && a.coefficients@.len() == 1,
                                },
                        decreases args@.len() - i,
                    {
                        let ghost preset = self.known_set();
                        proof {
                            assert(gargs.take(i as int + 1).drop_last() =~= gargs.take(i as int));
                            assert(gargs.take(i as int + 1).last() == gargs[i as int]);
                        }
                        match &args[i] {
                            MachineCallArgument::Known(_) => {
                                proof {
                                    assert(arg_writes(gargs[i as int]) =~= Set::<Cell>::empty());
                                    assert(self.known_set() =~= ks0.union(
                                        args_writes(gargs.take(i as int + 1)),
                                    ));
                                }
                            },
                            MachineCallArgument::Unknown(a) => {
                                let cellv = a.coefficients[0].0;
                                let ghost k0 = self.known_cells@;
                                self.known_cells.push(cellv);
                                proof {
                                    lemma_vec_push_contains(k0, cellv);
                                    let cs = match gargs[i as int] {
                                        MachineCallArgument::Unknown(a2) => a2.coefficients@,
                                        _ => Seq::empty(),
                                    };
                                    assert(cs.len() == 1);
                                    assert(cs.drop_last().len() == 0);
                                    assert(keys_set(cs.drop_last()) =~= Set::<Cell>::empty());
                                    assert(cs.last() == cs[0]);
                                    assert(keys_set(cs) =~= Set::<Cell>::empty().insert(
                                        cs[0].0,
                                    ));
                                    assert(arg_writes(gargs[i as int]) =~= Set::<
                                        Cell,
                                    >::empty().insert(cellv));
                                    assert(self.known_set() =~= preset.insert(cellv));
                                    assert(self.known_set() =~= ks0.union(
                                        args_writes(gargs.take(i as int + 1)),
                                    ));
                                }
                            },
                        }
                        i = i + 1;
                    }
                    self.code.push(Effect::MachineCall(call_id, args));
                    proof {
                        let ge = self.code@.last();
                        assert(gargs.take(gargs.len() as int) =~= gargs);
                        assert(self.code@.drop_last() =~= c0);
                        assert(ge is MachineCall && ge->MachineCall_1@ == gargs);
                        assert(effect_writes(ge) == args_writes(gargs));
                        assert(self.known_set() =~= replay_known(self.code@, init)) by {
                            assert(replay_known(self.code@, init) == replay_known(
                                c0,
                                init,
                            ).union(effect_writes(ge)));
                        }
                        assert(executable(self.code@, init));
                        assert(writes_fresh(self.code@, init));
                        assert(pre.known_set().union(effect_writes(efs.first()))
                            =~= self.known_set());
                        assert(self.code_seq() == pre.code_seq().push(efs.first()));
                        assert(self.derived_map() == pre.derived_map());
                        assert(ingest_one_transition(pre, efs.first(), *self));
                    }
                },
            }
            proof {
                if efs0.len() == 1 {
                    assert(efs == efs0);
                    lemma_transition_transfer(pre, *old(self), efs.first(), *self);
                }
            }
        }
    }

    /// Processes one identity on one row. Returns true if this
    /// (identity, row) pair was fully processed and should not be considered
    /// again. The knowledge base only grows: known cells are kept and derived
    /// range constraints only tighten.
    pub fn process_identity(&mut self, id: &Identity, row_offset: i32) -> (complete: bool)
        requires
            old(self).inv(),
            id_wf(*id),
        ensures
            final(self).inv(),
            old(self).known_set().subset_of(final(self).known_set()),
            rc_map_tightened(final(self).derived_map(), old(self).derived_map()),
            final(self).globals_map() == old(self).globals_map(),
            final(self).spec_initially_known() == old(self).spec_initially_known(),
            (id is PhantomBusInteraction || id is Connect) ==> !complete && final(self).code_seq()
                == old(self).code_seq() && final(self).known_set() == old(self).known_set()
                && final(self).derived_map() == old(self).derived_map(),
            old(self).id_resolved(*id, row_offset) ==> final(self).known_set() == old(self).known_set() && final(self).derived_map() == old(self).derived_map(),
            seq_extends(final(self).code_seq(), old(self).code_seq()),
            id is LookupFamily ==> (complete ==> final(self).code_seq().len() == old(self).code_seq().len() + 1 && final(self).code_seq().last() is MachineCall && final(self).code_seq().last()->MachineCall_0 == id->LookupFamily_0.id && final(self).known_set()
                == old(self).known_set().union(
                effect_writes(final(self).code_seq().last()),
            ) && final(self).derived_map() == old(self).derived_map()),
            id is LookupFamily ==> (complete ==> {
                let args = final(self).code_seq().last()->MachineCall_1@;
                &&& args.len() == id->LookupFamily_0.left.expressions@.len()
                &&& exists|u: int|
                    0 <= u < args.len() && (#[trigger] args[u]) is Unknown && forall|j: int|
                        0 <= j < args.len() && j != u ==> (#[trigger] args[j]) is Known
                &&& forall|j: int|
                    0 <= j < args.len() ==> match #[trigger] args[j] {
                        MachineCallArgument::Known(_) => true,
                        MachineCallArgument::Unknown(a) => a.coefficients@.len() == 1,
                    }
            }),
            id is LookupFamily ==> (!complete ==> final(self).known_set() == old(self).known_set()
                && final(self).derived_map() == old(self).derived_map() && final(self).code_seq()
                == old(self).code_seq()),
            (id is LookupFamily && !rhs_static(id->LookupFamily_0.right)) ==> !complete,
            (id is LookupFamily && no_fixed(id->LookupFamily_0.left.selector) && (forall|i: int|
                0 <= i < id->LookupFamily_0.left.expressions@.len() ==> no_fixed(
                    #[trigger] id->LookupFamily_0.left.expressions@[i],
                )) && complete) ==> forall|j: int|
                0 <= j < id->LookupFamily_0.left.expressions@.len()
                    ==> match #[trigger] final(self).code_seq().last()->MachineCall_1@[j] {
                    MachineCallArgument::Known(ex) => old(self).spec_eval_coeffs(
                        id->LookupFamily_0.left.expressions@[j],
                        row_offset,
                    ).len() == 0 && ex == old(self).spec_eval_offset(
                        id->LookupFamily_0.left.expressions@[j],
                        row_offset,
                    ),
                    MachineCallArgument::Unknown(a) => a.coefficients@ == old(
                        self,
                    ).spec_eval_coeffs(
                        id->LookupFamily_0.left.expressions@[j],
                        row_offset,
                    ) && a.offset == old(self).spec_eval_offset(
                        id->LookupFamily_0.left.expressions@[j],
                        row_offset,
                    ),
                },
            (id is LookupFamily && no_fixed(id->LookupFamily_0.left.selector) && (forall|i: int|
                0 <= i < id->LookupFamily_0.left.expressions@.len() ==> no_fixed(
                    #[trigger] id->LookupFamily_0.left.expressions@[i],
                ))) ==> complete == old(self).lookup_resolvable(
                id->LookupFamily_0.left,
                id->LookupFamily_0.right,
                row_offset,
            ),
            (id is Polynomial && no_fixed(id->Polynomial_0.expression)) ==> ({
                let ex = id->Polynomial_0.expression;
                let cs = old(self).spec_eval_coeffs(ex, row_offset);
                let off = old(self).spec_eval_offset(ex, row_offset);
                if old(self).spec_eval_ok(ex, row_offset) {
                    &&& complete == (cs.len() == 0 || (cs.len() == 1 && cs[0].1 is Concrete))
                    &&& (cs.len() == 0 && off == SymbolicExpression::Concrete(0)) ==> final(self).known_set() == old(self).known_set() && final(self).derived_map() == old(self).derived_map() && final(self).code_seq() == old(self).code_seq()
                    &&& (cs.len() == 0 && off != SymbolicExpression::Concrete(0)) ==> {
                        &&& final(self).known_set() == old(self).known_set()
                        &&& final(self).derived_map() == old(self).derived_map()
                        &&& final(self).code_seq().len() == old(self).code_seq().len() + 1
                        &&& final(self).code_seq().last() is Assertion
                        &&& final(self).code_seq().last()->Assertion_0.lhs == off
                        &&& final(self).code_seq().last()->Assertion_0.rhs
                            == SymbolicExpression::Concrete(0)
                        &&& final(self).code_seq().last()->Assertion_0.expected_equal
                    }
                    &&& (cs.len() == 1 && cs[0].1 is Concrete) ==> {
                        &&& final(self).known_set() == old(self).known_set().insert(cs[0].0)
                        &&& final(self).code_seq().len() == old(self).code_seq().len() + 1
                        &&& final(self).code_seq().last() is Assignment
                        &&& final(self).code_seq().last()->Assignment_0 == cs[0].0
                        &&& exists|ic: u64|
                            ic < GL_MODULUS && (cs[0].1->Concrete_0 as int * ic as int) % (
                            GL_MODULUS as int) == 1 && final(self).code_seq().last()->Assignment_1
                                == #[trigger] spec_sym_mul(
                                spec_sym_neg(off),
                                SymbolicExpression::Concrete(ic),
                            )
                    }
                    &&& !complete ==> final(self).known_set() == old(self).known_set() && final(self).derived_map() == old(self).derived_map() && final(self).code_seq() == old(self).code_seq()
                } else {
                    &&& !complete
                    &&& final(self).known_set() == old(self).known_set()
                    &&& final(self).derived_map() == old(self).derived_map()
                    &&& final(self).code_seq() == old(self).code_seq()
                }
            }),
    {
        let result = match id {
            Identity::Polynomial(p) => self.process_polynomial_identity(&p.expression, row_offset),
            Identity::LookupFamily(l) => self.process_lookup(l.id, &l.left, &l.right, row_offset),
            Identity::PhantomBusInteraction(_) => {
                return false;
            },
            Identity::Connect(_) => {
                return false;
            },
        };
        proof {
            if old(self).id_resolved(*id, row_offset) {
                assert(assertions_only(result.effects@));
            }
        }
        let ghost geff = result.effects@;
        let complete = result.complete;
        self.ingest_effects(result.effects);
        proof {
            if id is LookupFamily && complete {
                assert(geff.len() == 1);
                assert(ingest_one_transition(*old(self), geff[0], *self));
                assert(self.code_seq().last() == geff[0]);
            }
            if id is Polynomial && no_fixed(id->Polynomial_0.expression) {
                let ex = id->Polynomial_0.expression;
                let cs = old(self).spec_eval_coeffs(ex, row_offset);
                let off = old(self).spec_eval_offset(ex, row_offset);
                if old(self).spec_eval_ok(ex, row_offset) {
                    if cs.len() == 0 && off != SymbolicExpression::Concrete(0) {
                        assert(ingest_one_transition(*old(self), geff[0], *self));
                        assert(self.code_seq().last() == geff[0]);
                    }
                    if cs.len() == 1 && cs[0].1 is Concrete {
                        assert(ingest_one_transition(*old(self), geff[0], *self));
                        assert(self.code_seq().last() == geff[0]);
                        let ic = choose|ic: u64|
                            ic < GL_MODULUS && (cs[0].1->Concrete_0 as int * ic as int) % (
                            GL_MODULUS as int) == 1 && geff[0]->Assignment_1
                                == #[trigger] spec_sym_mul(
                                spec_sym_neg(off),
                                SymbolicExpression::Concrete(ic),
                            );
                        assert(self.code_seq().last()->Assignment_1 == spec_sym_mul(
                            spec_sym_neg(off),
                            SymbolicExpression::Concrete(ic),
                        ));
                    }
                }
            }
        }
        complete
    }
}

/// The generated code can be replayed top to bottom: every operand referenced
/// by an `Assignment` or `MachineCall` is already known at that point in the
/// sequence, counting the cells known at construction time.
pub proof fn lemma_code_executable<F: FixedEvaluator>(s: WitgenInference<F>)
    requires
        s.inv(),
    ensures
        executable(s.code_seq(), s.spec_initially_known()),
        writes_fresh(s.code_seq(), s.spec_initially_known()),
{
}

/// No cell ever receives more than one `Assignment` effect in the generated
/// code.
pub proof fn lemma_code_at_most_one_assignment<F: FixedEvaluator>(
    s: WitgenInference<F>,
    i: int,
    j: int,
)
    requires
        s.inv(),
        0 <= i < j < s.code_seq().len(),
        s.code_seq()[i] is Assignment,
        s.code_seq()[j] is Assignment,
    ensures
        s.code_seq()[i]->Assignment_0 != s.code_seq()[j]->Assignment_0,
{
    lemma_at_most_one_assignment(s.code_seq(), s.spec_initially_known(), i, j);
}

} // verus!
