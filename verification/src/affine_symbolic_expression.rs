//! Degree-1 symbolic expressions and the per-identity solver.
//!
//! An `AffineSymbolicExpression` is `offset + sum of coefficient_i * unknown_i`,
//! where the offset and the coefficients are symbolic values over known cells
//! and each unknown is a cell that is not yet determined. Expressions are
//! transient: they are built fresh for one evaluation and consumed by it.
//!
//! `solve` interprets an expression as "this quantity equals zero" and turns
//! it into effects: runtime operations over cells whose operands are known by
//! the time they execute.

use vstd::prelude::*;

use crate::cell::Cell;
use crate::field::{f_add, f_mul, f_neg, f_sub, fe_inv, is_fe, GL_MODULUS};
use crate::range_constraint::{rc_wf, RangeConstraint};
use crate::symbolic_expression::{
    env_ok, lemma_sym_eval_in_range, spec_sym_add, spec_sym_mul, spec_sym_neg, sym_add, sym_eval,
    sym_mentions, sym_mul, sym_neg, sym_wf, SymbolicExpression,
};

verus! {

pub struct AffineSymbolicExpression {
    /// The unknown terms: distinct cells, each with a symbolic coefficient
    /// that is never the literal zero constant.
    pub coefficients: Vec<(Cell, SymbolicExpression)>,
    /// The fully known part.
    pub offset: SymbolicExpression,
}

/// Coefficients are well-formed, none is the zero constant, and the unknown
/// cells are pairwise distinct.
pub open spec fn aff_wf(a: AffineSymbolicExpression) -> bool {
    &&& sym_wf(a.offset)
    &&& forall|i: int|
        0 <= i < a.coefficients@.len() ==> sym_wf(#[trigger] a.coefficients@[i].1)
    &&& forall|i: int|
        0 <= i < a.coefficients@.len() ==> (#[trigger] a.coefficients@[i]).1
            != SymbolicExpression::Concrete(0)
    &&& forall|i: int, j: int|
        0 <= i < j < a.coefficients@.len() ==> (#[trigger] a.coefficients@[i]).0
            != (#[trigger] a.coefficients@[j]).0
}

/// Some coefficient expression in the list reads cell `c`.
pub open spec fn coeffs_mention(s: Seq<(Cell, SymbolicExpression)>, c: Cell) -> bool {
    exists|i: int| 0 <= i < s.len() && sym_mentions((#[trigger] s[i]).1, c)
}

/// Cell `c` is a key of the coefficient list.
pub open spec fn coeffs_key(s: Seq<(Cell, SymbolicExpression)>, c: Cell) -> bool {
    exists|i: int| 0 <= i < s.len() && (#[trigger] s[i]).0 == c
}

/// The expression reads the value of cell `c` through a known symbol.
pub open spec fn aff_mentions(a: AffineSymbolicExpression, c: Cell) -> bool {
    sym_mentions(a.offset, c) || coeffs_mention(a.coefficients@, c)
}

/// Cell `c` is one of the expression's unknowns.
pub open spec fn aff_key(a: AffineSymbolicExpression, c: Cell) -> bool {
    coeffs_key(a.coefficients@, c)
}

/// How pushing one term changes the mention and key predicates.
proof fn lemma_coeffs_push(s: Seq<(Cell, SymbolicExpression)>, x: (Cell, SymbolicExpression))
    ensures
        forall|c: Cell| #[trigger]
            coeffs_mention(s.push(x), c) <==> coeffs_mention(s, c) || sym_mentions(x.1, c),
        forall|c: Cell| #[trigger] coeffs_key(s.push(x), c) <==> coeffs_key(s, c) || x.0 == c,
{
    assert forall|c: Cell| #[trigger]
        coeffs_mention(s.push(x), c) <==> coeffs_mention(s, c) || sym_mentions(x.1, c) by {
        if coeffs_mention(s.push(x), c) {
            let i = choose|i: int|
                0 <= i < s.push(x).len() && sym_mentions((#[trigger] s.push(x)[i]).1, c);
            if i < s.len() {
                assert(s.push(x)[i] == s[i]);
            } else {
                assert(s.push(x)[i] == x);
            }
        }
        if coeffs_mention(s, c) {
            let i = choose|i: int| 0 <= i < s.len() && sym_mentions((#[trigger] s[i]).1, c);
            assert(s.push(x)[i] == s[i]);
        }
        if sym_mentions(x.1, c) {
            assert(s.push(x)[s.len() as int] == x);
        }
    }
    assert forall|c: Cell| #[trigger]
        coeffs_key(s.push(x), c) <==> coeffs_key(s, c) || x.0 == c by {
        if coeffs_key(s.push(x), c) {
            let i = choose|i: int| 0 <= i < s.push(x).len() && (#[trigger] s.push(x)[i]).0 == c;
            if i < s.len() {
                assert(s.push(x)[i] == s[i]);
            } else {
                assert(s.push(x)[i] == x);
            }
        }
        if coeffs_key(s, c) {
            let i = choose|i: int| 0 <= i < s.len() && (#[trigger] s[i]).0 == c;
            assert(s.push(x)[i] == s[i]);
        }
        if x.0 == c {
            assert(s.push(x)[s.len() as int] == x);
        }
    }
}

/// How removing one term changes the mention and key predicates, and that it
/// keeps keys pairwise distinct.
proof fn lemma_coeffs_remove(s: Seq<(Cell, SymbolicExpression)>, i: int)
    requires
        0 <= i < s.len(),
    ensures
        forall|c: Cell| #[trigger] coeffs_mention(s.remove(i), c) ==> coeffs_mention(s, c),
        forall|c: Cell| #[trigger] coeffs_key(s.remove(i), c) ==> coeffs_key(s, c),
        forall|j: int|
            0 <= j < s.remove(i).len() ==> (#[trigger] s.remove(i)[j]) == s[j] || s.remove(i)[j]
                == s[j + 1],
        (forall|p: int, q: int|
            0 <= p < q < s.len() ==> (#[trigger] s[p]).0 != (#[trigger] s[q]).0) ==> (forall|
            p: int,
            q: int,
        |
            0 <= p < q < s.remove(i).len() ==> (#[trigger] s.remove(i)[p]).0 != (
            #[trigger] s.remove(i)[q]).0),
        (forall|p: int, q: int|
            0 <= p < q < s.len() ==> (#[trigger] s[p]).0 != (#[trigger] s[q]).0)
            ==> !coeffs_key(s.remove(i), s[i].0),
{
    s.remove_ensures(i);
    assert forall|c: Cell| #[trigger] coeffs_mention(s.remove(i), c) implies coeffs_mention(
        s,
        c,
    ) by {
        let j = choose|j: int|
            0 <= j < s.remove(i).len() && sym_mentions((#[trigger] s.remove(i)[j]).1, c);
        if j < i {
            assert(s.remove(i)[j] == s[j]);
        } else {
            assert(s.remove(i)[j] == s[j + 1]);
        }
    }
    assert forall|c: Cell| #[trigger] coeffs_key(s.remove(i), c) implies coeffs_key(s, c) by {
        let j = choose|j: int|
            0 <= j < s.remove(i).len() && (#[trigger] s.remove(i)[j]).0 == c;
        if j < i {
            assert(s.remove(i)[j] == s[j]);
        } else {
            assert(s.remove(i)[j] == s[j + 1]);
        }
    }
    if forall|p: int, q: int|
        0 <= p < q < s.len() ==> (#[trigger] s[p]).0 != (#[trigger] s[q]).0 {
        if coeffs_key(s.remove(i), s[i].0) {
            let j = choose|j: int|
                0 <= j < s.remove(i).len() && (#[trigger] s.remove(i)[j]).0 == s[i].0;
            if j < i {
                assert(s.remove(i)[j] == s[j]);
                assert(s[j].0 != s[i].0);
            } else {
                assert(s.remove(i)[j] == s[j + 1]);
                assert(s[i].0 != s[j + 1].0);
            }
        }
    }
}

/// The expression was evaluated against the knowledge set `k`: every symbol
/// it reads is known, and every unknown term is an unknown cell.
pub open spec fn aff_evaluated_for(a: AffineSymbolicExpression, k: Set<Cell>) -> bool {
    &&& forall|c: Cell| #[trigger] aff_mentions(a, c) ==> k.contains(c)
    &&& forall|c: Cell| #[trigger] aff_key(a, c) ==> !k.contains(c)
}

/// A runtime check that two known quantities must (or must not) be equal.
pub struct Assertion {
    pub lhs: SymbolicExpression,
    pub rhs: SymbolicExpression,
    pub expected_equal: bool,
}

/// One positional argument of a machine call: either a fully known value, or
/// a single-unknown expression whose value the callee supplies.
pub enum MachineCallArgument {
    Known(SymbolicExpression),
    Unknown(AffineSymbolicExpression),
}

/// One unit of generated runtime behaviour.
pub enum Effect {
    /// The cell's value is exactly the known expression.
    Assignment(Cell, SymbolicExpression),
    /// A tighter bound discovered for a still-unknown cell.
    RangeConstraint(Cell, RangeConstraint),
    /// A consistency check between two known quantities.
    Assertion(Assertion),
    /// Invocation of an external relation with a positional argument list.
    MachineCall(u64, Vec<MachineCallArgument>),
}

/// The outcome of processing one identity on one row. `complete` means the
/// pair need never be revisited.
pub struct ProcessResult {
    pub effects: Vec<Effect>,
    pub complete: bool,
}

/// Every cell the expression reads lies in `k`.
pub open spec fn sym_reads_ok(e: SymbolicExpression, k: Set<Cell>) -> bool {
    forall|c: Cell| #[trigger] sym_mentions(e, c) ==> k.contains(c)
}

pub open spec fn arg_reads_ok(arg: MachineCallArgument, k: Set<Cell>) -> bool {
    match arg {
        MachineCallArgument::Known(e) => sym_reads_ok(e, k),
        MachineCallArgument::Unknown(a) => forall|c: Cell|
            #[trigger] aff_mentions(a, c) ==> k.contains(c),
    }
}

/// Every operand the effect reads is known when the set of known cells is `k`.
pub open spec fn effect_reads_ok(e: Effect, k: Set<Cell>) -> bool {
    match e {
        Effect::Assignment(_, ex) => sym_reads_ok(ex, k),
        Effect::MachineCall(_, args) => forall|i: int|
            0 <= i < args@.len() ==> arg_reads_ok(#[trigger] args@[i], k),
        _ => true,
    }
}

/// The unknown cells of a coefficient list, as a set.
pub open spec fn keys_set(s: Seq<(Cell, SymbolicExpression)>) -> Set<Cell>
    decreases s.len(),
{
    if s.len() == 0 {
        Set::empty()
    } else {
        keys_set(s.drop_last()).insert(s.last().0)
    }
}

pub open spec fn arg_writes(arg: MachineCallArgument) -> Set<Cell> {
    match arg {
        MachineCallArgument::Known(_) => Set::empty(),
        MachineCallArgument::Unknown(a) => keys_set(a.coefficients@),
    }
}

pub open spec fn args_writes(s: Seq<MachineCallArgument>) -> Set<Cell>
    decreases s.len(),
{
    if s.len() == 0 {
        Set::empty()
    } else {
        args_writes(s.drop_last()).union(arg_writes(s.last()))
    }
}

/// The cells the effect makes known when it executes.
pub open spec fn effect_writes(e: Effect) -> Set<Cell> {
    match e {
        Effect::Assignment(c, _) => Set::empty().insert(c),
        Effect::MachineCall(_, args) => args_writes(args@),
        _ => Set::empty(),
    }
}

/// The effect may be folded into a knowledge base whose known cells are `k`:
/// its operands are known, the cells it determines are fresh, and its payload
/// is well-formed.
pub open spec fn effect_ingestible(e: Effect, k: Set<Cell>) -> bool {
    &&& effect_reads_ok(e, k)
    &&& effect_writes(e).disjoint(k)
    &&& match e {
        Effect::Assignment(_, ex) => sym_wf(ex),
        Effect::RangeConstraint(_, rc) => rc_wf(rc),
        Effect::Assertion(_) => true,
        Effect::MachineCall(_, args) => forall|i: int|
            0 <= i < args@.len() ==> match #[trigger] args@[i] {
                MachineCallArgument::Known(ex) => sym_wf(ex),
                MachineCallArgument::Unknown(a) => aff_wf(a) && a.coefficients@.len() == 1,
            },
    }
}

/// Each effect in turn is ingestible, counting the cells earlier effects
/// determine as known.
pub open spec fn effects_ok(effects: Seq<Effect>, k: Set<Cell>) -> bool
    decreases effects.len(),
{
    effects.len() == 0 || (effect_ingestible(effects.first(), k) && effects_ok(
        effects.drop_first(),
        k.union(effect_writes(effects.first())),
    ))
}

/// The cells known after replaying `code` on top of the initially known set.
pub open spec fn replay_known(code: Seq<Effect>, init: Set<Cell>) -> Set<Cell>
    decreases code.len(),
{
    if code.len() == 0 {
        init
    } else {
        replay_known(code.drop_last(), init).union(effect_writes(code.last()))
    }
}

/// Replaying `code` top to bottom, every operand referenced by an effect is
/// already known at that point in the sequence.
pub open spec fn executable(code: Seq<Effect>, init: Set<Cell>) -> bool
    decreases code.len(),
{
    code.len() == 0 || (executable(code.drop_last(), init) && effect_reads_ok(
        code.last(),
        replay_known(code.drop_last(), init),
    ))
}

/// Every effect determines only cells that were not known before it.
pub open spec fn writes_fresh(code: Seq<Effect>, init: Set<Cell>) -> bool
    decreases code.len(),
{
    code.len() == 0 || (writes_fresh(code.drop_last(), init) && effect_writes(
        code.last(),
    ).disjoint(replay_known(code.drop_last(), init)))
}

/// Every effect in the sequence is an `Assertion`: folding them into a
/// knowledge base changes no knowledge, only appends runtime checks.
pub open spec fn assertions_only(effects: Seq<Effect>) -> bool {
    forall|i: int| 0 <= i < effects.len() ==> effects[i] is Assertion
}

/// No effect that refines the range of a cell is followed by an effect that
/// determines that same cell: range refinement may promote its cell to known,
/// and a later effect may not assume it is still unknown.
pub open spec fn rc_targets_not_rewritten(effects: Seq<Effect>) -> bool
    decreases effects.len(),
{
    effects.len() == 0 || ((match effects.first() {
        Effect::RangeConstraint(c, _) => forall|j: int|
            1 <= j < effects.len() ==> !effect_writes(#[trigger] effects[j]).contains(c),
        _ => true,
    }) && rc_targets_not_rewritten(effects.drop_first()))
}

/// Membership in `keys_set` coincides with the key predicate.
pub proof fn lemma_keys_set_is_keys(s: Seq<(Cell, SymbolicExpression)>)
    ensures
        forall|c: Cell| #[trigger] keys_set(s).contains(c) <==> coeffs_key(s, c),
    decreases s.len(),
{
    if s.len() > 0 {
        let sd = s.drop_last();
        lemma_keys_set_is_keys(sd);
        assert(keys_set(s) == keys_set(sd).insert(s.last().0));
        assert forall|c: Cell| #[trigger] keys_set(s).contains(c) <==> coeffs_key(s, c) by {
            if keys_set(s).contains(c) {
                if c == s.last().0 {
                    assert((#[trigger] s[s.len() - 1]).0 == c);
                } else {
                    assert(keys_set(sd).contains(c));
                    assert(coeffs_key(sd, c));
                    let j = choose|j: int| 0 <= j < sd.len() && (#[trigger] sd[j]).0 == c;
                    assert(sd[j] == s[j]);
                    assert((s[j]).0 == c);
                }
            }
            if coeffs_key(s, c) {
                let i = choose|i: int| 0 <= i < s.len() && (#[trigger] s[i]).0 == c;
                if i < s.len() - 1 {
                    assert(sd[i] == s[i]);
                    assert(coeffs_key(sd, c));
                    assert(keys_set(sd).contains(c));
                } else {
                    assert(c == s.last().0);
                }
            }
        }
    }
}

/// Membership in the writes of an argument list.
pub proof fn lemma_args_writes_member(s: Seq<MachineCallArgument>)
    ensures
        forall|c: Cell|
            #[trigger] args_writes(s).contains(c) <==> exists|i: int|
                0 <= i < s.len() && #[trigger] arg_writes(s[i]).contains(c),
    decreases s.len(),
{
    if s.len() > 0 {
        let sd = s.drop_last();
        lemma_args_writes_member(sd);
        assert(args_writes(s) == args_writes(sd).union(arg_writes(s.last())));
        assert forall|c: Cell| #[trigger]
            args_writes(s).contains(c) <==> exists|i: int|
                0 <= i < s.len() && #[trigger] arg_writes(s[i]).contains(c) by {
            if args_writes(s).contains(c) {
                if arg_writes(s.last()).contains(c) {
                    assert(arg_writes(s[s.len() - 1]).contains(c));
                } else {
                    assert(args_writes(sd).contains(c));
                    let i = choose|i: int|
                        0 <= i < sd.len() && #[trigger] arg_writes(sd[i]).contains(c);
                    assert(sd[i] == s[i]);
                    assert(arg_writes(s[i]).contains(c));
                }
            }
            if exists|i: int| 0 <= i < s.len() && #[trigger] arg_writes(s[i]).contains(c) {
                let i = choose|i: int| 0 <= i < s.len() && #[trigger] arg_writes(s[i]).contains(c);
                if i < s.len() - 1 {
                    assert(sd[i] == s[i]);
                    assert(arg_writes(sd[i]).contains(c));
                    assert(args_writes(sd).contains(c));
                } else {
                    assert(arg_writes(s.last()).contains(c));
                }
            }
        }
    }
}

/// A larger knowledge set never invalidates an effect's reads.
pub proof fn lemma_reads_ok_monotone(e: Effect, k: Set<Cell>, k2: Set<Cell>)
    requires
        effect_reads_ok(e, k),
        k.subset_of(k2),
    ensures
        effect_reads_ok(e, k2),
{
    match e {
        Effect::Assignment(_, ex) => {
            assert forall|c: Cell| #[trigger] sym_mentions(ex, c) implies k2.contains(c) by {}
        },
        Effect::MachineCall(_, args) => {
            assert forall|i: int| 0 <= i < args@.len() implies arg_reads_ok(
                #[trigger] args@[i],
                k2,
            ) by {
                match args@[i] {
                    MachineCallArgument::Known(ex) => {
                        assert(sym_reads_ok(ex, k));
                        assert forall|c: Cell| #[trigger]
                            sym_mentions(ex, c) implies k2.contains(c) by {}
                    },
                    MachineCallArgument::Unknown(a) => {
                        assert(arg_reads_ok(args@[i], k));
                        assert forall|c: Cell| #[trigger]
                            aff_mentions(a, c) implies k2.contains(c) by {}
                    },
                }
            }
        },
        _ => {},
    }
}

/// Growing the knowledge set by a cell that no effect determines preserves
/// `effects_ok`.
pub proof fn lemma_effects_ok_grow(effects: Seq<Effect>, k: Set<Cell>, c: Cell)
    requires
        effects_ok(effects, k),
        forall|j: int| 0 <= j < effects.len() ==> !effect_writes(#[trigger] effects[j]).contains(c),
    ensures
        effects_ok(effects, k.insert(c)),
    decreases effects.len(),
{
    if effects.len() > 0 {
        let e = effects.first();
        assert(effects[0] == e);
        lemma_reads_ok_monotone(e, k, k.insert(c));
        assert(effect_writes(e).disjoint(k.insert(c))) by {
            assert forall|x: Cell|
                effect_writes(e).contains(x) implies !k.insert(c).contains(x) by {
                assert(!effect_writes(effects[0]).contains(c));
            }
        }
        assert(effect_ingestible(e, k.insert(c)));
        assert forall|j: int|
            0 <= j < effects.drop_first().len() implies !effect_writes(
            #[trigger] effects.drop_first()[j],
        ).contains(c) by {
            assert(effects.drop_first()[j] == effects[j + 1]);
        }
        lemma_effects_ok_grow(effects.drop_first(), k.union(effect_writes(e)), c);
        assert(k.union(effect_writes(e)).insert(c) =~= k.insert(c).union(effect_writes(e)));
    }
}

/// What an effect writes stays written: writes of any element are contained
/// in the replay of the whole sequence.
pub proof fn lemma_writes_subset_replay(code: Seq<Effect>, init: Set<Cell>, i: int)
    requires
        0 <= i < code.len(),
    ensures
        effect_writes(code[i]).subset_of(replay_known(code, init)),
    decreases code.len(),
{
    if i == code.len() - 1 {
        assert(code.last() == code[i]);
    } else {
        lemma_writes_subset_replay(code.drop_last(), init, i);
        assert(code.drop_last()[i] == code[i]);
    }
}

/// Replay only grows the knowledge set.
pub proof fn lemma_replay_superset(code: Seq<Effect>, init: Set<Cell>)
    ensures
        init.subset_of(replay_known(code, init)),
    decreases code.len(),
{
    if code.len() > 0 {
        lemma_replay_superset(code.drop_last(), init);
    }
}

/// Under freshness, two distinct effects never determine the same cell; in
/// particular no cell receives more than one `Assignment`.
pub proof fn lemma_fresh_writes_disjoint(code: Seq<Effect>, init: Set<Cell>, i: int, j: int)
    requires
        writes_fresh(code, init),
        0 <= i < j < code.len(),
    ensures
        effect_writes(code[i]).disjoint(effect_writes(code[j])),
    decreases code.len(),
{
    if j == code.len() - 1 {
        lemma_writes_subset_replay(code.drop_last(), init, i);
        assert(code.drop_last()[i] == code[i]);
        assert forall|c: Cell|
            effect_writes(code[i]).contains(c) implies !effect_writes(code[j]).contains(c) by {
            assert(replay_known(code.drop_last(), init).contains(c));
        }
    } else {
        lemma_fresh_writes_disjoint(code.drop_last(), init, i, j);
        assert(code.drop_last()[i] == code[i]);
        assert(code.drop_last()[j] == code[j]);
    }
}

/// No cell ever receives more than one `Assignment` effect in a sequence
/// whose writes are fresh.
pub proof fn lemma_at_most_one_assignment(code: Seq<Effect>, init: Set<Cell>, i: int, j: int)
    requires
        writes_fresh(code, init),
        0 <= i < j < code.len(),
        code[i] is Assignment,
        code[j] is Assignment,
    ensures
        code[i]->Assignment_0 != code[j]->Assignment_0,
{
    lemma_fresh_writes_disjoint(code, init, i, j);
    assert(effect_writes(code[i]).contains(code[i]->Assignment_0));
    assert(effect_writes(code[j]).contains(code[j]->Assignment_0));
}

impl AffineSymbolicExpression {
    /// A fully known constant.
    pub fn from_number(v: u64) -> (r: AffineSymbolicExpression)
        requires
            is_fe(v),
        ensures
            aff_wf(r),
            r.coefficients@.len() == 0,
            r.offset == SymbolicExpression::Concrete(v),
            forall|c: Cell| !aff_mentions(r, c),
            forall|c: Cell| !aff_key(r, c),
    {
        AffineSymbolicExpression {
            coefficients: Vec::new(),
            offset: SymbolicExpression::Concrete(v),
        }
    }

    /// A fully known but symbolic value: the cell is known, its concrete
    /// value is supplied at execution time.
    pub fn from_known_symbol(cell: Cell) -> (r: AffineSymbolicExpression)
        ensures
            aff_wf(r),
            r.coefficients@.len() == 0,
            r.offset == SymbolicExpression::Symbol(cell),
            forall|c: Cell| #[trigger] aff_mentions(r, c) <==> c == cell,
            forall|c: Cell| !aff_key(r, c),
    {
        AffineSymbolicExpression {
            coefficients: Vec::new(),
            offset: SymbolicExpression::Symbol(cell),
        }
    }

    /// A genuine unknown with coefficient one.
    pub fn from_unknown_variable(cell: Cell) -> (r: AffineSymbolicExpression)
        ensures
            aff_wf(r),
            r.coefficients@.len() == 1,
            r.coefficients@[0].0 == cell,
            r.coefficients@[0].1 == SymbolicExpression::Concrete(1),
            r.offset == SymbolicExpression::Concrete(0),
            forall|c: Cell| !aff_mentions(r, c),
            forall|c: Cell| #[trigger] aff_key(r, c) <==> c == cell,
    {
        let mut coefficients: Vec<(Cell, SymbolicExpression)> = Vec::new();
        coefficients.push((cell, SymbolicExpression::Concrete(1)));
        let r = AffineSymbolicExpression { coefficients, offset: SymbolicExpression::Concrete(0) };
        assert forall|c: Cell| #[trigger] aff_key(r, c) <==> c == cell by {
            if c == cell {
                assert(r.coefficients@[0].0 == c);
            }
        }
        r
    }

    /// The fully known view, if no unknown terms remain.
    pub fn try_to_known(&self) -> (r: Option<&SymbolicExpression>)
        ensures
            r is Some <==> self.coefficients@.len() == 0,
            r is Some ==> *r->0 == self.offset,
    {
        if self.coefficients.len() == 0 {
            Some(&self.offset)
        } else {
            None
        }
    }

    /// The lone unknown cell, iff exactly one distinct unknown term exists.
    pub fn single_unknown_variable(&self) -> (r: Option<Cell>)
        ensures
            r is Some <==> self.coefficients@.len() == 1,
            r is Some ==> r->0 == self.coefficients@[0].0,
    {
        if self.coefficients.len() == 1 {
            Some(self.coefficients[0].0)
        } else {
            None
        }
    }
}


/// The first index bound to key `c` in a coefficient list, if any.
pub open spec fn spec_find_key(s: Seq<(Cell, SymbolicExpression)>, c: Cell) -> Option<int>
    decreases s.len(),
{
    if s.len() == 0 {
        None
    } else if s[0].0 == c {
        Some(0)
    } else {
        match spec_find_key(s.drop_first(), c) {
            Some(i) => Some(i + 1),
            None => None,
        }
    }
}

/// `spec_find_key` finds exactly the first match.
pub proof fn lemma_spec_find_key(s: Seq<(Cell, SymbolicExpression)>, c: Cell)
    ensures
        match spec_find_key(s, c) {
            Some(i) => 0 <= i < s.len() && s[i].0 == c && forall|j: int|
                0 <= j < i ==> (#[trigger] s[j]).0 != c,
            None => forall|j: int| 0 <= j < s.len() ==> (#[trigger] s[j]).0 != c,
        },
    decreases s.len(),
{
    if s.len() > 0 && s[0].0 != c {
        let sd = s.drop_first();
        lemma_spec_find_key(sd, c);
        match spec_find_key(sd, c) {
            Some(i) => {
                assert(sd[i] == s[i + 1]);
                assert forall|j: int|
                    0 <= j < i + 1 implies (#[trigger] s[j]).0 != c by {
                    if j > 0 {
                        assert(sd[j - 1] == s[j]);
                    }
                }
            },
            None => {
                assert forall|j: int|
                    0 <= j < s.len() implies (#[trigger] s[j]).0 != c by {
                    if j > 0 {
                        assert(sd[j - 1] == s[j]);
                    }
                }
            },
        }
    }
}

/// How one term of the second operand merges into an accumulated coefficient
/// list: combined with the matching term if there is one (dropping the term
/// when the coefficients cancel), appended otherwise.
pub open spec fn spec_merge_step(
    acc: Seq<(Cell, SymbolicExpression)>,
    c: Cell,
    e: SymbolicExpression,
) -> Seq<(Cell, SymbolicExpression)> {
    match spec_find_key(acc, c) {
        Some(i) => {
            let ne = spec_sym_add(acc[i].1, e);
            if ne == SymbolicExpression::Concrete(0) {
                acc.remove(i)
            } else {
                acc.remove(i).push((c, ne))
            }
        },
        None => acc.push((c, e)),
    }
}

/// The coefficient list of a sum of affine expressions: the terms of `rest`
/// merged into `acc`, last first.
pub open spec fn spec_merge(
    acc: Seq<(Cell, SymbolicExpression)>,
    rest: Seq<(Cell, SymbolicExpression)>,
) -> Seq<(Cell, SymbolicExpression)>
    decreases rest.len(),
{
    if rest.len() == 0 {
        acc
    } else {
        spec_merge(spec_merge_step(acc, rest.last().0, rest.last().1), rest.drop_last())
    }
}

/// The coefficient list of a negated affine expression: each coefficient
/// negated, last term first, terms that cancel to zero dropped.
pub open spec fn spec_neg_coeffs(s: Seq<(Cell, SymbolicExpression)>) -> Seq<
    (Cell, SymbolicExpression),
>
    decreases s.len(),
{
    if s.len() == 0 {
        Seq::empty()
    } else {
        let ne = spec_sym_neg(s.last().1);
        (if ne == SymbolicExpression::Concrete(0) {
            Seq::<(Cell, SymbolicExpression)>::empty()
        } else {
            seq![(s.last().0, ne)]
        }) + spec_neg_coeffs(s.drop_last())
    }
}

/// The coefficient list of an affine expression scaled by the known value
/// `k`: each coefficient multiplied by `k`, last term first, terms that
/// collapse to zero dropped.
pub open spec fn spec_scale_coeffs(
    s: Seq<(Cell, SymbolicExpression)>,
    k: SymbolicExpression,
) -> Seq<(Cell, SymbolicExpression)>
    decreases s.len(),
{
    if s.len() == 0 {
        Seq::empty()
    } else {
        let ne = spec_sym_mul(s.last().1, k);
        (if ne == SymbolicExpression::Concrete(0) {
            Seq::<(Cell, SymbolicExpression)>::empty()
        } else {
            seq![(s.last().0, ne)]
        }) + spec_scale_coeffs(s.drop_last(), k)
    }
}

impl AffineSymbolicExpression {
    /// Unary negation: negates the offset and every coefficient termwise.
    pub fn neg(self) -> (r: AffineSymbolicExpression)
        requires
            aff_wf(self),
        ensures
            aff_wf(r),
            r.offset == spec_sym_neg(self.offset),
            r.coefficients@ == spec_neg_coeffs(self.coefficients@),
            forall|c: Cell| #[trigger] aff_mentions(r, c) ==> aff_mentions(self, c),
            forall|c: Cell| #[trigger] aff_key(r, c) ==> aff_key(self, c),
            self.coefficients@.len() == 0 ==> r.coefficients@.len() == 0,
            forall|env: spec_fn(Cell) -> int|
                env_ok(env) ==> #[trigger] sym_eval(r.offset, env) == f_neg(
                    sym_eval(self.offset, env),
                ),
    {
        let AffineSymbolicExpression { coefficients: mut cs, offset } = self;
        let ghost g = cs@;
        let offset = sym_neg(offset);
        let mut out: Vec<(Cell, SymbolicExpression)> = Vec::new();
        proof {
            assert(out@ + spec_neg_coeffs(cs@) =~= spec_neg_coeffs(g));
        }
        while cs.len() > 0
            invariant
                cs@ == g.take(cs@.len() as int),
                cs@.len() <= g.len(),
                out@.len() + cs@.len() <= g.len(),
                out@ + spec_neg_coeffs(cs@) == spec_neg_coeffs(g),
                forall|i: int| 0 <= i < g.len() ==> sym_wf((#[trigger] g[i]).1),
                forall|p: int, q: int|
                    0 <= p < q < g.len() ==> (#[trigger] g[p]).0 != (#[trigger] g[q]).0,
                forall|i: int|
                    0 <= i < out@.len() ==> sym_wf((#[trigger] out@[i]).1) && out@[i].1
                        != SymbolicExpression::Concrete(0),
                forall|p: int, q: int|
                    0 <= p < q < out@.len() ==> (#[trigger] out@[p]).0 != (#[trigger] out@[q]).0,
                forall|c: Cell|
                    #[trigger] coeffs_key(out@, c) ==> coeffs_key(g, c) && !coeffs_key(
                        g.take(cs@.len() as int),
                        c,
                    ),
                forall|c: Cell| #[trigger] coeffs_mention(out@, c) ==> coeffs_mention(g, c),
            decreases cs@.len(),
        {
            let ghost n = cs@.len() as int;
            let (c, e) = cs.pop().unwrap();
            proof {
                assert(g.take(n)[n - 1] == g[n - 1]);
                assert((c, e) == g[n - 1]);
                assert(cs@ =~= g.take(n - 1));
            }
            let ne = sym_neg(e);
            proof {
                assert(g.take(n).last() == g[n - 1]);
                assert(g.take(n).drop_last() =~= g.take(n - 1));
                assert(spec_neg_coeffs(g.take(n)) == (if spec_sym_neg(e)
                    == SymbolicExpression::Concrete(0) {
                    Seq::<(Cell, SymbolicExpression)>::empty()
                } else {
                    seq![(c, spec_sym_neg(e))]
                }) + spec_neg_coeffs(g.take(n - 1)));
            }
            let mut skip: bool = false;
            if let Some(v) = ne.try_to_number() {
                if v == 0 {
                    skip = true;
                }
            }
            if !skip {
                proof {
                    assert(out@.push((c, ne)) + spec_neg_coeffs(g.take(n - 1)) =~= out@ + (seq![
                        (c, ne),
                    ] + spec_neg_coeffs(g.take(n - 1))));
                    lemma_coeffs_push(out@, (c, ne));
                    if coeffs_key(out@, c) {
                        assert(g.take(n)[n - 1] == g[n - 1]);
                        assert(coeffs_key(g.take(n), c));
                    }
                    assert forall|c2: Cell| #[trigger]
                        coeffs_key(out@.push((c, ne)), c2) implies coeffs_key(g, c2)
                        && !coeffs_key(g.take(n - 1), c2) by {
                        if coeffs_key(out@, c2) {
                            if coeffs_key(g.take(n - 1), c2) {
                                let j = choose|j: int|
                                    0 <= j < g.take(n - 1).len() && (#[trigger] g.take(n - 1)[j]).0
                                        == c2;
                                assert(g.take(n)[j] == g[j]);
                                assert(coeffs_key(g.take(n), c2));
                            }
                        } else {
                            assert(c2 == c);
                            let i = choose|i: int| 0 <= i < g.len() && (#[trigger] g[i]).0 == c;
                            if coeffs_key(g.take(n - 1), c) {
                                let j = choose|j: int|
                                    0 <= j < n - 1 && (#[trigger] g.take(n - 1)[j]).0 == c;
                                assert(g.take(n - 1)[j] == g[j]);
                                assert(g[j].0 == g[n - 1].0);
                            }
                        }
                    }
                    assert forall|c2: Cell| #[trigger]
                        coeffs_mention(out@.push((c, ne)), c2) implies coeffs_mention(g, c2) by {
                        if !coeffs_mention(out@, c2) {
                            assert(sym_mentions(ne, c2));
                            assert(sym_mentions(e, c2));
                            assert(g[n - 1].1 == e);
                            assert(coeffs_mention(g, c2));
                        }
                    }
                }
                out.push((c, ne));
            } else {
                proof {
                    assert(out@ + spec_neg_coeffs(g.take(n - 1)) =~= out@ + (Seq::<
                        (Cell, SymbolicExpression),
                    >::empty() + spec_neg_coeffs(g.take(n - 1))));
                }
                proof {
                    assert forall|c2: Cell| #[trigger]
                        coeffs_key(out@, c2) implies coeffs_key(g, c2) && !coeffs_key(
                        g.take(n - 1),
                        c2,
                    ) by {
                        if coeffs_key(g.take(n - 1), c2) {
                            let j = choose|j: int|
                                0 <= j < n - 1 && (#[trigger] g.take(n - 1)[j]).0 == c2;
                            assert(g.take(n - 1)[j] == g[j]);
                            assert(g.take(n)[j] == g[j]);
                            assert(coeffs_key(g.take(n), c2));
                        }
                    }
                }
            }
        }
        let r = AffineSymbolicExpression { coefficients: out, offset };
        proof {
            assert(g.take(0) =~= Seq::<(Cell, SymbolicExpression)>::empty());
            assert(out@ + spec_neg_coeffs(Seq::<(Cell, SymbolicExpression)>::empty()) =~= out@);
            assert forall|c: Cell| #[trigger] aff_key(r, c) implies aff_key(self, c) by {}
        }
        r
    }
}

impl AffineSymbolicExpression {
    /// Addition: combines the offsets and the per-unknown coefficients
    /// termwise, dropping a term whose coefficient cancels to zero.
    pub fn add(self, other: AffineSymbolicExpression) -> (r: AffineSymbolicExpression)
        requires
            aff_wf(self),
            aff_wf(other),
        ensures
            aff_wf(r),
            r.offset == spec_sym_add(self.offset, other.offset),
            r.coefficients@ == spec_merge(self.coefficients@, other.coefficients@),
            forall|c: Cell|
                #[trigger] aff_mentions(r, c) ==> aff_mentions(self, c) || aff_mentions(other, c),
            forall|c: Cell| #[trigger] aff_key(r, c) ==> aff_key(self, c) || aff_key(other, c),
            self.coefficients@.len() == 0 && other.coefficients@.len() == 0
                ==> r.coefficients@.len() == 0,
            forall|env: spec_fn(Cell) -> int|
                env_ok(env) ==> #[trigger] sym_eval(r.offset, env) == f_add(
                    sym_eval(self.offset, env),
                    sym_eval(other.offset, env),
                ),
    {
        let AffineSymbolicExpression { coefficients: mut acc, offset: aoff } = self;
        let AffineSymbolicExpression { coefficients: mut rest, offset: boff } = other;
        let ghost ga = acc@;
        let ghost gb = rest@;
        let offset = sym_add(aoff, boff);
        while rest.len() > 0
            invariant
                rest@ == gb.take(rest@.len() as int),
                rest@.len() <= gb.len(),
                acc@.len() + rest@.len() <= ga.len() + gb.len(),
                forall|i: int| 0 <= i < gb.len() ==> sym_wf((#[trigger] gb[i]).1),
                forall|i: int|
                    0 <= i < gb.len() ==> (#[trigger] gb[i]).1 != SymbolicExpression::Concrete(0),
                forall|i: int|
                    0 <= i < acc@.len() ==> sym_wf((#[trigger] acc@[i]).1) && acc@[i].1
                        != SymbolicExpression::Concrete(0),
                forall|p: int, q: int|
                    0 <= p < q < acc@.len() ==> (#[trigger] acc@[p]).0 != (#[trigger] acc@[q]).0,
                forall|c: Cell|
                    #[trigger] coeffs_key(acc@, c) ==> coeffs_key(ga, c) || coeffs_key(gb, c),
                forall|c: Cell|
                    #[trigger] coeffs_mention(acc@, c) ==> coeffs_mention(ga, c) || coeffs_mention(
                        gb,
                        c,
                    ),
                spec_merge(acc@, rest@) == spec_merge(ga, gb),
            decreases rest@.len(),
        {
            let ghost n = rest@.len() as int;
            let ghost rest0 = rest@;
            let (c, e) = rest.pop().unwrap();
            proof {
                assert(gb.take(n)[n - 1] == gb[n - 1]);
                assert((c, e) == gb[n - 1]);
                assert(rest@ =~= gb.take(n - 1));
                assert(rest0.last() == (c, e));
                assert(rest0.drop_last() =~= rest@);
                assert(coeffs_key(gb, c));
            }
            let ghost acc0 = acc@;
            match find_key(&acc, c) {
                Some(i) => {
                    let (c2, e2) = acc.remove(i);
                    proof {
                        lemma_coeffs_remove(acc0, i as int);
                        assert(e2 == acc0[i as int].1);
                    }
                    let ne = sym_add(e2, e);
                    let mut skip: bool = false;
                    if let Some(v) = ne.try_to_number() {
                        if v == 0 {
                            skip = true;
                        }
                    }
                    if !skip {
                        proof {
                            lemma_coeffs_push(acc@, (c, ne));
                        }
                        acc.push((c, ne));
                    }
                    proof {
                        assert(acc@ == spec_merge_step(acc0, c, e));
                    }
                },
                None => {
                    proof {
                        lemma_coeffs_push(acc@, (c, e));
                        if coeffs_key(acc@, c) {
                            let j = choose|j: int|
                                0 <= j < acc@.len() && (#[trigger] acc@[j]).0 == c;
                        }
                    }
                    acc.push((c, e));
                    proof {
                        assert(acc@ == spec_merge_step(acc0, c, e));
                    }
                },
            }
            proof {
                assert(spec_merge(acc0, rest0) == spec_merge(
                    spec_merge_step(acc0, c, e),
                    rest0.drop_last(),
                ));
                assert(spec_merge(acc@, rest@) == spec_merge(ga, gb));
            }
        }
        proof {
            assert(spec_merge(acc@, rest@) == acc@);
        }
        AffineSymbolicExpression { coefficients: acc, offset }
    }

    /// Subtraction, as addition of the negation.
    pub fn sub(self, other: AffineSymbolicExpression) -> (r: AffineSymbolicExpression)
        requires
            aff_wf(self),
            aff_wf(other),
        ensures
            aff_wf(r),
            r.offset == spec_sym_add(self.offset, spec_sym_neg(other.offset)),
            r.coefficients@ == spec_merge(
                self.coefficients@,
                spec_neg_coeffs(other.coefficients@),
            ),
            forall|c: Cell|
                #[trigger] aff_mentions(r, c) ==> aff_mentions(self, c) || aff_mentions(other, c),
            forall|c: Cell| #[trigger] aff_key(r, c) ==> aff_key(self, c) || aff_key(other, c),
            self.coefficients@.len() == 0 && other.coefficients@.len() == 0
                ==> r.coefficients@.len() == 0,
            forall|env: spec_fn(Cell) -> int|
                env_ok(env) ==> #[trigger] sym_eval(r.offset, env) == f_sub(
                    sym_eval(self.offset, env),
                    sym_eval(other.offset, env),
                ),
    {
        let ghost so = self.offset;
        let ghost oo = other.offset;
        let negated = other.neg();
        let r = self.add(negated);
        assert forall|env: spec_fn(Cell) -> int| env_ok(env) implies #[trigger] sym_eval(
            r.offset,
            env,
        ) == f_sub(sym_eval(so, env), sym_eval(oo, env)) by {
            vstd::arithmetic::div_mod::lemma_add_mod_noop_right(
                sym_eval(so, env),
                0 - sym_eval(oo, env),
                GL_MODULUS as int,
            );
        }
        r
    }

    /// Multiplication by a fully known value, distributed over the offset and
    /// every coefficient; a term whose coefficient collapses to zero is
    /// dropped.
    pub fn mul_known(self, k: SymbolicExpression) -> (r: AffineSymbolicExpression)
        requires
            aff_wf(self),
            sym_wf(k),
        ensures
            aff_wf(r),
            r.offset == spec_sym_mul(self.offset, k),
            r.coefficients@ == spec_scale_coeffs(self.coefficients@, k),
            forall|c: Cell|
                #[trigger] aff_mentions(r, c) ==> aff_mentions(self, c) || sym_mentions(k, c),
            forall|c: Cell| #[trigger] aff_key(r, c) ==> aff_key(self, c),
            self.coefficients@.len() == 0 ==> r.coefficients@.len() == 0,
            forall|env: spec_fn(Cell) -> int|
                env_ok(env) ==> #[trigger] sym_eval(r.offset, env) == f_mul(
                    sym_eval(self.offset, env),
                    sym_eval(k, env),
                ),
    {
        let AffineSymbolicExpression { coefficients: mut cs, offset } = self;
        let ghost g = cs@;
        let k2 = k;
        let ghost gk = k2;
        let mut out: Vec<(Cell, SymbolicExpression)> = Vec::new();
        proof {
            assert(out@ + spec_scale_coeffs(cs@, gk) =~= spec_scale_coeffs(g, gk));
        }
        while cs.len() > 0
            invariant
                cs@ == g.take(cs@.len() as int),
                cs@.len() <= g.len(),
                out@.len() + cs@.len() <= g.len(),
                k2 == gk,
                sym_wf(gk),
                forall|i: int| 0 <= i < g.len() ==> sym_wf((#[trigger] g[i]).1),
                forall|p: int, q: int|
                    0 <= p < q < g.len() ==> (#[trigger] g[p]).0 != (#[trigger] g[q]).0,
                forall|i: int|
                    0 <= i < out@.len() ==> sym_wf((#[trigger] out@[i]).1) && out@[i].1
                        != SymbolicExpression::Concrete(0),
                forall|p: int, q: int|
                    0 <= p < q < out@.len() ==> (#[trigger] out@[p]).0 != (#[trigger] out@[q]).0,
                forall|c: Cell|
                    #[trigger] coeffs_key(out@, c) ==> coeffs_key(g, c) && !coeffs_key(
                        g.take(cs@.len() as int),
                        c,
                    ),
                forall|c: Cell|
                    #[trigger] coeffs_mention(out@, c) ==> coeffs_mention(g, c) || sym_mentions(
                        gk,
                        c,
                    ),
                out@ + spec_scale_coeffs(cs@, gk) == spec_scale_coeffs(g, gk),
            decreases cs@.len(),
        {
            let ghost n = cs@.len() as int;
            let (c, e) = cs.pop().unwrap();
            proof {
                assert(g.take(n)[n - 1] == g[n - 1]);
                assert((c, e) == g[n - 1]);
                assert(cs@ =~= g.take(n - 1));
            }
            proof {
                assert(g.take(n).last() == g[n - 1]);
                assert(g.take(n).drop_last() =~= g.take(n - 1));
                assert(spec_scale_coeffs(g.take(n), gk) == (if spec_sym_mul(e, gk)
                    == SymbolicExpression::Concrete(0) {
                    Seq::<(Cell, SymbolicExpression)>::empty()
                } else {
                    seq![(c, spec_sym_mul(e, gk))]
                }) + spec_scale_coeffs(g.take(n - 1), gk));
            }
            let kc = duplicate_sym(&k2);
            let ne = sym_mul(e, kc);
            let mut skip: bool = false;
            if let Some(v) = ne.try_to_number() {
                if v == 0 {
                    skip = true;
                }
            }
            if !skip {
                proof {
                    assert(out@.push((c, ne)) + spec_scale_coeffs(g.take(n - 1), gk) =~= out@ + (
                    seq![(c, ne)] + spec_scale_coeffs(g.take(n - 1), gk)));
                    lemma_coeffs_push(out@, (c, ne));
                    if coeffs_key(out@, c) {
                        assert(g.take(n)[n - 1] == g[n - 1]);
                        assert(coeffs_key(g.take(n), c));
                    }
                    assert forall|c2: Cell| #[trigger]
                        coeffs_key(out@.push((c, ne)), c2) implies coeffs_key(g, c2)
                        && !coeffs_key(g.take(n - 1), c2) by {
                        if coeffs_key(out@, c2) {
                            if coeffs_key(g.take(n - 1), c2) {
                                let j = choose|j: int|
                                    0 <= j < n - 1 && (#[trigger] g.take(n - 1)[j]).0 == c2;
                                assert(g.take(n - 1)[j] == g[j]);
                                assert(g.take(n)[j] == g[j]);
                                assert(coeffs_key(g.take(n), c2));
                            }
                        } else {
                            assert(c2 == c);
                            if coeffs_key(g.take(n - 1), c) {
                                let j = choose|j: int|
                                    0 <= j < n - 1 && (#[trigger] g.take(n - 1)[j]).0 == c;
                                assert(g.take(n - 1)[j] == g[j]);
                                assert(g[j].0 == g[n - 1].0);
                            }
                        }
                    }
                }
                out.push((c, ne));
            } else {
                proof {
                    assert(out@ + spec_scale_coeffs(g.take(n - 1), gk) =~= out@ + (Seq::<
                        (Cell, SymbolicExpression),
                    >::empty() + spec_scale_coeffs(g.take(n - 1), gk)));
                    assert forall|c2: Cell| #[trigger]
                        coeffs_key(out@, c2) implies coeffs_key(g, c2) && !coeffs_key(
                        g.take(n - 1),
                        c2,
                    ) by {
                        if coeffs_key(g.take(n - 1), c2) {
                            let j = choose|j: int|
                                0 <= j < n - 1 && (#[trigger] g.take(n - 1)[j]).0 == c2;
                            assert(g.take(n - 1)[j] == g[j]);
                            assert(g.take(n)[j] == g[j]);
                            assert(coeffs_key(g.take(n), c2));
                        }
                    }
                }
            }
        }
        let new_offset = sym_mul(offset, k2);
        let r = AffineSymbolicExpression { coefficients: out, offset: new_offset };
        proof {
            assert(g.take(0) =~= Seq::<(Cell, SymbolicExpression)>::empty());
            assert(out@ + spec_scale_coeffs(Seq::<(Cell, SymbolicExpression)>::empty(), gk)
                =~= out@);
        }
        r
    }

    /// Multiplication: succeeds only if at least one operand is fully known,
    /// distributing that operand over the other; `None` otherwise.
    pub fn try_mul(self, other: AffineSymbolicExpression) -> (r: Option<
        AffineSymbolicExpression,
    >)
        requires
            aff_wf(self),
            aff_wf(other),
        ensures
            r is Some <==> self.coefficients@.len() == 0 || other.coefficients@.len() == 0,
            self.coefficients@.len() == 0 ==> r is Some && r->0.offset == spec_sym_mul(
                other.offset,
                self.offset,
            ) && r->0.coefficients@ == spec_scale_coeffs(other.coefficients@, self.offset),
            (self.coefficients@.len() > 0 && other.coefficients@.len() == 0) ==> r is Some
                && r->0.offset == spec_sym_mul(self.offset, other.offset) && r->0.coefficients@
                == spec_scale_coeffs(self.coefficients@, other.offset),
            (r is Some && self.coefficients@.len() == 0 && other.coefficients@.len() == 0)
                ==> r->0.coefficients@.len() == 0,
            r is Some ==> aff_wf(r->0),
            r is Some ==> forall|c: Cell|
                #[trigger] aff_mentions(r->0, c) ==> aff_mentions(self, c) || aff_mentions(
                    other,
                    c,
                ),
            r is Some ==> forall|c: Cell|
                #[trigger] aff_key(r->0, c) ==> aff_key(self, c) || aff_key(other, c),
            r is Some ==> forall|env: spec_fn(Cell) -> int|
                env_ok(env) ==> #[trigger] sym_eval(r->0.offset, env) == f_mul(
                    sym_eval(self.offset, env),
                    sym_eval(other.offset, env),
                ),
    {
        if self.coefficients.len() == 0 {
            let AffineSymbolicExpression { coefficients: _, offset } = self;
            let r = other.mul_known(offset);
            Some(r)
        } else if other.coefficients.len() == 0 {
            let AffineSymbolicExpression { coefficients: _, offset } = other;
            let r = self.mul_known(offset);
            Some(r)
        } else {
            None
        }
    }
}

impl ProcessResult {
    /// No effects, not complete: the identity could not be resolved on this
    /// pass and may be retried later.
    pub fn empty() -> (r: ProcessResult)
        ensures
            r.effects@.len() == 0,
            !r.complete,
            forall|k: Set<Cell>| #[trigger] effects_ok(r.effects@, k),
            rc_targets_not_rewritten(r.effects@),
    {
        ProcessResult { effects: Vec::new(), complete: false }
    }
}

impl AffineSymbolicExpression {
    /// Interprets the expression as "this quantity equals zero" and derives
    /// effects:
    /// - no unknown terms: complete; no effects if the offset is the zero
    ///   constant, otherwise an `Assertion` deferring the conflict to runtime;
    /// - exactly one unknown term with a concrete coefficient `c`: complete,
    ///   with an `Assignment` of the negated offset divided by `c` (the
    ///   assigned value `v` satisfies `c*v + offset == 0` in the field);
    /// - anything else (several unknowns, or a coefficient that is not a
    ///   compile-time constant): empty and not complete, deferred.
    pub fn solve(self) -> (r: ProcessResult)
        requires
            aff_wf(self),
        ensures
            r.complete == (self.coefficients@.len() == 0 || (self.coefficients@.len() == 1
                && self.coefficients@[0].1 is Concrete)),
            forall|k: Set<Cell>|
                aff_evaluated_for(self, k) ==> #[trigger] effects_ok(r.effects@, k),
            rc_targets_not_rewritten(r.effects@),
            (self.coefficients@.len() == 0 && self.offset == SymbolicExpression::Concrete(0))
                ==> r.effects@.len() == 0,
            (self.coefficients@.len() == 0 && self.offset != SymbolicExpression::Concrete(0)) ==> {
                &&& r.effects@.len() == 1
                &&& r.effects@[0] is Assertion
                &&& r.effects@[0]->Assertion_0.lhs == self.offset
                &&& r.effects@[0]->Assertion_0.rhs == SymbolicExpression::Concrete(0)
                &&& r.effects@[0]->Assertion_0.expected_equal
            },
            (self.coefficients@.len() == 1 && self.coefficients@[0].1 is Concrete) ==> {
                &&& r.effects@.len() == 1
                &&& r.effects@[0] is Assignment
                &&& r.effects@[0]->Assignment_0 == self.coefficients@[0].0
                &&& sym_wf(r.effects@[0]->Assignment_1)
                &&& exists|ic: u64|
                    ic < GL_MODULUS && (self.coefficients@[0].1->Concrete_0 as int * ic as int) % (
                    GL_MODULUS as int) == 1 && r.effects@[0]->Assignment_1 == #[trigger] spec_sym_mul(
                        spec_sym_neg(self.offset),
                        SymbolicExpression::Concrete(ic),
                    )
                &&& forall|env: spec_fn(Cell) -> int|
                    env_ok(env) ==> f_add(
                        f_mul(
                            sym_eval(self.coefficients@[0].1, env),
                            #[trigger] sym_eval(r.effects@[0]->Assignment_1, env),
                        ),
                        sym_eval(self.offset, env),
                    ) == 0
            },
            !r.complete ==> r.effects@.len() == 0,
    {
        let AffineSymbolicExpression { coefficients, offset } = self;
        if coefficients.len() == 0 {
            let mut zero: bool = false;
            if let Some(v) = offset.try_to_number() {
                if v == 0 {
                    zero = true;
                }
            }
            if zero {
                let effects: Vec<Effect> = Vec::new();
                assert(rc_targets_not_rewritten(effects@));
                ProcessResult { effects, complete: true }
            } else {
                let mut effects: Vec<Effect> = Vec::new();
                effects.push(
                    Effect::Assertion(
                        Assertion {
                            lhs: offset,
                            rhs: SymbolicExpression::Concrete(0),
                            expected_equal: true,
                        },
                    ),
                );
                assert forall|k: Set<Cell>|
                    aff_evaluated_for(self, k) implies #[trigger] effects_ok(effects@, k) by {
                    assert(effects@.len() == 1);
                    assert(effects@.first() == Effect::Assertion(
                        Assertion {
                            lhs: self.offset,
                            rhs: SymbolicExpression::Concrete(0),
                            expected_equal: true,
                        },
                    ));
                    assert(effect_writes(effects@.first()) =~= Set::<Cell>::empty());
                    assert(Set::<Cell>::empty().disjoint(k));
                    assert(effect_ingestible(effects@.first(), k));
                    assert(effects@.drop_first().len() == 0);
                    assert(effects_ok(
                        effects@.drop_first(),
                        k.union(effect_writes(effects@.first())),
                    ));
                }
                assert(rc_targets_not_rewritten(effects@)) by {
                    assert(effects@.drop_first().len() == 0);
                    assert(rc_targets_not_rewritten(effects@.drop_first()));
                }
                ProcessResult { effects, complete: true }
            }
        } else if coefficients.len() == 1 {
            let conc: Option<u64> = match &coefficients[0].1 {
                SymbolicExpression::Concrete(c) => Some(*c),
                _ => None,
            };
            match conc {
                Some(cv) => {
                    assert(coefficients@[0].1 == SymbolicExpression::Concrete(cv));
                    assert(cv != 0 && is_fe(cv));
                    let ic = fe_inv(cv);
                    let cell = coefficients[0].0;
                    let neg_off = sym_neg(offset);
                    let value = sym_mul(neg_off, SymbolicExpression::Concrete(ic));
                    let ghost gvalue = value;
                    let mut effects: Vec<Effect> = Vec::new();
                    effects.push(Effect::Assignment(cell, value));
                    proof {
                        assert(aff_key(self, cell)) by {
                            assert(self.coefficients@[0].0 == cell);
                        }
                        assert(gvalue == spec_sym_mul(
                            spec_sym_neg(self.offset),
                            SymbolicExpression::Concrete(ic),
                        ));
                        assert forall|env: spec_fn(Cell) -> int| env_ok(env) implies f_add(
                            f_mul(cv as int, #[trigger] sym_eval(gvalue, env)),
                            sym_eval(self.offset, env),
                        ) == 0 by {
                            let m = GL_MODULUS as int;
                            let oe = sym_eval(self.offset, env);
                            lemma_sym_eval_in_range(self.offset, env);
                            let no = f_neg(oe);
                            vstd::arithmetic::div_mod::lemma_mod_bound(0 - oe, m);
                            assert(sym_eval(gvalue, env) == f_mul(no, ic as int));
                            let ve = sym_eval(gvalue, env);
                            vstd::arithmetic::div_mod::lemma_mul_mod_noop_right(
                                cv as int,
                                no * ic,
                                m,
                            );
                            assert(cv as int * (no * ic) == (cv as int * ic) * no)
                                by (nonlinear_arith);
                            vstd::arithmetic::div_mod::lemma_mul_mod_noop_left(
                                cv as int * ic,
                                no,
                                m,
                            );
                            vstd::arithmetic::div_mod::lemma_small_mod(no as nat, m as nat);
                            assert(f_mul(cv as int, ve) == no);
                            vstd::arithmetic::div_mod::lemma_small_mod(oe as nat, m as nat);
                            vstd::arithmetic::div_mod::lemma_add_mod_noop(0 - oe, oe, m);
                            vstd::arithmetic::div_mod::lemma_small_mod(0, m as nat);
                            assert(f_add(no, oe) == 0);
                        }
                        assert forall|k: Set<Cell>|
                            aff_evaluated_for(self, k) implies #[trigger] effects_ok(
                            effects@,
                            k,
                        ) by {
                            assert(effects@.len() == 1);
                            assert(effects@.first() == Effect::Assignment(cell, gvalue));
                            assert forall|c: Cell| #[trigger]
                                sym_mentions(gvalue, c) implies k.contains(c) by {
                                assert(sym_mentions(self.offset, c));
                                assert(aff_mentions(self, c));
                            }
                            assert(sym_reads_ok(gvalue, k));
                            assert forall|c: Cell|
                                effect_writes(effects@.first()).contains(c) implies !k.contains(
                                c,
                            ) by {
                                assert(c == cell);
                            }
                            assert(effect_writes(effects@.first()).disjoint(k));
                            assert(effect_ingestible(effects@.first(), k));
                            assert(effects@.drop_first().len() == 0);
                            assert(effects_ok(
                                effects@.drop_first(),
                                k.union(effect_writes(effects@.first())),
                            ));
                        }
                        assert(rc_targets_not_rewritten(effects@)) by {
                            assert(effects@.drop_first().len() == 0);
                            assert(rc_targets_not_rewritten(effects@.drop_first()));
                        }
                    }
                    ProcessResult { effects, complete: true }
                },
                None => ProcessResult::empty(),
            }
        } else {
            ProcessResult::empty()
        }
    }
}

/// A structural copy of a symbolic expression.
fn duplicate_sym(e: &SymbolicExpression) -> (r: SymbolicExpression)
    ensures
        r == *e,
    decreases *e,
{
    match e {
        SymbolicExpression::Concrete(v) => SymbolicExpression::Concrete(*v),
        SymbolicExpression::Symbol(c) => SymbolicExpression::Symbol(*c),
        SymbolicExpression::Add(a, b) => SymbolicExpression::Add(
            Box::new(duplicate_sym(a)),
            Box::new(duplicate_sym(b)),
        ),
        SymbolicExpression::Sub(a, b) => SymbolicExpression::Sub(
            Box::new(duplicate_sym(a)),
            Box::new(duplicate_sym(b)),
        ),
        SymbolicExpression::Mul(a, b) => SymbolicExpression::Mul(
            Box::new(duplicate_sym(a)),
            Box::new(duplicate_sym(b)),
        ),
        SymbolicExpression::Neg(a) => SymbolicExpression::Neg(Box::new(duplicate_sym(a))),
    }
}

/// The index of `c` in the coefficient list, if present.
fn find_key(v: &Vec<(Cell, SymbolicExpression)>, c: Cell) -> (r: Option<usize>)
    ensures
        match r {
            Some(i) => 0 <= i < v@.len() && v@[i as int].0 == c && spec_find_key(v@, c) == Some(
                i as int,
            ),
            None => (forall|i: int| 0 <= i < v@.len() ==> (#[trigger] v@[i]).0 != c)
                && spec_find_key(v@, c) is None,
        },
{
    let mut idx: usize = 0;
    while idx < v.len()
        invariant
            0 <= idx <= v@.len(),
            forall|i: int| 0 <= i < idx ==> (#[trigger] v@[i]).0 != c,
        decreases v@.len() - idx,
    {
        if v[idx].0 == c {
            proof {
                lemma_spec_find_key(v@, c);
            }
            return Some(idx);
        }
        idx = idx + 1;
    }
    proof {
        lemma_spec_find_key(v@, c);
    }
    None
}

} // verus!
