//! The per-instruction taint-propagation rules and their transfer functions.

use crate::domain::{all_clean, seq_le, TaintSet};
use crate::ir::{BasicBlock, Body, Operand, Rvalue, Statement, Terminator};
use vstd::prelude::*;

verus! {

/// The taint state after one statement, given the state `s` before it.
///
/// The rule table:
/// - assigning a constant, or a binary operation over two constants, cleans
///   the target;
/// - a copy or move propagates the source's taint to the target;
/// - a binary operation taints the target iff at least one local operand is
///   tainted;
/// - a unary operation over a local propagates like a copy;
/// - every other shape, and every non-assignment statement, leaves the state
///   unchanged.
pub open spec fn stmt_transfer(stmt: Statement, s: Seq<bool>) -> Seq<bool> {
    match stmt {
        Statement::Assign { target, rvalue } => match rvalue {
            Rvalue::Use(op) => s.update(target as int, op.tainted_in(s)),
            Rvalue::BinaryOp(a, b) => s.update(
                target as int,
                a.tainted_in(s) || b.tainted_in(s),
            ),
            Rvalue::UnaryOp(op) => match op {
                Operand::Constant => s,
                _ => s.update(target as int, op.tainted_in(s)),
            },
            Rvalue::Other => s,
        },
        Statement::Other => s,
    }
}

/// The taint state after a whole run of statements, applied in order.
pub open spec fn stmts_transfer(stmts: Seq<Statement>, s: Seq<bool>) -> Seq<bool>
    decreases stmts.len(),
{
    if stmts.len() == 0 {
        s
    } else {
        stmt_transfer(stmts.last(), stmts_transfer(stmts.drop_last(), s))
    }
}

/// The taint state after a terminator.  Every terminator kind is a no-op
/// with respect to taint; a call's return value is an extension point, see
/// `MaybeTaintedLocals::call_return_effect`.
pub open spec fn terminator_transfer(term: Terminator, s: Seq<bool>) -> Seq<bool> {
    s
}

/// The exit state of a block, given its entry state: the statements replayed
/// in order, then the terminator.
pub open spec fn block_transfer(block: BasicBlock, s: Seq<bool>) -> Seq<bool> {
    terminator_transfer(block.terminator, stmts_transfer(block.statements@, s))
}

/// A forward dataflow analysis that tracks whether a local may carry a
/// taint.  Taints are introduced through sources and consumed by sinks;
/// ideally a sink never consumes a tainted value.  The analysis computes a
/// may-over-approximation: false positives are acceptable, false negatives
/// are bugs.
pub struct MaybeTaintedLocals;

/// The gen/kill accumulator handed to the propagation rules.  It records
/// which locals become tainted (`gen`) and which become untainted (`kill`),
/// applying each request immediately to its working state, and offers the
/// read-only membership query `contains` so the rules never reach behind the
/// abstraction.
pub struct TransferFunction {
    trans: TaintSet,
}

impl View for TransferFunction {
    type V = Seq<bool>;

    closed spec fn view(&self) -> Seq<bool> {
        self.trans@
    }
}

impl MaybeTaintedLocals {
    /// Bottom of the lattice for `body`: every local definitely untainted.
    pub fn bottom_value(&self, body: &Body) -> (r: TaintSet)
        ensures
            r@ == all_clean(body.local_count as nat),
    {
        TaintSet::bottom(body.local_count)
    }

    /// Locals start out untainted, so the entry block's state is left at
    /// bottom.  A caller that knows pre-tainted locals seeds them instead
    /// through `iterate_to_fixpoint`.
    pub fn initialize_start_block(&self, body: &Body, state: &mut TaintSet)
        ensures
            final(state)@ == old(state)@,
    {
    }

    /// Wrap a state in the gen/kill accumulator the propagation rules work on.
    pub fn transfer_function(&self, trans: TaintSet) -> (r: TransferFunction)
        ensures
            r@ == trans@,
    {
        TransferFunction { trans }
    }

    /// Apply one statement's rule to `state`.
    pub fn statement_effect(&self, state: TaintSet, statement: &Statement) -> (r: TaintSet)
        requires
            statement.wf(state@.len()),
        ensures
            r@ == stmt_transfer(*statement, state@),
    {
        let mut trans = self.transfer_function(state);
        trans.visit_statement(statement);
        trans.into_state()
    }

    /// Apply one terminator's rule to `state`: currently always a no-op.
    pub fn terminator_effect(&self, state: TaintSet, terminator: &Terminator) -> (r: TaintSet)
        ensures
            r@ == terminator_transfer(*terminator, state@),
    {
        let mut trans = self.transfer_function(state);
        trans.visit_terminator(terminator);
        trans.into_state()
    }

    /// Extension point for the effect of a call's return on its destination
    /// local.  Until a source/sink catalogue is wired in, the documented
    /// default is no effect: the return value is conservatively assumed
    /// clean, an omission the engine reports through its `unsupported`
    /// marker rather than guessing silently.
    pub fn call_return_effect(
        &self,
        trans: &mut TransferFunction,
        func: &Operand,
        args: &Vec<Operand>,
        return_place: usize,
    )
        ensures
            final(trans)@ == old(trans)@,
    {
    }

    /// Replay a whole block: its statements in order, then its terminator.
    pub fn transfer_block(&self, block: &BasicBlock, state: TaintSet) -> (r: TaintSet)
        requires
            block.statements_wf(state@.len()),
        ensures
            r@ == block_transfer(*block, state@),
    {
        let ghost entry: Seq<bool> = state@;
        let mut trans = self.transfer_function(state);
        let mut i: usize = 0;
        while i < block.statements.len()
            invariant
                i <= block.statements@.len(),
                block.statements_wf(entry.len()),
                trans@ == stmts_transfer(block.statements@.subrange(0, i as int), entry),
                trans@.len() == entry.len(),
            decreases block.statements@.len() - i,
        {
            let ghost prefix: Seq<Statement> = block.statements@.subrange(0, i as int);
            trans.visit_statement(&block.statements[i]);
            proof {
                let longer = block.statements@.subrange(0, i + 1);
                assert(longer.drop_last() =~= prefix);
                assert(longer.last() == block.statements@[i as int]);
                lemma_stmt_transfer_len(block.statements@[i as int], stmts_transfer(prefix, entry));
            }
            i = i + 1;
        }
        proof {
            assert(block.statements@.subrange(0, block.statements@.len() as int)
                =~= block.statements@);
        }
        trans.visit_terminator(&block.terminator);
        trans.into_state()
    }
}

impl TransferFunction {
    /// Record that `local` becomes tainted here.
    pub fn gen(&mut self, local: usize)
        requires
            local < old(self)@.len(),
        ensures
            final(self)@ == old(self)@.update(local as int, true),
    {
        self.trans.set(local);
    }

    /// Record that `local` becomes untainted here.
    pub fn kill(&mut self, local: usize)
        requires
            local < old(self)@.len(),
        ensures
            final(self)@ == old(self)@.update(local as int, false),
    {
        self.trans.clear(local);
    }

    /// Read-only membership query on the working state.
    pub fn contains(&self, local: usize) -> (r: bool)
        requires
            local < self@.len(),
        ensures
            r == self@[local as int],
    {
        self.trans.contains(local)
    }

    /// Is `elem` tainted in the current working state?
    pub fn is_tainted(&self, elem: usize) -> (r: bool)
        requires
            elem < self@.len(),
        ensures
            r == self@[elem as int],
    {
        self.contains(elem)
    }

    /// Copy the taint of `source` onto `target`: gen if the source is
    /// tainted, kill otherwise.  The source's own bit is untouched.
    pub fn propagate(&mut self, source: usize, target: usize)
        requires
            source < old(self)@.len(),
            target < old(self)@.len(),
        ensures
            final(self)@ == old(self)@.update(target as int, old(self)@[source as int]),
    {
        if self.is_tainted(source) {
            self.gen(target);
        } else {
            self.kill(target);
        }
    }

    /// Apply the rule table to one assignment.
    pub fn handle_assignment(&mut self, target: usize, rvalue: &Rvalue)
        requires
            target < old(self)@.len(),
            rvalue.wf(old(self)@.len()),
        ensures
            final(self)@ == stmt_transfer(
                Statement::Assign { target, rvalue: *rvalue },
                old(self)@,
            ),
    {
        match rvalue {
            // If we assign a constant to a place, the place is clean.
            Rvalue::Use(Operand::Constant) => self.kill(target),
            // Otherwise we propagate the taint.
            Rvalue::Use(Operand::Copy(f)) => self.propagate(*f, target),
            Rvalue::Use(Operand::Move(f)) => self.propagate(*f, target),
            Rvalue::BinaryOp(a, b) => {
                let a_tainted = match a {
                    Operand::Constant => false,
                    Operand::Copy(l) => self.is_tainted(*l),
                    Operand::Move(l) => self.is_tainted(*l),
                };
                let b_tainted = match b {
                    Operand::Constant => false,
                    Operand::Copy(l) => self.is_tainted(*l),
                    Operand::Move(l) => self.is_tainted(*l),
                };
                if a_tainted || b_tainted {
                    self.gen(target);
                } else {
                    self.kill(target);
                }
            },
            Rvalue::UnaryOp(op) => {
                match op {
                    Operand::Constant => {},
                    Operand::Copy(l) => self.propagate(*l, target),
                    Operand::Move(l) => self.propagate(*l, target),
                }
            },
            Rvalue::Other => {},
        }
    }

    /// Apply one statement: only assignments have an effect.
    pub fn visit_statement(&mut self, statement: &Statement)
        requires
            statement.wf(old(self)@.len()),
        ensures
            final(self)@ == stmt_transfer(*statement, old(self)@),
    {
        match statement {
            Statement::Assign { target, rvalue } => self.handle_assignment(*target, rvalue),
            Statement::Other => {},
        }
    }

    /// Apply one terminator: every kind is a no-op with respect to taint.
    pub fn visit_terminator(&mut self, terminator: &Terminator)
        ensures
            final(self)@ == terminator_transfer(*terminator, old(self)@),
    {
        match terminator {
            Terminator::Goto { target } => {},
            Terminator::SwitchInt { discr, targets } => {},
            Terminator::Return => {},
            Terminator::Call { func, args, destination, cleanup } => {},
            Terminator::Assert { cond, expected, target, cleanup } => {},
        }
    }

    /// Take the evolved state back out of the accumulator.
    pub fn into_state(self) -> (r: TaintSet)
        ensures
            r@ == self@,
    {
        self.trans
    }
}

/// One statement's transfer keeps the state's size.
pub proof fn lemma_stmt_transfer_len(stmt: Statement, s: Seq<bool>)
    requires
        stmt.wf(s.len()),
    ensures
        stmt_transfer(stmt, s).len() == s.len(),
{
}

/// A run of statements' transfer keeps the state's size.
pub proof fn lemma_stmts_transfer_len(stmts: Seq<Statement>, s: Seq<bool>)
    requires
        forall|i: int| 0 <= i < stmts.len() ==> (#[trigger] stmts[i]).wf(s.len()),
    ensures
        stmts_transfer(stmts, s).len() == s.len(),
    decreases stmts.len(),
{
    if stmts.len() > 0 {
        lemma_stmts_transfer_len(stmts.drop_last(), s);
        lemma_stmt_transfer_len(stmts.last(), stmts_transfer(stmts.drop_last(), s));
    }
}

/// One statement's transfer is monotone in the lattice order: a larger
/// state before the statement yields a larger state after it.
pub proof fn lemma_stmt_transfer_monotone(stmt: Statement, s1: Seq<bool>, s2: Seq<bool>)
    requires
        stmt.wf(s1.len()),
        seq_le(s1, s2),
    ensures
        seq_le(stmt_transfer(stmt, s1), stmt_transfer(stmt, s2)),
{
    lemma_stmt_transfer_len(stmt, s1);
    lemma_stmt_transfer_len(stmt, s2);
}

/// A run of statements' transfer is monotone in the lattice order.
pub proof fn lemma_stmts_transfer_monotone(stmts: Seq<Statement>, s1: Seq<bool>, s2: Seq<bool>)
    requires
        forall|i: int| 0 <= i < stmts.len() ==> (#[trigger] stmts[i]).wf(s1.len()),
        seq_le(s1, s2),
    ensures
        seq_le(stmts_transfer(stmts, s1), stmts_transfer(stmts, s2)),
    decreases stmts.len(),
{
    if stmts.len() > 0 {
        lemma_stmts_transfer_monotone(stmts.drop_last(), s1, s2);
        lemma_stmts_transfer_len(stmts.drop_last(), s1);
        lemma_stmt_transfer_monotone(
            stmts.last(),
            stmts_transfer(stmts.drop_last(), s1),
            stmts_transfer(stmts.drop_last(), s2),
        );
    }
}

/// Law (monotonicity): a block's transfer is monotone, so the per-block
/// approximations of the fixed-point iteration can only grow, and the
/// iteration over the finite lattice terminates.
pub proof fn lemma_block_transfer_monotone(block: BasicBlock, s1: Seq<bool>, s2: Seq<bool>)
    requires
        block.statements_wf(s1.len()),
        seq_le(s1, s2),
    ensures
        seq_le(block_transfer(block, s1), block_transfer(block, s2)),
{
    lemma_stmts_transfer_monotone(block.statements@, s1, s2);
}

/// Nothing taints out of nothing: on the all-clean state every rule only
/// kills, so a block maps bottom to bottom.
pub proof fn lemma_stmt_transfer_bottom(stmt: Statement, n: nat)
    requires
        stmt.wf(n),
    ensures
        stmt_transfer(stmt, all_clean(n)) == all_clean(n),
{
    assert(stmt_transfer(stmt, all_clean(n)) =~= all_clean(n));
}

/// A run of statements maps bottom to bottom.
pub proof fn lemma_stmts_transfer_bottom(stmts: Seq<Statement>, n: nat)
    requires
        forall|i: int| 0 <= i < stmts.len() ==> (#[trigger] stmts[i]).wf(n),
    ensures
        stmts_transfer(stmts, all_clean(n)) == all_clean(n),
    decreases stmts.len(),
{
    if stmts.len() > 0 {
        lemma_stmts_transfer_bottom(stmts.drop_last(), n);
        lemma_stmt_transfer_bottom(stmts.last(), n);
    }
}

/// A block maps bottom to bottom.
pub proof fn lemma_block_transfer_bottom(block: BasicBlock, n: nat)
    requires
        block.statements_wf(n),
    ensures
        block_transfer(block, all_clean(n)) == all_clean(n),
{
    lemma_stmts_transfer_bottom(block.statements@, n);
}

/// Law (propagation correctness): assigning `target := copy(source)` or
/// `target := move(source)` with `source` tainted taints `target` and leaves
/// `source` tainted; every other local keeps its bit.  Move is treated like
/// copy: the source's taint is not consumed.
pub proof fn lemma_copy_propagates(target: usize, source: usize, s: Seq<bool>)
    requires
        target < s.len(),
        source < s.len(),
        s[source as int],
    ensures
        ({
            let after = stmt_transfer(
                Statement::Assign { target, rvalue: Rvalue::Use(Operand::Copy(source)) },
                s,
            );
            &&& after == s.update(target as int, true)
            &&& after[target as int]
            &&& after[source as int]
            &&& forall|l: int| 0 <= l < s.len() && l != target ==> after[l] == s[l]
        }),
        stmt_transfer(Statement::Assign { target, rvalue: Rvalue::Use(Operand::Move(source)) }, s)
            == stmt_transfer(
            Statement::Assign { target, rvalue: Rvalue::Use(Operand::Copy(source)) },
            s,
        ),
{
}

/// Law (constant-cleans): assigning a constant, or a binary operation over
/// two constants, removes the target from the tainted set whatever its
/// prior state, and touches no other local.
pub proof fn lemma_constant_cleans(target: usize, s: Seq<bool>)
    requires
        target < s.len(),
    ensures
        ({
            let after = stmt_transfer(
                Statement::Assign { target, rvalue: Rvalue::Use(Operand::Constant) },
                s,
            );
            &&& after == s.update(target as int, false)
            &&& !after[target as int]
            &&& forall|l: int| 0 <= l < s.len() && l != target ==> after[l] == s[l]
        }),
        !stmt_transfer(
            Statement::Assign {
                target,
                rvalue: Rvalue::BinaryOp(Operand::Constant, Operand::Constant),
            },
            s,
        )[target as int],
{
}

/// Law (binary-op taint union): `target := a op b` leaves `target` tainted
/// iff at least one of the operands reads a tainted local; in particular it
/// is clean when both operands are constants.
pub proof fn lemma_binary_op_union(target: usize, a: Operand, b: Operand, s: Seq<bool>)
    requires
        target < s.len(),
        a.wf(s.len()),
        b.wf(s.len()),
    ensures
        stmt_transfer(Statement::Assign { target, rvalue: Rvalue::BinaryOp(a, b) }, s)[
            target as int] == (a.tainted_in(s) || b.tainted_in(s)),
{
}

} // verus!
