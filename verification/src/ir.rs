//! The slice of the intermediate representation that the analysis inspects.
//!
//! The host compiler owns the real instructions; the analysis only reads the
//! shape of each statement and terminator.  These types hold exactly that
//! shape: which local is assigned, whether each operand is a constant or a
//! local read, and which blocks a terminator can jump to.  A local variable
//! is a dense index into the function's locals, stable for the lifetime of
//! the analysis.

use vstd::prelude::*;

verus! {

/// A value as used on the right-hand side of an instruction: a constant, a
/// direct local read (copy), or a destructive local read (move).  Only a
/// local operand can carry taint; constants never do.
pub enum Operand {
    Constant,
    Copy(usize),
    Move(usize),
}

impl Operand {
    /// Any local the operand reads lies within the function's local count.
    pub open spec fn wf(self, local_count: nat) -> bool {
        match self {
            Operand::Constant => true,
            Operand::Copy(l) => l < local_count,
            Operand::Move(l) => l < local_count,
        }
    }

    /// Does the operand read a local that is tainted in state `s`?
    /// Constants are never tainted; a copy or move is exactly as tainted as
    /// the local it reads.
    pub open spec fn tainted_in(self, s: Seq<bool>) -> bool {
        match self {
            Operand::Constant => false,
            Operand::Copy(l) => s[l as int],
            Operand::Move(l) => s[l as int],
        }
    }
}

/// The right-hand-side shapes the transfer rules distinguish.  The operator
/// of a binary or unary operation never affects taint, so the model keeps
/// only the operands.  `Other` stands for every remaining shape (aggregate
/// build, reference-taking, cast, ...): those leave the state unchanged, a
/// conservative gap that the engine reports through its `unsupported` marker.
pub enum Rvalue {
    Use(Operand),
    BinaryOp(Operand, Operand),
    UnaryOp(Operand),
    Other,
}

impl Rvalue {
    pub open spec fn wf(self, local_count: nat) -> bool {
        match self {
            Rvalue::Use(op) => op.wf(local_count),
            Rvalue::BinaryOp(a, b) => a.wf(local_count) && b.wf(local_count),
            Rvalue::UnaryOp(op) => op.wf(local_count),
            Rvalue::Other => true,
        }
    }
}

/// One statement of a basic block.  Only assignments can change taint;
/// every non-assignment statement (`Other`) leaves the state as it is.
pub enum Statement {
    Assign { target: usize, rvalue: Rvalue },
    Other,
}

impl Statement {
    pub open spec fn wf(self, local_count: nat) -> bool {
        match self {
            Statement::Assign { target, rvalue } => target < local_count && rvalue.wf(
                local_count,
            ),
            Statement::Other => true,
        }
    }
}

/// The terminator of a basic block and the edges it induces.  Every kind is
/// a no-op with respect to taint; the engine only reads its successor
/// blocks.  A call's return value is not modeled (see
/// `MaybeTaintedLocals::call_return_effect`), which the engine reports
/// through its `unsupported` marker.
#[allow(inconsistent_fields)]
pub enum Terminator {
    Goto { target: usize },
    SwitchInt { discr: Operand, targets: Vec<usize> },
    Return,
    Call { func: Operand, args: Vec<Operand>, destination: Option<(usize, usize)>, cleanup: Option<
        usize,
    > },
    Assert { cond: Operand, expected: bool, target: usize, cleanup: Option<usize> },
}

/// The blocks an optional edge target contributes.
pub open spec fn opt_target(t: Option<usize>) -> Seq<usize> {
    match t {
        Some(b) => seq![b],
        None => Seq::empty(),
    }
}

impl Terminator {
    /// The successor blocks, in the order the terminator names them.  A
    /// call's destination pair is (return-value local, continuation block).
    pub open spec fn successors_spec(self) -> Seq<usize> {
        match self {
            Terminator::Goto { target } => seq![target],
            Terminator::SwitchInt { discr, targets } => targets@,
            Terminator::Return => Seq::empty(),
            Terminator::Call { func, args, destination, cleanup } => (match destination {
                Some(d) => seq![d.1],
                None => Seq::empty(),
            }) + opt_target(cleanup),
            Terminator::Assert { cond, expected, target, cleanup } => seq![target] + opt_target(
                cleanup,
            ),
        }
    }

    /// All operands read lie within the local count and all edges stay
    /// within the block count.
    pub open spec fn wf(self, local_count: nat, block_count: nat) -> bool {
        &&& (match self {
            Terminator::Goto { target } => true,
            Terminator::SwitchInt { discr, targets } => discr.wf(local_count),
            Terminator::Return => true,
            Terminator::Call { func, args, destination, cleanup } => {
                &&& func.wf(local_count)
                &&& forall|k: int| 0 <= k < args@.len() ==> (#[trigger] args@[k]).wf(local_count)
                &&& (match destination {
                    Some(d) => d.0 < local_count,
                    None => true,
                })
            },
            Terminator::Assert { cond, expected, target, cleanup } => cond.wf(local_count),
        })
        &&& forall|k: int|
            0 <= k < self.successors_spec().len() ==> (#[trigger] self.successors_spec()[k])
                < block_count
    }

    /// The successor blocks as a vector, matching `successors_spec`.
    pub fn successors(&self) -> (r: Vec<usize>)
        ensures
            r@ == self.successors_spec(),
    {
        let mut r: Vec<usize> = Vec::new();
        match self {
            Terminator::Goto { target } => {
                r.push(*target);
            },
            Terminator::SwitchInt { discr, targets } => {
                let mut k: usize = 0;
                while k < targets.len()
                    invariant
                        k <= targets@.len(),
                        r@.len() == k,
                        forall|j: int| 0 <= j < k ==> (#[trigger] r@[j]) == targets@[j],
                    decreases targets@.len() - k,
                {
                    r.push(targets[k]);
                    k = k + 1;
                }
                proof {
                    assert(r@ =~= targets@);
                }
            },
            Terminator::Return => {},
            Terminator::Call { func, args, destination, cleanup } => {
                if let Some(d) = destination {
                    r.push(d.1);
                }
                if let Some(c) = cleanup {
                    r.push(*c);
                }
            },
            Terminator::Assert { cond, expected, target, cleanup } => {
                r.push(*target);
                if let Some(c) = cleanup {
                    r.push(*c);
                }
            },
        }
        proof {
            assert(r@ =~= self.successors_spec());
        }
        r
    }
}

/// A basic block: an ordered sequence of statements followed by exactly one
/// terminator.  Owned by the IR; the analysis only reads it.
pub struct BasicBlock {
    pub statements: Vec<Statement>,
    pub terminator: Terminator,
}

impl BasicBlock {
    /// Every statement works on locals within the local count.
    pub open spec fn statements_wf(self, local_count: nat) -> bool {
        forall|i: int|
            0 <= i < self.statements@.len() ==> (#[trigger] self.statements@[i]).wf(local_count)
    }

    pub open spec fn wf(self, local_count: nat, block_count: nat) -> bool {
        self.statements_wf(local_count) && self.terminator.wf(local_count, block_count)
    }
}

/// The control-flow graph of one function: its local count and its basic
/// blocks, block 0 being the entry block.
pub struct Body {
    pub local_count: usize,
    pub blocks: Vec<BasicBlock>,
}

impl Body {
    pub open spec fn wf(self) -> bool {
        &&& self.blocks@.len() > 0
        &&& forall|b: int|
            0 <= b < self.blocks@.len() ==> (#[trigger] self.blocks@[b]).wf(
                self.local_count as nat,
                self.blocks@.len(),
            )
    }
}

/// Is there a control-flow edge from block `p` to block `c`?
pub open spec fn has_edge(body: Body, p: int, c: int) -> bool {
    &&& 0 <= p < body.blocks@.len()
    &&& exists|k: int|
        0 <= k < body.blocks@[p].terminator.successors_spec().len()
            && (#[trigger] body.blocks@[p].terminator.successors_spec()[k]) as int == c
}

/// Decide whether block `p`'s terminator names `c` among its successors.
pub fn block_has_edge(body: &Body, p: usize, c: usize) -> (r: bool)
    requires
        p < body.blocks@.len(),
    ensures
        r == has_edge(*body, p as int, c as int),
{
    let succs = body.blocks[p].terminator.successors();
    let mut k: usize = 0;
    while k < succs.len()
        invariant
            k <= succs@.len(),
            succs@ == body.blocks@[p as int].terminator.successors_spec(),
            p < body.blocks@.len(),
            forall|j: int| 0 <= j < k ==> (#[trigger] succs@[j]) != c,
        decreases succs@.len() - k,
    {
        if succs[k] == c {
            return true;
        }
        k = k + 1;
    }
    false
}

} // verus!
