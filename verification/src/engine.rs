//! The fixed-point engine: a forward worklist iteration over the CFG.

use crate::analysis::{
    block_transfer, lemma_block_transfer_bottom, lemma_block_transfer_monotone,
    lemma_stmts_transfer_len, MaybeTaintedLocals,
};
use crate::domain::{
    all_clean, count_true, lemma_count_true_le, lemma_count_true_strict, seq_le, TaintSet,
};
use crate::ir::{block_has_edge, has_edge, Body, Operand, Rvalue, Statement, Terminator};
use vstd::pervasive::VecAdditionalExecFns;
use vstd::prelude::*;

verus! {

/// The abstract states a vector of taint sets stands for.
pub open spec fn views_of(v: Seq<TaintSet>) -> Seq<Seq<bool>> {
    Seq::new(v.len(), |i: int| v[i]@)
}

/// Is local `l` tainted on entry to block `b`, given the exit states of all
/// blocks?  Exactly when it is seeded (entry block only) or tainted at the
/// exit of some predecessor: the join of the may-analysis is union.
pub open spec fn entry_bit(
    body: Body,
    seed: Seq<bool>,
    exits: Seq<Seq<bool>>,
    b: int,
    l: int,
) -> bool {
    (b == 0 && seed[l]) || exists|p: int| #[trigger] has_edge(body, p, b) && exits[p][l]
}

/// The entry state of block `b`: the join of its predecessors' exit states,
/// plus the seed for the entry block.
pub open spec fn entry_state_spec(
    body: Body,
    seed: Seq<bool>,
    exits: Seq<Seq<bool>>,
    b: int,
) -> Seq<bool> {
    Seq::new(body.local_count as nat, |l: int| entry_bit(body, seed, exits, b, l))
}

/// The dataflow equations: per-block states form a solution when every
/// block's entry state is the join of its predecessors' exits (seeded at the
/// entry block) and every block's exit state is its transfer applied to its
/// entry state.
pub open spec fn is_solution(
    body: Body,
    seed: Seq<bool>,
    entries: Seq<Seq<bool>>,
    exits: Seq<Seq<bool>>,
) -> bool {
    &&& entries.len() == body.blocks@.len()
    &&& exits.len() == body.blocks@.len()
    &&& forall|b: int|
        0 <= b < body.blocks@.len() ==> #[trigger] entries[b] == entry_state_spec(
            body,
            seed,
            exits,
            b,
        )
    &&& forall|b: int|
        0 <= b < body.blocks@.len() ==> #[trigger] exits[b] == block_transfer(
            body.blocks@[b],
            entries[b],
        )
}

/// A solution below every other solution in the lattice order: the fixed
/// point the engine computes.  Anything it reports tainted is tainted in
/// every solution of the equations, and nothing is reported tainted without
/// need.
pub open spec fn is_least_solution(
    body: Body,
    seed: Seq<bool>,
    entries: Seq<Seq<bool>>,
    exits: Seq<Seq<bool>>,
) -> bool {
    &&& is_solution(body, seed, entries, exits)
    &&& forall|en: Seq<Seq<bool>>, ex: Seq<Seq<bool>>|
        #[trigger] is_solution(body, seed, en, ex) ==> forall|b: int|
            0 <= b < body.blocks@.len() ==> seq_le(entries[b], #[trigger] en[b]) && seq_le(
                exits[b],
                ex[b],
            )
}

/// A statement the rule table does not cover: its effect is a conservative
/// no-op, which the engine reports rather than approximating silently.
pub open spec fn stmt_unsupported(stmt: Statement) -> bool {
    match stmt {
        Statement::Assign { target, rvalue } => match rvalue {
            Rvalue::Other => true,
            Rvalue::UnaryOp(op) => op is Constant,
            _ => false,
        },
        Statement::Other => false,
    }
}

/// A terminator whose taint effect is not modeled: a call's return value
/// neither inherits taint from the arguments nor introduces any.
pub open spec fn terminator_unsupported(term: Terminator) -> bool {
    term is Call
}

/// Does the body contain any construct the rule table treats as a
/// conservative no-op?
pub open spec fn body_unsupported(body: Body) -> bool {
    ||| exists|b: int, i: int|
        0 <= b < body.blocks@.len() && 0 <= i < body.blocks@[b].statements@.len()
            && stmt_unsupported(#[trigger] body.blocks@[b].statements@[i])
    ||| exists|b: int|
        0 <= b < body.blocks@.len() && terminator_unsupported(
            #[trigger] body.blocks@[b].terminator,
        )
}

/// Total number of tainted bits across all blocks' exit states: the
/// potential whose growth bounds the fixed-point iteration.
pub open spec fn total_count(v: Seq<Seq<bool>>) -> nat
    decreases v.len(),
{
    if v.len() == 0 {
        0
    } else {
        total_count(v.drop_last()) + count_true(v.last())
    }
}

pub proof fn lemma_total_count_le(v: Seq<Seq<bool>>, lc: nat)
    requires
        forall|i: int| 0 <= i < v.len() ==> (#[trigger] v[i]).len() == lc,
    ensures
        total_count(v) <= v.len() * lc,
    decreases v.len(),
{
    if v.len() > 0 {
        lemma_total_count_le(v.drop_last(), lc);
        lemma_count_true_le(v.last());
        assert((v.len() - 1) * lc + lc == v.len() * lc) by (nonlinear_arith);
    }
}

pub proof fn lemma_total_count_update(v: Seq<Seq<bool>>, b: int, s: Seq<bool>)
    requires
        0 <= b < v.len(),
    ensures
        total_count(v.update(b, s)) + count_true(v[b]) == total_count(v) + count_true(s),
    decreases v.len(),
{
    let w = v.update(b, s);
    if b == v.len() - 1 {
        assert(w.drop_last() =~= v.drop_last());
        assert(w.last() == s);
    } else {
        assert(w.drop_last() =~= v.drop_last().update(b, s));
        assert(w.last() == v.last());
        lemma_total_count_update(v.drop_last(), b, s);
    }
}

/// In any solution of the equations every per-block state is sized to the
/// local count.
pub proof fn lemma_solution_lens(
    body: Body,
    seed: Seq<bool>,
    entries: Seq<Seq<bool>>,
    exits: Seq<Seq<bool>>,
)
    requires
        body.wf(),
        is_solution(body, seed, entries, exits),
    ensures
        forall|b: int|
            0 <= b < body.blocks@.len() ==> (#[trigger] entries[b]).len() == body.local_count && (
            #[trigger] exits[b]).len() == body.local_count,
{
    assert forall|b: int|
        0 <= b < body.blocks@.len() implies (#[trigger] entries[b]).len() == body.local_count && (
    #[trigger] exits[b]).len() == body.local_count by {
        assert(entries[b] == entry_state_spec(body, seed, exits, b));
        lemma_stmts_transfer_len(body.blocks@[b].statements@, entries[b]);
    }
}

/// The join is monotone in the exit states it joins: larger predecessor
/// exits yield a larger entry state.
pub proof fn lemma_entry_spec_monotone(
    body: Body,
    seed: Seq<bool>,
    ex1: Seq<Seq<bool>>,
    ex2: Seq<Seq<bool>>,
    b: int,
)
    requires
        ex1.len() == body.blocks@.len(),
        ex2.len() == body.blocks@.len(),
        forall|p: int| 0 <= p < ex1.len() ==> (#[trigger] ex1[p]).len() == body.local_count,
        forall|p: int| 0 <= p < ex1.len() ==> seq_le(#[trigger] ex1[p], ex2[p]),
    ensures
        seq_le(entry_state_spec(body, seed, ex1, b), entry_state_spec(body, seed, ex2, b)),
{
    assert forall|l: int|
        0 <= l < body.local_count && entry_state_spec(body, seed, ex1, b)[l] implies
        entry_state_spec(body, seed, ex2, b)[l] by {
        if !(b == 0 && seed[l]) {
            let p = choose|p: int| #[trigger] has_edge(body, p, b) && ex1[p][l];
            assert(seq_le(ex1[p], ex2[p]));
            assert(ex2[p][l]);
            assert(entry_bit(body, seed, ex2, b, l));
        }
    }
}

/// Changing one block's exit state leaves the entry state of every
/// non-successor unchanged: the join of block `c` reads only the exits of
/// `c`'s predecessors.
pub proof fn lemma_entry_spec_unchanged(
    body: Body,
    seed: Seq<bool>,
    ex1: Seq<Seq<bool>>,
    ex2: Seq<Seq<bool>>,
    b: int,
    c: int,
)
    requires
        ex1.len() == body.blocks@.len(),
        ex2.len() == body.blocks@.len(),
        forall|p: int| 0 <= p < ex1.len() && p != b ==> #[trigger] ex1[p] == ex2[p],
        !has_edge(body, b, c),
    ensures
        entry_state_spec(body, seed, ex1, c) == entry_state_spec(body, seed, ex2, c),
{
    assert forall|l: int| 0 <= l < body.local_count implies entry_bit(body, seed, ex1, c, l)
        == entry_bit(body, seed, ex2, c, l) by {
        if entry_bit(body, seed, ex1, c, l) && !(c == 0 && seed[l]) {
            let p = choose|p: int| #[trigger] has_edge(body, p, c) && ex1[p][l];
            assert(p != b);
            assert(ex2[p][l]);
        }
        if entry_bit(body, seed, ex2, c, l) && !(c == 0 && seed[l]) {
            let p = choose|p: int| #[trigger] has_edge(body, p, c) && ex2[p][l];
            assert(p != b);
            assert(ex1[p][l]);
        }
    }
    assert(entry_state_spec(body, seed, ex1, c) =~= entry_state_spec(body, seed, ex2, c));
}

/// Law (join correctness at merge points): a local is tainted on entry to a
/// block exactly when it is seeded (entry block only) or tainted at the
/// exit of at least one predecessor.  Taint along a single incoming edge of
/// a merge block suffices; a local tainted along no incoming edge and not
/// seeded is untainted on entry.
pub proof fn lemma_join_at_merge(
    body: Body,
    seed: Seq<bool>,
    exits: Seq<Seq<bool>>,
    b: int,
    l: int,
)
    requires
        0 <= l < body.local_count,
    ensures
        entry_state_spec(body, seed, exits, b)[l] <==> ((b == 0 && seed[l]) || exists|p: int|
            #[trigger] has_edge(body, p, b) && exits[p][l]),
        forall|p: int|
            has_edge(body, p, b) && (#[trigger] exits[p])[l] ==> entry_state_spec(
                body,
                seed,
                exits,
                b,
            )[l],
        (!(b == 0 && seed[l]) && (forall|p: int| #[trigger] has_edge(body, p, b) ==> !exits[p][l]))
            ==> !entry_state_spec(body, seed, exits, b)[l],
{
}

/// Law (idempotence): the least solution is unique, so re-running the
/// fixed-point computation on an unchanged CFG and unchanged seed state
/// yields identical results.
pub proof fn lemma_least_solution_unique(
    body: Body,
    seed: Seq<bool>,
    en1: Seq<Seq<bool>>,
    ex1: Seq<Seq<bool>>,
    en2: Seq<Seq<bool>>,
    ex2: Seq<Seq<bool>>,
)
    requires
        is_least_solution(body, seed, en1, ex1),
        is_least_solution(body, seed, en2, ex2),
    ensures
        en1 == en2,
        ex1 == ex2,
{
    let n = body.blocks@.len() as int;
    assert forall|b: int| 0 <= b < n implies en1[b] == en2[b] && ex1[b] == ex2[b] by {
        assert(is_solution(body, seed, en2, ex2));
        assert(is_solution(body, seed, en1, ex1));
        assert(seq_le(en1[b], en2[b]) && seq_le(ex1[b], ex2[b]));
        assert(seq_le(en2[b], en1[b]) && seq_le(ex2[b], ex1[b]));
        assert(en1[b] =~= en2[b]);
        assert(ex1[b] =~= ex2[b]);
    }
    assert(en1 =~= en2);
    assert(ex1 =~= ex2);
}

/// Compute the entry state of block `b`: the join of the exit states of all
/// predecessors of `b`, seeded for the entry block.
fn compute_entry(body: &Body, exits: &Vec<TaintSet>, seed: &TaintSet, b: usize) -> (r: TaintSet)
    requires
        exits@.len() == body.blocks@.len(),
        seed@.len() == body.local_count,
        forall|p: int|
            0 <= p < exits@.len() ==> (#[trigger] exits@[p])@.len() == body.local_count,
        b < body.blocks@.len(),
    ensures
        r@ == entry_state_spec(*body, seed@, views_of(exits@), b as int),
{
    let lc = body.local_count;
    let mut acc: TaintSet;
    if b == 0 {
        acc = seed.clone();
    } else {
        acc = TaintSet::bottom(lc);
    }
    let mut p: usize = 0;
    while p < body.blocks.len()
        invariant
            p <= body.blocks@.len(),
            lc == body.local_count,
            b < body.blocks@.len(),
            exits@.len() == body.blocks@.len(),
            seed@.len() == lc,
            forall|q: int| 0 <= q < exits@.len() ==> (#[trigger] exits@[q])@.len() == lc,
            acc@.len() == lc,
            forall|l: int|
                0 <= l < lc ==> (#[trigger] acc@[l]) == ((b == 0 && seed@[l]) || exists|q: int|
                    0 <= q < p && #[trigger] has_edge(*body, q, b as int) && exits@[q]@[l]),
        decreases body.blocks@.len() - p,
    {
        let ghost prev: Seq<bool> = acc@;
        if block_has_edge(body, p, b) {
            acc.join(&exits[p]);
            proof {
                assert forall|l: int| 0 <= l < lc implies (#[trigger] acc@[l]) == ((b == 0
                    && seed@[l]) || exists|q: int|
                    0 <= q < p + 1 && #[trigger] has_edge(*body, q, b as int)
                        && exits@[q]@[l]) by {
                    if acc@[l] {
                        if prev[l] {
                            if !(b == 0 && seed@[l]) {
                                let q = choose|q: int|
                                    0 <= q < p && #[trigger] has_edge(*body, q, b as int)
                                        && exits@[q]@[l];
                                assert(0 <= q < p + 1 && has_edge(*body, q, b as int)
                                    && exits@[q]@[l]);
                            }
                        } else {
                            assert(exits@[p as int]@[l]);
                            assert(0 <= p < p + 1 && has_edge(*body, p as int, b as int)
                                && exits@[p as int]@[l]);
                        }
                    } else {
                        assert(!prev[l] && !exits@[p as int]@[l]);
                        if exists|q: int|
                            0 <= q < p + 1 && #[trigger] has_edge(*body, q, b as int)
                                && exits@[q]@[l] {
                            let q = choose|q: int|
                                0 <= q < p + 1 && #[trigger] has_edge(*body, q, b as int)
                                    && exits@[q]@[l];
                            assert(q < p ==> prev[l]);
                        }
                    }
                }
            }
        } else {
            proof {
                assert forall|l: int| 0 <= l < lc implies (#[trigger] acc@[l]) == ((b == 0
                    && seed@[l]) || exists|q: int|
                    0 <= q < p + 1 && #[trigger] has_edge(*body, q, b as int)
                        && exits@[q]@[l]) by {
                    if !acc@[l] {
                        if exists|q: int|
                            0 <= q < p + 1 && #[trigger] has_edge(*body, q, b as int)
                                && exits@[q]@[l] {
                            let q = choose|q: int|
                                0 <= q < p + 1 && #[trigger] has_edge(*body, q, b as int)
                                    && exits@[q]@[l];
                            assert(q != p);
                        }
                    }
                }
            }
        }
        p = p + 1;
    }
    proof {
        let n = body.blocks@.len() as int;
        assert forall|l: int| 0 <= l < lc implies (#[trigger] acc@[l]) == entry_bit(
            *body,
            seed@,
            views_of(exits@),
            b as int,
            l,
        ) by {
            if acc@[l] && !(b == 0 && seed@[l]) {
                let q = choose|q: int|
                    0 <= q < n && #[trigger] has_edge(*body, q, b as int) && exits@[q]@[l];
                assert(views_of(exits@)[q][l]);
            }
            if entry_bit(*body, seed@, views_of(exits@), b as int, l) && !(b == 0 && seed@[l]) {
                let q = choose|q: int|
                    #[trigger] has_edge(*body, q, b as int) && views_of(exits@)[q][l];
                assert(0 <= q < n && exits@[q]@[l]);
            }
        }
        assert(acc@ =~= entry_state_spec(*body, seed@, views_of(exits@), b as int));
    }
    acc
}

/// Decide whether one statement falls outside the rule table.
fn statement_is_unsupported(stmt: &Statement) -> (r: bool)
    ensures
        r == stmt_unsupported(*stmt),
{
    match stmt {
        Statement::Assign { target, rvalue } => match rvalue {
            Rvalue::Other => true,
            Rvalue::UnaryOp(op) => matches!(op, Operand::Constant),
            _ => false,
        },
        Statement::Other => false,
    }
}

/// Scan a body for constructs the rule table treats as conservative no-ops,
/// so a caller can audit the approximation instead of trusting it silently.
fn scan_unsupported(body: &Body) -> (r: bool)
    ensures
        r == body_unsupported(*body),
{
    let mut b: usize = 0;
    while b < body.blocks.len()
        invariant
            b <= body.blocks@.len(),
            forall|c: int, i: int|
                0 <= c < b && 0 <= i < body.blocks@[c].statements@.len() ==> !stmt_unsupported(
                    #[trigger] body.blocks@[c].statements@[i],
                ),
            forall|c: int|
                0 <= c < b ==> !terminator_unsupported((#[trigger] body.blocks@[c]).terminator),
        decreases body.blocks@.len() - b,
    {
        let block = &body.blocks[b];
        let mut i: usize = 0;
        while i < block.statements.len()
            invariant
                i <= block.statements@.len(),
                b < body.blocks@.len(),
                block == body.blocks@[b as int],
                forall|j: int|
                    0 <= j < i ==> !stmt_unsupported(#[trigger] block.statements@[j]),
            decreases block.statements@.len() - i,
        {
            if statement_is_unsupported(&block.statements[i]) {
                return true;
            }
            i = i + 1;
        }
        if matches!(&block.terminator, Terminator::Call { .. }) {
            return true;
        }
        b = b + 1;
    }
    false
}

/// Is block `c` somewhere in the worklist?
spec fn in_wl(w: Seq<usize>, c: int) -> bool {
    exists|k: int| 0 <= k < w.len() && (#[trigger] w[k]) as int == c
}

/// No block sits in the worklist twice.
spec fn wl_distinct(w: Seq<usize>) -> bool {
    forall|k1: int, k2: int| 0 <= k1 < k2 < w.len() ==> w[k1] != w[k2]
}

/// The complete result of one analysis run: for every block, the taint set
/// on entry and on exit, and a marker saying whether the body contained any
/// construct whose effect the rule table conservatively skips.
pub struct TaintAnalysis {
    pub entries: Vec<TaintSet>,
    pub exits: Vec<TaintSet>,
    pub unsupported: bool,
}

impl TaintAnalysis {
    pub open spec fn entry_view(&self) -> Seq<Seq<bool>> {
        views_of(self.entries@)
    }

    pub open spec fn exit_view(&self) -> Seq<Seq<bool>> {
        views_of(self.exits@)
    }

    pub fn block_count(&self) -> (n: usize)
        ensures
            n == self.entry_view().len(),
    {
        self.entries.len()
    }

    /// The taint set on entry to block `b`.
    pub fn entry_state(&self, b: usize) -> (r: &TaintSet)
        requires
            b < self.entry_view().len(),
        ensures
            r@ == self.entry_view()[b as int],
    {
        &self.entries[b]
    }

    /// The taint set on exit from block `b`.
    pub fn exit_state(&self, b: usize) -> (r: &TaintSet)
        requires
            b < self.exit_view().len(),
        ensures
            r@ == self.exit_view()[b as int],
    {
        &self.exits[b]
    }

    /// May `local` be tainted on entry to `block`?  The query the
    /// sink-checking pass uses to decide whether to raise a finding.
    pub fn is_possibly_tainted(&self, local: usize, block: usize) -> (r: bool)
        requires
            block < self.entry_view().len(),
            local < self.entry_view()[block as int].len(),
        ensures
            r == self.entry_view()[block as int][local as int],
    {
        self.entries[block].contains(local)
    }

    /// May `local` be tainted on exit from `block`?
    pub fn tainted_on_exit(&self, local: usize, block: usize) -> (r: bool)
        requires
            block < self.exit_view().len(),
            local < self.exit_view()[block as int].len(),
        ensures
            r == self.exit_view()[block as int][local as int],
    {
        self.exits[block].contains(local)
    }
}

impl MaybeTaintedLocals {
    /// Run the forward worklist iteration over `body` to its fixed point.
    ///
    /// Every block starts at bottom; `seed` gives the locals pre-tainted on
    /// entry to the entry block (bottom when no sources are known).  A
    /// popped block's entry state is recomputed as the join of its
    /// predecessors' exits, its statements and terminator are replayed, and
    /// its successors are re-queued whenever its exit state changed.  The
    /// result is the least solution of the dataflow equations: sound
    /// (anything missing here is clean in every solution) and as small as
    /// the equations allow.  Because the join only ever grows states within
    /// a lattice of `blocks * local_count` bits, the iteration terminates
    /// without any iteration cap.
    #[verifier::loop_isolation(false)]
    #[verifier::rlimit(40)]
    pub fn iterate_to_fixpoint(&self, body: &Body, seed: &TaintSet) -> (r: TaintAnalysis)
        requires
            body.wf(),
            seed@.len() == body.local_count,
        ensures
            is_least_solution(*body, seed@, r.entry_view(), r.exit_view()),
            r.unsupported == body_unsupported(*body),
            r.entry_view().len() == body.blocks@.len(),
            r.exit_view().len() == body.blocks@.len(),
            forall|c: int|
                0 <= c < body.blocks@.len() ==> (#[trigger] r.entry_view()[c]).len()
                    == body.local_count && r.exit_view()[c].len() == body.local_count,
    {
        let n = body.blocks.len();
        let lc = body.local_count;
        let mut entries: Vec<TaintSet> = Vec::new();
        let mut exits: Vec<TaintSet> = Vec::new();
        let mut queued: Vec<bool> = Vec::new();
        let mut i: usize = 0;
        while i < n
            invariant
                i <= n,
                entries@.len() == i,
                exits@.len() == i,
                queued@.len() == i,
                forall|c: int| 0 <= c < i ==> (#[trigger] entries@[c])@ == all_clean(lc as nat),
                forall|c: int| 0 <= c < i ==> (#[trigger] exits@[c])@ == all_clean(lc as nat),
                forall|c: int| 0 <= c < i ==> !(#[trigger] queued@[c]),
            decreases n - i,
        {
            entries.push(TaintSet::bottom(lc));
            exits.push(TaintSet::bottom(lc));
            queued.push(false);
            i = i + 1;
        }
        let mut worklist: Vec<usize> = Vec::new();
        worklist.push(0);
        queued.set(0, true);
        proof {
            assert forall|c: int|
                0 <= c < n implies ((#[trigger] queued@[c]) <==> in_wl(worklist@, c)) by {
                assert(worklist@.len() == 1 && worklist@[0] == 0usize);
                if c == 0 {
                    assert(worklist@[0] as int == c);
                } else {
                    if in_wl(worklist@, c) {
                        let k = choose|k: int|
                            0 <= k < worklist@.len() && (#[trigger] worklist@[k]) as int == c;
                        assert(k == 0);
                        assert(false);
                    }
                }
            }
            assert forall|c: int|
                0 <= c < n implies (#[trigger] exits@[c])@ == block_transfer(
                body.blocks@[c],
                entries@[c]@,
            ) by {
                lemma_block_transfer_bottom(body.blocks@[c], lc as nat);
            }
            assert forall|c: int|
                1 <= c < n implies entry_state_spec(*body, seed@, views_of(exits@), c)
                == all_clean(lc as nat) by {
                assert forall|l: int|
                    0 <= l < lc implies !entry_bit(*body, seed@, views_of(exits@), c, l) by {
                    if entry_bit(*body, seed@, views_of(exits@), c, l) {
                        let p = choose|p: int|
                            #[trigger] has_edge(*body, p, c) && views_of(exits@)[p][l];
                        assert(views_of(exits@)[p] == all_clean(lc as nat));
                    }
                }
                assert(entry_state_spec(*body, seed@, views_of(exits@), c) =~= all_clean(
                    lc as nat,
                ));
            }
            assert forall|en: Seq<Seq<bool>>, ex: Seq<Seq<bool>>|
                #[trigger] is_solution(*body, seed@, en, ex) implies (forall|c: int|
                0 <= c < n ==> seq_le(exits@[c]@, #[trigger] ex[c])) by {
                lemma_solution_lens(*body, seed@, en, ex);
                assert forall|c: int| 0 <= c < n implies seq_le(exits@[c]@, #[trigger] ex[c]) by {
                    assert(exits@[c]@ == all_clean(lc as nat));
                    assert(ex[c].len() == lc);
                }
            }
            lemma_total_count_le(views_of(exits@), lc as nat);
        }
        while worklist.len() > 0
            invariant
                entries@.len() == n,
                exits@.len() == n,
                queued@.len() == n,
                forall|c: int| 0 <= c < n ==> (#[trigger] entries@[c])@.len() == lc,
                forall|c: int| 0 <= c < n ==> (#[trigger] exits@[c])@.len() == lc,
                wl_distinct(worklist@),
                forall|k: int| 0 <= k < worklist@.len() ==> (#[trigger] worklist@[k]) < n,
                forall|c: int| 0 <= c < n ==> ((#[trigger] queued@[c]) <==> in_wl(worklist@, c)),
                forall|c: int|
                    0 <= c < n ==> (#[trigger] exits@[c])@ == block_transfer(
                        body.blocks@[c],
                        entries@[c]@,
                    ),
                forall|c: int|
                    0 <= c < n ==> seq_le(
                        (#[trigger] entries@[c])@,
                        entry_state_spec(*body, seed@, views_of(exits@), c),
                    ),
                forall|c: int|
                    0 <= c < n && !queued@[c] ==> (#[trigger] entries@[c])@ == entry_state_spec(
                        *body,
                        seed@,
                        views_of(exits@),
                        c,
                    ),
                forall|en: Seq<Seq<bool>>, ex: Seq<Seq<bool>>|
                    #[trigger] is_solution(*body, seed@, en, ex) ==> (forall|c: int|
                        0 <= c < n ==> seq_le(exits@[c]@, #[trigger] ex[c])),
                total_count(views_of(exits@)) <= n * lc,
            decreases n * lc - total_count(views_of(exits@)), worklist@.len(),
        {
            let ghost old_wl: Seq<usize> = worklist@;
            let ghost old_queued: Seq<bool> = queued@;
            let ghost old_exits_v: Seq<Seq<bool>> = views_of(exits@);
            let ghost old_entries_v: Seq<Seq<bool>> = views_of(entries@);
            let b = worklist.pop().unwrap();
            proof {
                assert(in_wl(old_wl, b as int)) by {
                    assert(old_wl[old_wl.len() - 1] == b);
                }
                assert((b as int) < n);
            }
            queued.set(b, false);
            proof {
                assert forall|c: int|
                    0 <= c < n implies ((#[trigger] queued@[c]) <==> in_wl(worklist@, c)) by {
                    if c == b as int {
                        if in_wl(worklist@, c) {
                            let k = choose|k: int|
                                0 <= k < worklist@.len() && (#[trigger] worklist@[k]) as int == c;
                            assert(old_wl[k] == old_wl[old_wl.len() - 1]);
                            assert(false);
                        }
                    } else {
                        if old_queued[c] {
                            let k = choose|k: int|
                                0 <= k < old_wl.len() && (#[trigger] old_wl[k]) as int == c;
                            assert(k != old_wl.len() - 1);
                            assert(worklist@[k] as int == c);
                        }
                        if in_wl(worklist@, c) {
                            let k = choose|k: int|
                                0 <= k < worklist@.len() && (#[trigger] worklist@[k]) as int == c;
                            assert(old_wl[k] as int == c);
                            assert(in_wl(old_wl, c));
                        }
                    }
                }
            }
            let new_entry = compute_entry(body, &exits, seed, b);
            let ghost ne: Seq<bool> = new_entry@;
            proof {
                assert(body.blocks@[b as int].wf(lc as nat, n as nat));
                assert(ne.len() == lc);
            }
            let new_exit = self.transfer_block(&body.blocks[b], new_entry.clone());
            let ghost nx: Seq<bool> = new_exit@;
            proof {
                assert(seq_le(entries@[b as int]@, ne));
                lemma_block_transfer_monotone(body.blocks@[b as int], entries@[b as int]@, ne);
                assert(seq_le(exits@[b as int]@, nx));
                lemma_stmts_transfer_len(body.blocks@[b as int].statements@, ne);
                assert(nx.len() == lc);
            }
            let changed = !new_exit.equals(&exits[b]);
            let ghost old_exit_b: Seq<bool> = exits@[b as int]@;
            entries.set(b, new_entry);
            proof {
                assert(views_of(entries@) =~= old_entries_v.update(b as int, ne));
            }
            if changed {
                proof {
                    lemma_count_true_strict(old_exit_b, nx);
                    lemma_total_count_update(old_exits_v, b as int, nx);
                }
                exits.set(b, new_exit);
                proof {
                    assert(views_of(exits@) =~= old_exits_v.update(b as int, nx));
                    assert(total_count(views_of(exits@)) > total_count(old_exits_v));
                    assert forall|c: int|
                        0 <= c < n implies (#[trigger] exits@[c])@.len() == lc by {}
                    lemma_total_count_le(views_of(exits@), lc as nat);
                    assert forall|p: int|
                        0 <= p < n implies seq_le(#[trigger] old_exits_v[p], views_of(exits@)[p]) by {
                        if p == b as int {
                            assert(seq_le(old_exit_b, nx));
                        } else {
                            assert(old_exits_v[p] == views_of(exits@)[p]);
                        }
                    }
                    assert forall|c: int|
                        0 <= c < n implies seq_le(
                        (#[trigger] entries@[c])@,
                        entry_state_spec(*body, seed@, views_of(exits@), c),
                    ) by {
                        lemma_entry_spec_monotone(
                            *body,
                            seed@,
                            old_exits_v,
                            views_of(exits@),
                            c,
                        );
                        assert(seq_le(entries@[c]@, entry_state_spec(*body, seed@, old_exits_v, c)));
                    }
                    assert forall|en: Seq<Seq<bool>>, ex: Seq<Seq<bool>>|
                        #[trigger] is_solution(*body, seed@, en, ex) implies (forall|c: int|
                        0 <= c < n ==> seq_le(exits@[c]@, #[trigger] ex[c])) by {
                        lemma_solution_lens(*body, seed@, en, ex);
                        assert forall|c: int|
                            0 <= c < n implies seq_le(exits@[c]@, #[trigger] ex[c]) by {
                            if c == b as int {
                                lemma_entry_spec_monotone(*body, seed@, old_exits_v, ex, b as int);
                                assert(en[b as int] == entry_state_spec(*body, seed@, ex, b as int));
                                assert(seq_le(ne, en[b as int]));
                                lemma_block_transfer_monotone(
                                    body.blocks@[b as int],
                                    ne,
                                    en[b as int],
                                );
                                assert(ex[b as int] == block_transfer(
                                    body.blocks@[b as int],
                                    en[b as int],
                                ));
                            } else {
                                assert(exits@[c]@ == old_exits_v[c]);
                            }
                        }
                    }
                }
                let succs = body.blocks[b].terminator.successors();
                proof {
                    assert forall|c: int|
                        0 <= c < n && !queued@[c] implies ((#[trigger] entries@[c])@
                        == entry_state_spec(*body, seed@, views_of(exits@), c) || exists|k2: int|
                        0 <= k2 < succs@.len() && (#[trigger] succs@[k2]) as int == c) by {
                        if !has_edge(*body, b as int, c) {
                            lemma_entry_spec_unchanged(
                                *body,
                                seed@,
                                old_exits_v,
                                views_of(exits@),
                                b as int,
                                c,
                            );
                        }
                    }
                }
                let mut k: usize = 0;
                while k < succs.len()
                    invariant
                        k <= succs@.len(),
                        succs@ == body.blocks@[b as int].terminator.successors_spec(),
                        (b as int) < n,
                        queued@.len() == n,
                        wl_distinct(worklist@),
                        forall|k1: int|
                            0 <= k1 < worklist@.len() ==> (#[trigger] worklist@[k1]) < n,
                        forall|c: int|
                            0 <= c < n ==> ((#[trigger] queued@[c]) <==> in_wl(worklist@, c)),
                        forall|c: int|
                            0 <= c < n && !queued@[c] ==> ((#[trigger] entries@[c])@
                                == entry_state_spec(*body, seed@, views_of(exits@), c) || exists|
                                k2: int,
                            |
                                k <= k2 < succs@.len() && (#[trigger] succs@[k2]) as int == c),
                    decreases succs@.len() - k,
                {
                    let s = succs[k];
                    proof {
                        assert(body.blocks@[b as int].terminator.wf(lc as nat, n as nat));
                        assert((s as int) < n);
                    }
                    let ghost mid_wl: Seq<usize> = worklist@;
                    let ghost mid_queued: Seq<bool> = queued@;
                    if !queued[s] {
                        worklist.push(s);
                        queued.set(s, true);
                        proof {
                            assert forall|c: int|
                                0 <= c < n implies ((#[trigger] queued@[c]) <==> in_wl(
                                worklist@,
                                c,
                            )) by {
                                if c == s as int {
                                    assert(worklist@[worklist@.len() - 1] as int == c);
                                } else {
                                    if mid_queued[c] {
                                        let k1 = choose|k1: int|
                                            0 <= k1 < mid_wl.len() && (#[trigger] mid_wl[k1]) as int
                                                == c;
                                        assert(worklist@[k1] as int == c);
                                    }
                                    if in_wl(worklist@, c) {
                                        let k1 = choose|k1: int|
                                            0 <= k1 < worklist@.len() && (#[trigger] worklist@[k1]) as int
                                                == c;
                                        assert(k1 < mid_wl.len());
                                        assert(in_wl(mid_wl, c));
                                    }
                                }
                            }
                            assert(wl_distinct(worklist@)) by {
                                assert(!in_wl(mid_wl, s as int));
                                assert forall|k1: int, k2: int|
                                    0 <= k1 < k2 < worklist@.len() implies worklist@[k1]
                                    != worklist@[k2] by {
                                    if k2 == worklist@.len() - 1 {
                                        if worklist@[k1] == s {
                                            assert(mid_wl[k1] as int == s as int);
                                            assert(in_wl(mid_wl, s as int));
                                        }
                                    }
                                }
                            }
                        }
                    }
                    k = k + 1;
                }
            } else {
                proof {
                    assert(nx == old_exit_b);
                    assert(entries@[b as int]@ == entry_state_spec(
                        *body,
                        seed@,
                        views_of(exits@),
                        b as int,
                    ));
                }
            }
        }
        let unsupported = scan_unsupported(body);
        let result = TaintAnalysis { entries, exits, unsupported };
        proof {
            assert forall|c: int| 0 <= c < n implies !queued@[c] by {
                if queued@[c] {
                    let k = choose|k: int|
                        0 <= k < worklist@.len() && (#[trigger] worklist@[k]) as int == c;
                }
            }
            assert(is_solution(*body, seed@, result.entry_view(), result.exit_view())) by {
                assert forall|c: int|
                    0 <= c < n implies #[trigger] result.entry_view()[c] == entry_state_spec(
                    *body,
                    seed@,
                    result.exit_view(),
                    c,
                ) by {
                    assert(views_of(exits@) =~= result.exit_view());
                    assert(entries@[c]@ == entry_state_spec(*body, seed@, views_of(exits@), c));
                }
                assert forall|c: int|
                    0 <= c < n implies #[trigger] result.exit_view()[c] == block_transfer(
                    body.blocks@[c],
                    result.entry_view()[c],
                ) by {
                    assert(exits@[c]@ == block_transfer(body.blocks@[c], entries@[c]@));
                }
            }
            assert forall|en: Seq<Seq<bool>>, ex: Seq<Seq<bool>>|
                #[trigger] is_solution(*body, seed@, en, ex) implies (forall|c: int|
                0 <= c < body.blocks@.len() ==> seq_le(result.entry_view()[c], #[trigger] en[c])
                    && seq_le(result.exit_view()[c], ex[c])) by {
                lemma_solution_lens(*body, seed@, en, ex);
                assert forall|c: int|
                    0 <= c < body.blocks@.len() implies seq_le(
                    result.entry_view()[c],
                    #[trigger] en[c],
                ) && seq_le(result.exit_view()[c], ex[c]) by {
                    assert(seq_le(exits@[c]@, ex[c]));
                    lemma_entry_spec_monotone(*body, seed@, views_of(exits@), ex, c);
                    assert(en[c] == entry_state_spec(*body, seed@, ex, c));
                    assert(entries@[c]@ == entry_state_spec(*body, seed@, views_of(exits@), c));
                }
            }
        }
        result
    }
}

} // verus!
