//! The bit-vector domain: a set of possibly-tainted locals at a program point.

use vstd::pervasive::VecAdditionalExecFns;
use vstd::prelude::*;

verus! {

/// The abstract state with all locals clean: the lattice bottom.
pub open spec fn all_clean(n: nat) -> Seq<bool> {
    Seq::new(n, |l: int| false)
}

/// Pointwise union of two states of equal size: the join of the may-analysis.
pub open spec fn seq_join(a: Seq<bool>, b: Seq<bool>) -> Seq<bool> {
    Seq::new(a.len(), |l: int| a[l] || b[l])
}

/// Lattice order: `a` is below `b` when every local tainted in `a` is tainted in `b`.
pub open spec fn seq_le(a: Seq<bool>, b: Seq<bool>) -> bool {
    a.len() == b.len() && forall|l: int| 0 <= l < a.len() && a[l] ==> b[l]
}

/// Number of tainted locals in a state; the potential that bounds the
/// fixed-point iteration.
pub open spec fn count_true(s: Seq<bool>) -> nat
    decreases s.len(),
{
    if s.len() == 0 {
        0
    } else {
        count_true(s.drop_last()) + (if s.last() {
            1nat
        } else {
            0nat
        })
    }
}

/// A state never taints more locals than it has bits.
pub proof fn lemma_count_true_le(s: Seq<bool>)
    ensures
        count_true(s) <= s.len(),
    decreases s.len(),
{
    if s.len() > 0 {
        lemma_count_true_le(s.drop_last());
    }
}

/// The potential is monotone: a state below another taints no more locals.
pub proof fn lemma_count_true_mono(a: Seq<bool>, b: Seq<bool>)
    requires
        seq_le(a, b),
    ensures
        count_true(a) <= count_true(b),
    decreases a.len(),
{
    if a.len() > 0 {
        assert(seq_le(a.drop_last(), b.drop_last()));
        lemma_count_true_mono(a.drop_last(), b.drop_last());
    }
}

/// The potential is strictly monotone: a state strictly below another
/// taints strictly fewer locals.
pub proof fn lemma_count_true_strict(a: Seq<bool>, b: Seq<bool>)
    requires
        seq_le(a, b),
        a != b,
    ensures
        count_true(a) < count_true(b),
    decreases a.len(),
{
    assert(exists|l: int| 0 <= l < a.len() && a[l] != b[l]) by {
        if forall|l: int| 0 <= l < a.len() ==> #[trigger] a[l] == b[l] {
            assert(a =~= b);
        }
    }
    let l = choose|l: int| 0 <= l < a.len() && a[l] != b[l];
    if l == a.len() - 1 {
        lemma_count_true_mono(a.drop_last(), b.drop_last());
    } else {
        assert(a.drop_last()[l] != b.drop_last()[l]);
        assert(a.drop_last() != b.drop_last());
        assert(seq_le(a.drop_last(), b.drop_last()));
        lemma_count_true_strict(a.drop_last(), b.drop_last());
    }
}

/// A set of local-variable indices, backed by a bit vector sized to the
/// function's local count.  Membership means "may be tainted"; the empty set
/// is bottom, i.e. definitely untainted.  The size is fixed at construction
/// and every operation stays within `[0, local_count)`.
pub struct TaintSet {
    bits: Vec<bool>,
}

impl View for TaintSet {
    type V = Seq<bool>;

    closed spec fn view(&self) -> Seq<bool> {
        self.bits@
    }
}

impl Clone for TaintSet {
    fn clone(&self) -> (r: Self)
        ensures
            r@ == self@,
    {
        let mut bits: Vec<bool> = Vec::new();
        let mut l: usize = 0;
        while l < self.bits.len()
            invariant
                l <= self.bits.len(),
                bits@.len() == l,
                forall|j: int| 0 <= j < l ==> bits@[j] == self.bits@[j],
            decreases self.bits.len() - l,
        {
            bits.push(self.bits[l]);
            l = l + 1;
        }
        proof {
            assert(bits@ =~= self.bits@);
        }
        TaintSet { bits }
    }
}

impl TaintSet {
    /// The empty set over `n` locals: bottom, every local definitely untainted.
    pub fn bottom(n: usize) -> (r: TaintSet)
        ensures
            r@ == all_clean(n as nat),
    {
        let mut bits: Vec<bool> = Vec::new();
        let mut l: usize = 0;
        while l < n
            invariant
                l <= n,
                bits@.len() == l,
                forall|j: int| 0 <= j < l ==> !bits@[j],
            decreases n - l,
        {
            bits.push(false);
            l = l + 1;
        }
        proof {
            assert(bits@ =~= all_clean(n as nat));
        }
        TaintSet { bits }
    }

    /// Number of locals the set is sized for.
    pub fn len(&self) -> (n: usize)
        ensures
            n == self@.len(),
    {
        self.bits.len()
    }

    /// Membership test: may `local` be tainted here?
    pub fn contains(&self, local: usize) -> (r: bool)
        requires
            local < self@.len(),
        ensures
            r == self@[local as int],
    {
        self.bits[local]
    }

    /// Mark `local` as possibly tainted.
    pub fn set(&mut self, local: usize)
        requires
            local < old(self)@.len(),
        ensures
            final(self)@ == old(self)@.update(local as int, true),
    {
        self.bits.set(local, true);
    }

    /// Mark `local` as definitely untainted.
    pub fn clear(&mut self, local: usize)
        requires
            local < old(self)@.len(),
        ensures
            final(self)@ == old(self)@.update(local as int, false),
    {
        self.bits.set(local, false);
    }

    /// In-place union with `other`: the join operator of the may-analysis.
    pub fn join(&mut self, other: &TaintSet)
        requires
            old(self)@.len() == other@.len(),
        ensures
            final(self)@ == seq_join(old(self)@, other@),
    {
        let n = self.bits.len();
        let ghost init: Seq<bool> = self@;
        let mut l: usize = 0;
        while l < n
            invariant
                l <= n,
                n == self@.len(),
                init.len() == n,
                self@.len() == other@.len(),
                forall|j: int| 0 <= j < l ==> (#[trigger] self@[j]) == (init[j] || other@[j]),
                forall|j: int| l <= j < n ==> (#[trigger] self@[j]) == init[j],
            decreases n - l,
        {
            if other.contains(l) {
                self.set(l);
            }
            l = l + 1;
        }
        proof {
            assert(self@ =~= seq_join(init, other@));
        }
    }

    /// Do the two sets taint exactly the same locals?
    pub fn equals(&self, other: &TaintSet) -> (r: bool)
        ensures
            r <==> self@ == other@,
    {
        if self.bits.len() != other.bits.len() {
            return false;
        }
        let n = self.bits.len();
        let mut l: usize = 0;
        while l < n
            invariant
                l <= n,
                n == self@.len(),
                self@.len() == other@.len(),
                forall|j: int| 0 <= j < l ==> self@[j] == other@[j],
            decreases n - l,
        {
            if self.bits[l] != other.bits[l] {
                return false;
            }
            l = l + 1;
        }
        proof {
            assert(self@ =~= other@);
        }
        true
    }
}

} // verus!
