//! One-sided sequent: a turnstile with a multiset of formulas on its right,
//! admitting exchange for free.

use vstd::prelude::*;
use crate::ast::Ast;
use crate::bag::{ast_lt, bag_cmp_spec, lemma_bag_cmp_trans, lemma_bag_extensional, Bag};

verus! {

broadcast use vstd::multiset::group_multiset_axioms;

/// A turnstile symbol with comma-separated formulas on its right-hand side,
/// kept as a multiset, so exchange is built in.
#[derive(Debug, PartialEq, Eq, Hash)]
pub struct RhsOnlyWithExchange {
    /// Right side of the turnstile, on which comma means par.
    pub rhs: Bag,
}

impl View for RhsOnlyWithExchange {
    type V = vstd::multiset::Multiset<Ast>;

    open spec fn view(&self) -> vstd::multiset::Multiset<Ast> {
        self.rhs@
    }
}

impl Clone for RhsOnlyWithExchange {
    /// Deep copy; the copy is the same sequent.
    fn clone(&self) -> (r: Self)
        ensures
            r@ == self@,
            r.wf() == self.wf(),
            r.rhs.entry_seq() == self.rhs.entry_seq(),
    {
        RhsOnlyWithExchange { rhs: self.rhs.clone() }
    }
}

/// Total order on sequents: smaller first, then the entry order.
pub open spec fn sequent_cmp_spec(a: RhsOnlyWithExchange, b: RhsOnlyWithExchange) -> core::cmp::Ordering {
    bag_cmp_spec(a.rhs, b.rhs)
}

/// The strict order on sequents is transitive.
pub proof fn lemma_sequent_cmp_trans(a: RhsOnlyWithExchange, b: RhsOnlyWithExchange, c: RhsOnlyWithExchange)
    requires
        sequent_cmp_spec(a, b) == core::cmp::Ordering::Less,
        sequent_cmp_spec(b, c) == core::cmp::Ordering::Less,
    ensures
        sequent_cmp_spec(a, c) == core::cmp::Ordering::Less,
{
    lemma_bag_cmp_trans(a.rhs, b.rhs, c.rhs);
}

/// Swapping the sequents reverses their comparison.
pub proof fn lemma_sequent_cmp_flip(a: RhsOnlyWithExchange, b: RhsOnlyWithExchange)
    ensures
        (sequent_cmp_spec(a, b) == core::cmp::Ordering::Less) <==> (sequent_cmp_spec(b, a)
            == core::cmp::Ordering::Greater),
        (sequent_cmp_spec(a, b) == core::cmp::Ordering::Equal) <==> (sequent_cmp_spec(b, a)
            == core::cmp::Ordering::Equal),
{
    crate::bag::lemma_bag_cmp_flip(a.rhs, b.rhs);
}

/// A sequent no later than each of two others in turn is no later than the
/// second of them.
pub proof fn lemma_sequent_cmp_not_greater_trans(
    a: RhsOnlyWithExchange,
    b: RhsOnlyWithExchange,
    c: RhsOnlyWithExchange,
)
    requires
        sequent_cmp_spec(a, b) != core::cmp::Ordering::Greater,
        sequent_cmp_spec(b, c) != core::cmp::Ordering::Greater,
    ensures
        sequent_cmp_spec(a, c) != core::cmp::Ordering::Greater,
{
    crate::bag::lemma_bag_cmp_not_greater_trans(a.rhs, b.rhs, c.rhs);
}

/// Two well-formed sequents over the same multiset tie under the order.
pub proof fn lemma_sequent_extensional(a: RhsOnlyWithExchange, b: RhsOnlyWithExchange)
    requires
        a.wf(),
        b.wf(),
        a@ == b@,
    ensures
        sequent_cmp_spec(a, b) == core::cmp::Ordering::Equal,
        a.rhs.entry_seq() == b.rhs.entry_seq(),
{
    lemma_bag_extensional(a.rhs, b.rhs);
}

impl RhsOnlyWithExchange {
    /// Representation invariant, inherited from the multiset.
    pub open spec fn wf(&self) -> bool {
        self.rhs.wf()
    }

    /// New sequent with exactly this multiset on the right-hand side.
    #[must_use]
    pub fn new(rhs: Bag) -> (r: Self)
        ensures
            r.rhs == rhs,
            r@ == rhs@,
    {
        RhsOnlyWithExchange { rhs }
    }

    /// Sequent with nothing on the left and this formula on the right.
    #[must_use]
    pub fn from_rhs(rhs_element: Ast) -> (r: Self)
        ensures
            r.wf(),
            r@ =~= vstd::multiset::Multiset::singleton(rhs_element),
    {
        let mut rhs = Bag::new();
        let _count: usize = rhs.insert(rhs_element);
        RhsOnlyWithExchange { rhs }
    }

    /// Total number of comma-separated formulas.
    #[must_use]
    pub fn len(&self) -> (n: usize)
        requires
            self.wf(),
            self@.len() <= usize::MAX,
        ensures
            n == self@.len(),
    {
        self.rhs.len()
    }

    /// Whether any formula stands right of the turnstile.
    #[must_use]
    pub fn is_empty(&self) -> (r: bool)
        requires
            self.wf(),
        ensures
            r == (self@.len() == 0),
    {
        self.rhs.is_empty()
    }

    /// Whether the right-hand side holds this formula.
    pub fn rhs_contains(&self, element: &Ast) -> (r: bool)
        requires
            self.wf(),
        ensures
            r == self@.contains(*element),
    {
        self.rhs.contains(element)
    }

    /// Clone and insert each addition into the clone.
    #[must_use]
    pub fn with(&self, additions: Vec<Ast>) -> (r: Self)
        requires
            self.wf(),
            self@.len() + additions@.len() <= usize::MAX,
        ensures
            r.wf(),
            r@ =~= self@.add(additions@.to_multiset()),
            r@.len() == self@.len() + additions@.len(),
    {
        RhsOnlyWithExchange { rhs: self.rhs.with(additions) }
    }

    /// If the sequent has exactly one formula, view it without taking it out.
    #[must_use]
    pub fn only(&self) -> (r: Option<&Ast>)
        requires
            self.wf(),
        ensures
            match r {
                Some(e) => self@ =~= vstd::multiset::Multiset::singleton(*e),
                None => self@.len() != 1,
            },
    {
        self.rhs.only()
    }

    /// Take a formula out by decreasing its count if we can.
    pub fn take(&mut self, element: &Ast) -> (r: bool)
        requires
            old(self).wf(),
        ensures
            final(self).wf(),
            r == old(self)@.contains(*element),
            final(self)@ =~= if r {
                old(self)@.remove(*element)
            } else {
                old(self)@
            },
    {
        self.rhs.take(element)
    }

    /// Three-way comparison under the sequent order.
    pub fn compare(&self, other: &Self) -> (r: core::cmp::Ordering)
        requires
            self.wf(),
            other.wf(),
            self@.len() <= usize::MAX,
            other@.len() <= usize::MAX,
        ensures
            r == sequent_cmp_spec(*self, *other),
    {
        self.rhs.compare(&other.rhs)
    }

    /// Whether the two sequents hold the same formulas with the same counts.
    pub fn same(&self, other: &Self) -> (r: bool)
        requires
            self.wf(),
            other.wf(),
        ensures
            r == (self@ == other@),
    {
        self.rhs.same(&other.rhs)
    }

    /// For each distinct formula in the sequent, the pair of that formula
    /// and the rest of the sequent: the candidate principal formulas.
    pub fn sample(&self) -> (r: Vec<(Ast, Self)>)
        requires
            self.wf(),
        ensures
            r@.len() == self.rhs.entry_seq().len(),
            forall|i: int|
                0 <= i < r@.len() ==> {
                    &&& (#[trigger] r@[i]).0 == self.rhs.entry_seq()[i].0
                    &&& self@.count(r@[i].0) > 0
                    &&& r@[i].1.wf()
                    &&& r@[i].1@ == self@.remove(r@[i].0)
                    &&& r@[i].1@.insert(r@[i].0) =~= self@
                },
            forall|x: Ast|
                self@.count(x) > 0 ==> exists|i: int| 0 <= i < r@.len() && (#[trigger] r@[i]).0 == x,
            forall|i: int, j: int|
                0 <= i < j < r@.len() ==> ast_lt((#[trigger] r@[i]).0, (#[trigger] r@[j]).0),
    {
        proof {
            self.rhs.lemma_entry_counts();
        }
        let pairs = self.rhs.iter_unique();
        let n = pairs.len();
        let mut out: Vec<(Ast, Self)> = Vec::new();
        let mut i: usize = 0;
        while i < n
            invariant
                self.wf(),
                pairs@ == self.rhs.entry_seq(),
                n == pairs@.len(),
                i <= n,
                out@.len() == i,
                forall|j: int|
                    0 <= j < i ==> {
                        &&& (#[trigger] out@[j]).0 == self.rhs.entry_seq()[j].0
                        &&& self@.count(out@[j].0) > 0
                        &&& out@[j].1.wf()
                        &&& out@[j].1@ == self@.remove(out@[j].0)
                    },
            decreases n - i,
        {
            proof {
                self.rhs.lemma_entry_counts();
            }
            let key = pairs[i].0.clone();
            let mut ablation = self.rhs.clone();
            let _found: bool = ablation.take(&key);
            out.push((key, RhsOnlyWithExchange { rhs: ablation }));
            i += 1;
        }
        proof {
            self.rhs.lemma_entry_counts();
            self.rhs.lemma_entries_sorted();
            assert forall|x: Ast| self@.count(x) > 0 implies exists|i: int|
                0 <= i < out@.len() && (#[trigger] out@[i]).0 == x by {
                let j = choose|j: int|
                    0 <= j < self.rhs.entry_seq().len() && (#[trigger] self.rhs.entry_seq()[j]).0
                        == x;
                assert(out@[j].0 == x);
            }
            assert forall|i: int| 0 <= i < out@.len() implies (#[trigger] out@[i]).1@.insert(
                out@[i].0,
            ) =~= self@ by {
                assert(out@[i].1@ == self@.remove(out@[i].0));
            }
        }
        out
    }
}

} // verus!
