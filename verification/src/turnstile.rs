//! A turnstile symbol with comma-separated formulas on its right-hand side.
//!
//! This is the free-standing sequent value used when building one formula at
//! a time; the search itself runs over [`crate::sequent::RhsOnlyWithExchange`].

use vstd::prelude::*;
use crate::ast::Ast;
use crate::bag::Bag;

verus! {

broadcast use vstd::multiset::group_multiset_axioms;

/// A turnstile symbol with comma-separated formulas on its (right) side.
#[derive(Debug, PartialEq, Eq, Hash)]
pub struct Turnstile {
    /// Right side of the turnstile, on which comma means par.
    rhs: Bag,
}

impl View for Turnstile {
    type V = vstd::multiset::Multiset<Ast>;

    closed spec fn view(&self) -> vstd::multiset::Multiset<Ast> {
        self.rhs@
    }
}

impl Clone for Turnstile {
    /// Deep copy; the copy is the same turnstile.
    fn clone(&self) -> (r: Self)
        ensures
            r@ == self@,
            r.wf() == self.wf(),
    {
        Turnstile { rhs: self.rhs.clone() }
    }
}

impl Turnstile {
    /// Representation invariant, inherited from the multiset.
    pub closed spec fn wf(&self) -> bool {
        self.rhs.wf()
    }

    /// New turnstile from a formula that will go on its right-hand side.
    #[must_use]
    pub fn new(ast: Ast) -> (r: Self)
        ensures
            r.wf(),
            r@ =~= vstd::multiset::Multiset::singleton(ast),
    {
        let mut rhs = Bag::new();
        let _count: usize = rhs.insert(ast);
        Turnstile { rhs }
    }

    /// Total number of comma-separated formulas.
    #[must_use]
    pub fn len(&self) -> (n: usize)
        requires
            self.wf(),
            self@.len() <= usize::MAX,
        ensures
            n == self@.len(),
    {
        self.rhs.len()
    }

    /// Whether any formula stands on either side.
    #[must_use]
    pub fn is_empty(&self) -> (r: bool)
        requires
            self.wf(),
        ensures
            r == (self@.len() == 0),
    {
        self.rhs.is_empty()
    }

    /// Clone and insert each addition into the clone.
    #[must_use]
    pub fn with(&self, additions: Vec<Ast>) -> (r: Self)
        requires
            self.wf(),
            self@.len() + additions@.len() <= usize::MAX,
        ensures
            r.wf(),
            r@ =~= self@.add(additions@.to_multiset()),
            r@.len() == self@.len() + additions@.len(),
    {
        Turnstile { rhs: self.rhs.with(additions) }
    }

    /// If the turnstile has exactly one formula, view it without taking it
    /// out.
    #[must_use]
    pub fn only(&self) -> (r: Option<&Ast>)
        requires
            self.wf(),
        ensures
            match r {
                Some(e) => self@ =~= vstd::multiset::Multiset::singleton(*e),
                None => self@.len() != 1,
            },
    {
        self.rhs.only()
    }

    /// Take a formula out by decreasing its count if we can.
    pub fn take(&mut self, element: &Ast) -> (r: bool)
        requires
            old(self).wf(),
        ensures
            final(self).wf(),
            r == old(self)@.contains(*element),
            final(self)@ =~= if r {
                old(self)@.remove(*element)
            } else {
                old(self)@
            },
    {
        self.rhs.take(element)
    }

    /// The sorted `(formula, count)` entries behind the turnstile.
    pub closed spec fn entry_seq(&self) -> Seq<(Ast, usize)> {
        self.rhs.entry_seq()
    }

    /// Every formula behind the turnstile, duplicates repeated, in
    /// canonical order.
    #[must_use]
    pub fn iter_repeat(&self) -> (r: Vec<Ast>)
        ensures
            r@ == crate::bag::repeat_seq(self.entry_seq()),
            r@.len() == self@.len(),
    {
        self.rhs.iter_repeat()
    }
}

} // verus!
