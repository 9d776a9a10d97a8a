//! A pending search node: a candidate rule together with the sequent below
//! the inference line that it would prove.

use vstd::prelude::*;
use crate::ast::Ast;
use crate::derivation::{candidate_ok, SequentContent};
use crate::rule::Rule;
use crate::sequent::RhsOnlyWithExchange;
use crate::thunk::Thunk;

verus! {

/// Whether the rule is a legal inference step concluding the sequent: some
/// way of choosing a principal formula out of it admits these premises.
pub open spec fn rule_fits(below: SequentContent, rule: Rule) -> bool {
    exists|p: Ast, ctx: SequentContent|
        below == ctx.insert(p) && candidate_ok(p, ctx, rule.premises_mset())
}

/// A set of sequents above an inference line plus the sequent below it.
/// Two inferences are the same when their rules are: the sequent below is
/// deliberately left out of the comparison, so that distinct conclusions
/// sharing the same premises collapse into one pending node.
#[derive(Debug)]
pub struct Inference {
    /// Everything above the inference line plus the name of the rule that
    /// allowed the inference.
    pub rule: Rule,
    /// If the premises are all proven, this sequent immediately follows.
    pub below: RhsOnlyWithExchange,
}

impl Inference {
    /// Deep copy; the copy is the same pending node.
    pub fn duplicate(&self) -> (r: Self)
        ensures
            r.rule.name == self.rule.name,
            r.rule.premises() == self.rule.premises(),
            r.rule.premises_mset() == self.rule.premises_mset(),
            r.rule.above@.len() == self.rule.above@.len(),
            forall|j: int|
                0 <= j < r.rule.above@.len() ==> (#[trigger] r.rule.above@[j])@
                    == self.rule.above@[j]@,
            r.rule.wf() == self.rule.wf(),
            r.below@ == self.below@,
            r.below.wf() == self.below.wf(),
    {
        Inference { rule: self.rule.duplicate(), below: self.below.clone() }
    }

    /// Whether this pending node is the same as another: the same premises,
    /// as multisets, whatever stands below either line.
    pub fn matches(&self, other: &Inference) -> (r: bool)
        requires
            self.rule.wf(),
            other.rule.wf(),
            self.rule.above@.len() <= 2,
            other.rule.above@.len() <= 2,
        ensures
            r == (self.rule.premises_mset() == other.rule.premises_mset()),
    {
        self.rule.matches(&other.rule)
    }

    /// Check if we have proofs already cached for each sequent above the
    /// inference line.
    pub fn proven(&self, thunk: &Thunk) -> (r: bool)
        requires
            thunk.wf(),
            self.rule.wf(),
            forall|j: int|
                0 <= j < self.rule.above@.len() ==> thunk.map().contains_key(
                    (#[trigger] self.rule.above@[j])@,
                ),
        ensures
            r == forall|j: int|
                0 <= j < self.rule.above@.len() ==> thunk.map()[(#[trigger] self.rule.above@[j])@]
                    is Some,
    {
        let n = self.rule.above.len();
        let mut j: usize = 0;
        while j < n
            invariant
                thunk.wf(),
                self.rule.wf(),
                forall|k: int|
                    0 <= k < self.rule.above@.len() ==> thunk.map().contains_key(
                        (#[trigger] self.rule.above@[k])@,
                    ),
                n == self.rule.above@.len(),
                j <= n,
                forall|k: int|
                    0 <= k < j ==> thunk.map()[(#[trigger] self.rule.above@[k])@] is Some,
            decreases n - j,
        {
            let cached = thunk.proven(&self.rule.above[j]);
            if cached.is_none() {
                return false;
            }
            j += 1;
        }
        true
    }
}

} // verus!
