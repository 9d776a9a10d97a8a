//! Proof as a tree rooted at the bottom (the original expression).

use vstd::prelude::*;
use crate::rule::Rule;
use crate::sequent::RhsOnlyWithExchange;
use crate::thunk::Thunk;

verus! {

broadcast use vstd::std_specs::vec::axiom_vec_index_decreases;

/// Proof as a tree rooted at the bottom (the original expression).
#[derive(Debug)]
pub struct Tree {
    /// Proof of each sequent above the inference line.
    pub above: Vec<Tree>,
    /// Name of the rule that allowed this inference.
    pub rule: &'static str,
    /// Sequent below the inference line (proven by those above).
    pub below: RhsOnlyWithExchange,
}

impl Tree {
    /// Every sequent in the tree is well formed.
    pub open spec fn wf(&self) -> bool
        decreases *self,
    {
        &&& self.below.wf()
        &&& forall|i: int| 0 <= i < self.above@.len() ==> (#[trigger] self.above@[i]).wf()
    }

    /// Whether two trees are the same derivation: the same sequents, rule
    /// names and branching everywhere.
    pub open spec fn equiv(self, other: Tree) -> bool
        decreases self,
    {
        &&& self.below@ == other.below@
        &&& self.rule@ == other.rule@
        &&& self.above@.len() == other.above@.len()
        &&& forall|i: int|
            0 <= i < self.above@.len() ==> (#[trigger] self.above@[i]).equiv(other.above@[i])
    }

    /// Decide whether two trees are the same derivation.
    pub fn same_shape(&self, other: &Tree) -> (r: bool)
        requires
            self.wf(),
            other.wf(),
        ensures
            r == self.equiv(*other),
        decreases *self,
    {
        if !self.below.same(&other.below) {
            return false;
        }
        let mine = String::from_str(self.rule);
        let theirs = String::from_str(other.rule);
        if !(mine == theirs) {
            return false;
        }
        let n = self.above.len();
        if n != other.above.len() {
            return false;
        }
        let mut i: usize = 0;
        while i < n
            invariant
                self.wf(),
                other.wf(),
                n == self.above@.len(),
                n == other.above@.len(),
                self.below@ == other.below@,
                self.rule@ == other.rule@,
                i <= n,
                forall|j: int| 0 <= j < i ==> (#[trigger] self.above@[j]).equiv(other.above@[j]),
            decreases n - i,
        {
            if !self.above[i].same_shape(&other.above[i]) {
                return false;
            }
            i += 1;
        }
        true
    }

    /// Chain cached proof steps together into a single proof: pull each
    /// premise's stored rule out of the cache and recurse; a premise whose
    /// proof was consumed earlier, or was never stored, becomes a leaf
    /// labelled "(already proven)". The queue and the goal are untouched;
    /// the record only shrinks, and surviving entries keep their rules.
    pub fn connect(below: RhsOnlyWithExchange, rule: &'static str, next: Vec<RhsOnlyWithExchange>, thunk: &mut Thunk) -> (r: Tree)
        requires
            old(thunk).wf(),
            below.wf(),
            forall|i: int| 0 <= i < next@.len() ==> (#[trigger] next@[i]).wf(),
        ensures
            final(thunk).wf(),
            final(thunk).size() <= old(thunk).size(),
            final(thunk).goal() == old(thunk).goal(),
            final(thunk).queue_view() == old(thunk).queue_view(),
            forall|kk: vstd::multiset::Multiset<crate::ast::Ast>|
                #[trigger] final(thunk).map().contains_key(kk) ==> old(thunk).map().contains_key(
                    kk,
                ) && final(thunk).map()[kk] == old(thunk).map()[kk],
            r.wf(),
            r.below == below,
            r.rule == rule,
            r.above@.len() == next@.len(),
            forall|i: int| 0 <= i < next@.len() ==> (#[trigger] r.above@[i]).below@ == next@[i]@,
            forall|i: int|
                0 <= i < next@.len() ==> {
                    ||| ((#[trigger] r.above@[i]).rule@ == "(already proven)"@
                        && r.above@[i].above@.len() == 0)
                    ||| {
                        &&& old(thunk).map().contains_key(next@[i]@)
                        &&& old(thunk).map()[next@[i]@] matches Some(stored) && r.above@[i].rule
                            == stored.name && r.above@[i].above@.len() == stored.above@.len() && (
                        forall|j: int|
                            0 <= j < stored.above@.len() ==> (
                            #[trigger] r.above@[i].above@[j]).below@ == stored.above@[j]@)
                    }
                },
        decreases old(thunk).size(), next@.len(),
    {
        let mut children: Vec<Tree> = Vec::new();
        let n = next.len();
        let mut i: usize = 0;
        while i < n
            invariant
                thunk.wf(),
                thunk.size() <= old(thunk).size(),
                thunk.goal() == old(thunk).goal(),
                thunk.queue_view() == old(thunk).queue_view(),
                forall|kk: vstd::multiset::Multiset<crate::ast::Ast>|
                    #[trigger] thunk.map().contains_key(kk) ==> old(thunk).map().contains_key(kk)
                        && thunk.map()[kk] == old(thunk).map()[kk],
                n == next@.len(),
                i <= n,
                forall|k: int| 0 <= k < next@.len() ==> (#[trigger] next@[k]).wf(),
                children@.len() == i,
                forall|k: int|
                    0 <= k < i ==> (#[trigger] children@[k]).wf() && children@[k].below@
                        == next@[k]@,
                forall|k: int|
                    0 <= k < i ==> {
                        ||| ((#[trigger] children@[k]).rule@ == "(already proven)"@
                            && children@[k].above@.len() == 0)
                        ||| {
                            &&& old(thunk).map().contains_key(next@[k]@)
                            &&& old(thunk).map()[next@[k]@] matches Some(stored) && children@[k].rule
                                == stored.name && children@[k].above@.len()
                                == stored.above@.len() && (forall|j: int|
                                0 <= j < stored.above@.len() ==> (
                                #[trigger] children@[k].above@[j]).below@ == stored.above@[j]@)
                        }
                    },
            decreases n - i,
        {
            let premise = next[i].clone();
            let ghost size_before = thunk.size();
            let stored = thunk.yank(&premise);
            match stored {
                None => {
                    children.push(
                        Tree { above: Vec::new(), rule: "(already proven)", below: premise },
                    );
                }
                Some(found) => {
                    proof {
                        assert(thunk.size() < size_before);
                        // the record only ever shrinks, so the rule this
                        // premise held now was its rule at entry
                        assert(old(thunk).map().contains_key(next@[i as int]@));
                        assert(old(thunk).map()[next@[i as int]@] == Some(found));
                    }
                    let ghost found_rule = found;
                    let child = Tree::connect(premise, found.name, found.above, thunk);
                    proof {
                        assert(child.above@.len() == found_rule.above@.len());
                    }
                    children.push(child);
                }
            }
            i += 1;
        }
        Tree { above: children, rule, below }
    }
}

} // verus!
