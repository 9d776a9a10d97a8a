//! A named inference step: everything above one inference line.

use vstd::prelude::*;
use crate::ast::Ast;
use crate::sequent::RhsOnlyWithExchange;

verus! {

broadcast use {vstd::multiset::group_multiset_axioms, vstd::seq_lib::group_to_multiset_ensures};

/// A multiset holding exactly two values.
pub open spec fn two_mset(
    x: vstd::multiset::Multiset<Ast>,
    y: vstd::multiset::Multiset<Ast>,
) -> vstd::multiset::Multiset<vstd::multiset::Multiset<Ast>> {
    vstd::multiset::Multiset::empty().insert(x).insert(y)
}

/// A set of sequents above an inference line. Two rules are the same step
/// when their premises form the same multiset; the name is only a label.
#[derive(Debug)]
pub struct Rule {
    /// Name of the rule that allowed this inference.
    pub name: &'static str,
    /// Everything above the inference line: effectively next steps.
    pub above: Vec<RhsOnlyWithExchange>,
}

impl Rule {
    /// Representation invariant: each premise is well formed.
    pub open spec fn wf(&self) -> bool {
        forall|i: int| 0 <= i < self.above@.len() ==> (#[trigger] self.above@[i]).wf()
    }

    /// The premises in order, as multisets of formulas.
    pub open spec fn premises(&self) -> Seq<vstd::multiset::Multiset<Ast>> {
        self.above@.map_values(|s: RhsOnlyWithExchange| s@)
    }

    /// The premises as a multiset: the rule's identity.
    pub open spec fn premises_mset(&self) -> vstd::multiset::Multiset<vstd::multiset::Multiset<Ast>> {
        self.premises().to_multiset()
    }

    /// A rule with no premises closes a branch outright.
    pub open spec fn is_axiom(&self) -> bool {
        self.above@.len() == 0
    }

    /// Deep copy; the copy is the same step under the same name.
    pub fn duplicate(&self) -> (r: Self)
        ensures
            r.name == self.name,
            r.above@.len() == self.above@.len(),
            forall|i: int|
                0 <= i < r.above@.len() ==> (#[trigger] r.above@[i])@ == self.above@[i]@
                    && r.above@[i].wf() == self.above@[i].wf(),
            r.premises() == self.premises(),
            r.premises_mset() == self.premises_mset(),
            r.wf() == self.wf(),
    {
        let mut above: Vec<RhsOnlyWithExchange> = Vec::new();
        let n = self.above.len();
        let mut i: usize = 0;
        while i < n
            invariant
                n == self.above@.len(),
                i <= n,
                above@.len() == i,
                forall|j: int|
                    0 <= j < i ==> (#[trigger] above@[j])@ == self.above@[j]@ && above@[j].wf()
                        == self.above@[j].wf(),
            decreases n - i,
        {
            above.push(self.above[i].clone());
            i += 1;
        }
        let r = Rule { name: self.name, above };
        proof {
            assert(r.premises() =~= self.premises());
            if self.wf() {
                assert forall|j: int| 0 <= j < r.above@.len() implies (
                #[trigger] r.above@[j]).wf() by {
                    assert(self.above@[j].wf());
                }
            }
            if r.wf() {
                assert forall|j: int| 0 <= j < self.above@.len() implies (
                #[trigger] self.above@[j]).wf() by {
                    assert(r.above@[j].wf());
                }
            }
        }
        r
    }

    /// Whether the two rules are the same inference step: the same premises
    /// as multisets, names aside. Every rule of this calculus carries at
    /// most two premises.
    pub fn matches(&self, other: &Rule) -> (r: bool)
        requires
            self.wf(),
            other.wf(),
            self.above@.len() <= 2,
            other.above@.len() <= 2,
        ensures
            r == (self.premises_mset() == other.premises_mset()),
    {
        proof {
            lemma_premises_len(*self);
            lemma_premises_len(*other);
        }
        let na = self.above.len();
        let nb = other.above.len();
        if na != nb {
            return false;
        }
        if na == 0 {
            proof {
                assert(self.premises() =~= other.premises());
            }
            return true;
        }
        if na == 1 {
            proof {
                lemma_one_mset(*self);
                lemma_one_mset(*other);
            }
            return self.above[0].same(&other.above[0]);
        }
        proof {
            lemma_two_mset(*self);
            lemma_two_mset(*other);
        }
        let straight = self.above[0].same(&other.above[0]) && self.above[1].same(&other.above[1]);
        if straight {
            return true;
        }
        let crossed = self.above[0].same(&other.above[1]) && self.above[1].same(&other.above[0]);
        proof {
            lemma_two_mset_eq(
                self.above@[0]@,
                self.above@[1]@,
                other.above@[0]@,
                other.above@[1]@,
            );
        }
        crossed
    }
}

/// The number of premises is the size of the premise multiset.
pub proof fn lemma_premises_len(r: Rule)
    ensures
        r.premises().len() == r.above@.len(),
        r.premises_mset().len() == r.above@.len(),
{
}

/// A one-premise rule's multiset is a singleton.
pub proof fn lemma_one_mset(r: Rule)
    requires
        r.above@.len() == 1,
    ensures
        r.premises_mset() == vstd::multiset::Multiset::singleton(r.above@[0]@),
{
    assert(r.premises() =~= Seq::empty().push(r.above@[0]@));
    assert(Seq::<vstd::multiset::Multiset<Ast>>::empty().push(r.above@[0]@).to_multiset()
        =~= vstd::multiset::Multiset::singleton(r.above@[0]@)) by {
        assert(Seq::<vstd::multiset::Multiset<Ast>>::empty().to_multiset()
            =~= vstd::multiset::Multiset::empty());
    }
}

/// A two-premise rule's multiset is the pair of its premises.
pub proof fn lemma_two_mset(r: Rule)
    requires
        r.above@.len() == 2,
    ensures
        r.premises_mset() == two_mset(r.above@[0]@, r.above@[1]@),
{
    assert(r.premises() =~= Seq::empty().push(r.above@[0]@).push(r.above@[1]@));
    assert(Seq::<vstd::multiset::Multiset<Ast>>::empty().to_multiset()
        =~= vstd::multiset::Multiset::empty());
    assert(Seq::<vstd::multiset::Multiset<Ast>>::empty().push(r.above@[0]@).to_multiset()
        =~= vstd::multiset::Multiset::empty().insert(r.above@[0]@));
    assert(r.premises().to_multiset() =~= two_mset(r.above@[0]@, r.above@[1]@));
}

/// Two two-element multisets are equal exactly when the elements match
/// straight or crossed.
pub proof fn lemma_two_mset_eq(
    x: vstd::multiset::Multiset<Ast>,
    y: vstd::multiset::Multiset<Ast>,
    u: vstd::multiset::Multiset<Ast>,
    v: vstd::multiset::Multiset<Ast>,
)
    ensures
        (two_mset(x, y) == two_mset(u, v)) <==> ((x == u && y == v) || (x == v && y == u)),
{
    if (x == u && y == v) || (x == v && y == u) {
        assert(two_mset(x, y) =~= two_mset(u, v));
    }
    if two_mset(x, y) == two_mset(u, v) {
        assert(two_mset(x, y).count(x) >= 1);
        assert(two_mset(u, v).count(x) >= 1);
        if x != u && x != v {
            assert(two_mset(u, v).count(x) == 0);
        }
        if x == u {
            if y != v {
                assert(two_mset(x, y).count(y) != two_mset(u, v).count(y));
            }
        } else {
            if y != u {
                assert(two_mset(x, y).count(y) != two_mset(u, v).count(y));
            }
        }
    }
}

} // verus!
