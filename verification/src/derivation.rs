//! What counts as a legal inference step, and derivability: the ground truth
//! that the search engine is proved sound against.

use vstd::prelude::*;
use crate::ast::{de_morgan_spec, Ast};
use crate::rule::two_mset;

verus! {

broadcast use vstd::multiset::group_multiset_axioms;

/// Shorthand for the multiset of formulas a sequent denotes.
pub type SequentContent = vstd::multiset::Multiset<Ast>;

/// Shorthand for a multiset of premise sequents.
pub type PremiseContent = vstd::multiset::Multiset<vstd::multiset::Multiset<Ast>>;

/// One premise above the line.
pub open spec fn one_premise(q: SequentContent) -> PremiseContent {
    vstd::multiset::Multiset::singleton(q)
}

/// Whether `prems` is the premise multiset of a legal inference whose
/// conclusion is `ctx` plus one occurrence of the principal formula `p`.
/// One disjunct per rule of the one-sided calculus.
pub open spec fn candidate_ok(p: Ast, ctx: SequentContent, prems: PremiseContent) -> bool {
    ||| (ctx.contains(Ast::Top) && prems == vstd::multiset::Multiset::<SequentContent>::empty())
    ||| (ctx == vstd::multiset::Multiset::singleton(Ast::Dual(Box::new(p))) && prems
        == vstd::multiset::Multiset::<SequentContent>::empty())
    ||| structural_ok(p, ctx, prems)
}

/// The per-connective structural rules, keyed by the principal formula.
pub open spec fn structural_ok(p: Ast, ctx: SequentContent, prems: PremiseContent) -> bool {
    match p {
        Ast::Top => prems == vstd::multiset::Multiset::<SequentContent>::empty(),
        Ast::One => ctx.len() == 0 && prems == vstd::multiset::Multiset::<
            SequentContent,
        >::empty(),
        Ast::Bottom => prems == one_premise(ctx),
        Ast::Zero => false,
        Ast::Value(_) => false,
        Ast::Bang(a) => exists|q: Ast| ctx == vstd::multiset::Multiset::singleton(Ast::Quest(Box::new(q)))
            && prems == one_premise(ctx.insert(*a)),
        Ast::Quest(a) => {
            ||| prems == one_premise(ctx)
            ||| prems == one_premise(ctx.insert(*a))
            ||| prems == one_premise(ctx.insert(Ast::Quest(a)).insert(Ast::Quest(a)))
        },
        Ast::Dual(d) => !(*d is Value) && prems == one_premise(ctx.insert(de_morgan_spec(*d))),
        Ast::Par(a, b) => prems == one_premise(ctx.insert(*a).insert(*b)),
        Ast::With(a, b) => prems == two_mset(ctx.insert(*a), ctx.insert(*b)),
        Ast::Plus(a, b) => {
            ||| prems == one_premise(ctx.insert(*a))
            ||| prems == one_premise(ctx.insert(*b))
        },
        Ast::Times(a, b) => exists|l: SequentContent, r: SequentContent|
            ctx == l.add(r) && prems == two_mset(l.insert(*a), r.insert(*b)),
    }
}

/// Derivability with a height bound: the sequent is the conclusion of a
/// legal inference whose premises are all derivable in fewer steps.
pub open spec fn derives(s: SequentContent, n: nat) -> bool
    decreases n,
{
    n > 0 && exists|p: Ast, ctx: SequentContent, prems: PremiseContent|
        {
            &&& s == ctx.insert(p)
            &&& candidate_ok(p, ctx, prems)
            &&& forall|q: SequentContent| prems.contains(q) ==> derives(q, (n - 1) as nat)
        }
}

/// Derivability: some finite derivation ends in the sequent.
pub open spec fn derivable(s: SequentContent) -> bool {
    exists|n: nat| derives(s, n)
}

/// A derivation of bounded height also fits under any larger bound.
pub proof fn lemma_derives_mono(s: SequentContent, n: nat, m: nat)
    requires
        derives(s, n),
        n <= m,
    ensures
        derives(s, m),
    decreases n,
{
    let (p, ctx, prems) = choose|p: Ast, ctx: SequentContent, prems: PremiseContent|
        {
            &&& s == ctx.insert(p)
            &&& candidate_ok(p, ctx, prems)
            &&& forall|q: SequentContent| prems.contains(q) ==> derives(q, (n - 1) as nat)
        };
    assert forall|q: SequentContent| prems.contains(q) implies derives(q, (m - 1) as nat) by {
        lemma_derives_mono(q, (n - 1) as nat, (m - 1) as nat);
    }
    assert(s == ctx.insert(p) && candidate_ok(p, ctx, prems) && forall|q: SequentContent|
        prems.contains(q) ==> derives(q, (m - 1) as nat));
}

/// A sequent concluded by a legal inference from derivable premises is
/// itself derivable.
pub proof fn lemma_derivable_step(p: Ast, ctx: SequentContent, prems: PremiseContent)
    requires
        candidate_ok(p, ctx, prems),
        forall|q: SequentContent| prems.contains(q) ==> derivable(q),
    ensures
        derivable(ctx.insert(p)),
{
    if prems.len() == 0 {
        assert(forall|q: SequentContent| !prems.contains(q)) by {
            assert forall|q: SequentContent| !prems.contains(q) by {
                if prems.contains(q) {
                    assert(prems.len() >= prems.count(q));
                }
            }
        }
        assert(derives(ctx.insert(p), 1));
    } else {
        // every premise has a bound, and finitely many premises share one
        lemma_common_bound(prems);
        let bound = choose|bound: nat| #[trigger] all_derive_within(prems, bound);
        assert forall|q: SequentContent| prems.contains(q) implies derives(
            q,
            (bound + 1 - 1) as nat,
        ) by {
        }
        assert(derives(ctx.insert(p), bound + 1));
    }
}

/// Every premise derives within the bound.
pub open spec fn all_derive_within(prems: PremiseContent, bound: nat) -> bool {
    forall|q: SequentContent| prems.contains(q) ==> #[trigger] derives(q, bound)
}

/// Finitely many derivable sequents share one height bound.
proof fn lemma_common_bound(prems: PremiseContent)
    requires
        forall|q: SequentContent| prems.contains(q) ==> derivable(q),
    ensures
        exists|bound: nat| #[trigger] all_derive_within(prems, bound),
    decreases prems.len(),
{
    if prems.len() == 0 {
        assert forall|q: SequentContent| prems.contains(q) implies #[trigger] derives(q, 0) by {
            assert(prems.len() >= prems.count(q));
        }
        assert(all_derive_within(prems, 0));
    } else {
        let q0 = prems.choose();
        assert(prems.contains(q0));
        let rest = prems.remove(q0);
        assert(rest.len() < prems.len());
        assert forall|q: SequentContent| rest.contains(q) implies derivable(q) by {
            assert(prems.count(q) >= rest.count(q));
        }
        lemma_common_bound(rest);
        let b1 = choose|b: nat| #[trigger] all_derive_within(rest, b);
        let b0 = choose|b: nat| derives(q0, b);
        assert(derivable(q0));
        let bound = if b0 > b1 {
            b0
        } else {
            b1
        };
        assert forall|q: SequentContent| prems.contains(q) implies #[trigger] derives(
            q,
            bound,
        ) by {
            if q == q0 {
                lemma_derives_mono(q0, b0, bound);
            } else {
                assert(rest.count(q) == prems.count(q));
                assert(derives(q, b1));
                lemma_derives_mono(q, b1, bound);
            }
        }
        assert(all_derive_within(prems, bound));
    }
}

} // verus!
