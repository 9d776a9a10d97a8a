//! General laws of the calculus, proved once and for all at the level of
//! derivability — the same notion that [`crate::search::prove`] is sound
//! against.

use vstd::prelude::*;
use crate::ast::{de_morgan_spec, Ast};
use crate::derivation::{
    all_derive_within, candidate_ok, derivable, derives, one_premise, PremiseContent,
    SequentContent,
};

verus! {

broadcast use vstd::multiset::group_multiset_axioms;

/// Every derivation of a singleton sequent starts by decomposing its one
/// formula over the empty context.
proof fn lemma_singleton_inversion(phi: Ast, n: nat)
    requires
        derives(vstd::multiset::Multiset::singleton(phi), n),
    ensures
        n > 0,
        exists|prems: PremiseContent|
            #[trigger] candidate_ok(phi, vstd::multiset::Multiset::empty(), prems)
                && all_derive_within(prems, (n - 1) as nat),
{
    let s = vstd::multiset::Multiset::singleton(phi);
    let (p, ctx, prems) = choose|p: Ast, ctx: SequentContent, prems: PremiseContent|
        {
            &&& s == ctx.insert(p)
            &&& candidate_ok(p, ctx, prems)
            &&& forall|q: SequentContent| prems.contains(q) ==> derives(q, (n - 1) as nat)
        };
    assert(s.len() == 1);
    assert(s.len() == ctx.len() + 1);
    assert(p == phi) by {
        assert(s.count(p) >= 1);
    }
    assert(ctx =~= vstd::multiset::Multiset::<Ast>::empty());
    assert(all_derive_within(prems, (n - 1) as nat));
}

/// No rule concludes the bare additive-disjunction unit: its singleton
/// sequent has no derivation.
pub proof fn lemma_zero_underivable()
    ensures
        !derivable(vstd::multiset::Multiset::singleton(Ast::Zero)),
{
    if derivable(vstd::multiset::Multiset::singleton(Ast::Zero)) {
        let n = choose|n: nat| derives(vstd::multiset::Multiset::singleton(Ast::Zero), n);
        lemma_singleton_inversion(Ast::Zero, n);
    }
}

/// A lone propositional variable has no derivation.
pub proof fn lemma_value_underivable(i: usize)
    ensures
        !derivable(vstd::multiset::Multiset::singleton(Ast::Value(i))),
{
    if derivable(vstd::multiset::Multiset::singleton(Ast::Value(i))) {
        let n = choose|n: nat| derives(vstd::multiset::Multiset::singleton(Ast::Value(i)), n);
        lemma_singleton_inversion(Ast::Value(i), n);
    }
}

/// A lone negated variable is a stuck literal: no derivation.
pub proof fn lemma_dual_value_underivable(i: usize)
    ensures
        !derivable(
            vstd::multiset::Multiset::singleton(Ast::Dual(Box::new(Ast::Value(i)))),
        ),
{
    if derivable(vstd::multiset::Multiset::singleton(Ast::Dual(Box::new(Ast::Value(i))))) {
        let n = choose|n: nat|
            derives(vstd::multiset::Multiset::singleton(Ast::Dual(Box::new(Ast::Value(i)))), n);
        lemma_singleton_inversion(Ast::Dual(Box::new(Ast::Value(i))), n);
    }
}

/// Inversion for the additive conjunction: if its singleton sequent is
/// derivable, both disjunct singletons are.
pub proof fn lemma_with_inversion(a: Ast, b: Ast)
    requires
        derivable(vstd::multiset::Multiset::singleton(Ast::With(Box::new(a), Box::new(b)))),
    ensures
        derivable(vstd::multiset::Multiset::singleton(a)),
        derivable(vstd::multiset::Multiset::singleton(b)),
{
    let phi = Ast::With(Box::new(a), Box::new(b));
    let n = choose|n: nat| derives(vstd::multiset::Multiset::singleton(phi), n);
    lemma_singleton_inversion(phi, n);
    let empty_ctx = vstd::multiset::Multiset::<Ast>::empty();
    let prems = choose|prems: PremiseContent|
        #[trigger] candidate_ok(phi, vstd::multiset::Multiset::empty(), prems)
            && all_derive_within(prems, (n - 1) as nat);
    lemma_no_axiom_on_empty_context(phi);
    let la = empty_ctx.insert(a);
    let lb = empty_ctx.insert(b);
    assert(prems == crate::rule::two_mset(la, lb));
    assert(prems.contains(la)) by {
        assert(prems.count(la) >= 1);
    }
    assert(prems.contains(lb)) by {
        assert(prems.count(lb) >= 1);
    }
    assert(derives(la, (n - 1) as nat));
    assert(derives(lb, (n - 1) as nat));
    assert(la =~= vstd::multiset::Multiset::singleton(a));
    assert(lb =~= vstd::multiset::Multiset::singleton(b));
}

/// Neither axiom shortcut fires over the empty context.
proof fn lemma_no_axiom_on_empty_context(phi: Ast)
    ensures
        !vstd::multiset::Multiset::<Ast>::empty().contains(Ast::Top),
        vstd::multiset::Multiset::<Ast>::empty() != vstd::multiset::Multiset::singleton(
            Ast::Dual(Box::new(phi)),
        ),
{
    assert(vstd::multiset::Multiset::<Ast>::empty().len() == 0);
    assert(vstd::multiset::Multiset::singleton(Ast::Dual(Box::new(phi))).len() == 1);
}

/// Inversion for the multiplicative conjunction of a lone formula: the
/// empty context splits only into empty halves, so both factor singletons
/// are derivable.
pub proof fn lemma_times_inversion(a: Ast, b: Ast)
    requires
        derivable(vstd::multiset::Multiset::singleton(Ast::Times(Box::new(a), Box::new(b)))),
    ensures
        derivable(vstd::multiset::Multiset::singleton(a)),
        derivable(vstd::multiset::Multiset::singleton(b)),
{
    let phi = Ast::Times(Box::new(a), Box::new(b));
    let n = choose|n: nat| derives(vstd::multiset::Multiset::singleton(phi), n);
    lemma_singleton_inversion(phi, n);
    let empty_ctx = vstd::multiset::Multiset::<Ast>::empty();
    let prems = choose|prems: PremiseContent|
        #[trigger] candidate_ok(phi, vstd::multiset::Multiset::empty(), prems)
            && all_derive_within(prems, (n - 1) as nat);
    lemma_no_axiom_on_empty_context(phi);
    let (l, r) = choose|l: SequentContent, r: SequentContent|
        vstd::multiset::Multiset::<Ast>::empty() == l.add(r) && prems == crate::rule::two_mset(
            l.insert(a),
            r.insert(b),
        );
    assert(l =~= vstd::multiset::Multiset::<Ast>::empty()) by {
        assert forall|x: Ast| l.count(x) == 0 by {
            assert(l.add(r).count(x) == empty_ctx.count(x));
        }
    }
    assert(r =~= vstd::multiset::Multiset::<Ast>::empty()) by {
        assert forall|x: Ast| r.count(x) == 0 by {
            assert(l.add(r).count(x) == empty_ctx.count(x));
        }
    }
    let la = l.insert(a);
    let rb = r.insert(b);
    assert(prems.contains(la)) by {
        assert(prems.count(la) >= 1);
    }
    assert(prems.contains(rb)) by {
        assert(prems.count(rb) >= 1);
    }
    assert(derives(la, (n - 1) as nat));
    assert(derives(rb, (n - 1) as nat));
    assert(la =~= vstd::multiset::Multiset::singleton(a));
    assert(rb =~= vstd::multiset::Multiset::singleton(b));
}

/// Inversion for the additive disjunction: a derivable singleton chose one
/// of its disjuncts.
pub proof fn lemma_plus_inversion(a: Ast, b: Ast)
    requires
        derivable(vstd::multiset::Multiset::singleton(Ast::Plus(Box::new(a), Box::new(b)))),
    ensures
        derivable(vstd::multiset::Multiset::singleton(a)) || derivable(
            vstd::multiset::Multiset::singleton(b),
        ),
{
    let phi = Ast::Plus(Box::new(a), Box::new(b));
    let n = choose|n: nat| derives(vstd::multiset::Multiset::singleton(phi), n);
    lemma_singleton_inversion(phi, n);
    let empty_ctx = vstd::multiset::Multiset::<Ast>::empty();
    let prems = choose|prems: PremiseContent|
        #[trigger] candidate_ok(phi, vstd::multiset::Multiset::empty(), prems)
            && all_derive_within(prems, (n - 1) as nat);
    lemma_no_axiom_on_empty_context(phi);
    let la = empty_ctx.insert(a);
    let lb = empty_ctx.insert(b);
    if prems == one_premise(la) {
        assert(prems.contains(la)) by {
            assert(prems.count(la) >= 1);
        }
        assert(derives(la, (n - 1) as nat));
        assert(la =~= vstd::multiset::Multiset::singleton(a));
    } else {
        assert(prems == one_premise(lb));
        assert(prems.contains(lb)) by {
            assert(prems.count(lb) >= 1);
        }
        assert(derives(lb, (n - 1) as nat));
        assert(lb =~= vstd::multiset::Multiset::singleton(b));
    }
}

/// The goal formulas that no derivation concludes: the failing rows of the
/// calculus's dead ends — the empty additive unit, stuck literals, and the
/// conjunctions and disjunctions that force one of them.
pub open spec fn underivable_shape(expr: Ast) -> bool {
    ||| expr == Ast::Zero
    ||| expr is Value
    ||| (expr matches Ast::Dual(d) && *d is Value)
    ||| expr == Ast::With(Box::new(Ast::Zero), Box::new(Ast::One))
    ||| expr == Ast::With(Box::new(Ast::One), Box::new(Ast::Zero))
    ||| expr == Ast::Times(Box::new(Ast::One), Box::new(Ast::Zero))
    ||| expr == Ast::Times(Box::new(Ast::Zero), Box::new(Ast::One))
    ||| (exists|i: usize|
        expr == Ast::Plus(
            Box::new(Ast::Value(i)),
            Box::new(Ast::Dual(Box::new(Ast::Value(i)))),
        ))
    ||| (exists|i: usize|
        expr == Ast::With(
            Box::new(Ast::Value(i)),
            Box::new(Ast::Dual(Box::new(Ast::Value(i)))),
        ))
}

/// None of the dead-end goal shapes has a derivation, so the sound search
/// must report failure on them.
pub proof fn lemma_underivable_shape(expr: Ast)
    requires
        underivable_shape(expr),
    ensures
        !derivable(vstd::multiset::Multiset::singleton(expr)),
{
    if derivable(vstd::multiset::Multiset::singleton(expr)) {
        if expr == Ast::Zero {
            lemma_zero_underivable();
        } else if expr is Value {
            match expr {
                Ast::Value(i) => lemma_value_underivable(i),
                _ => {}
            }
        } else if expr matches Ast::Dual(d) && *d is Value {
            match expr {
                Ast::Dual(d) => match *d {
                    Ast::Value(i) => lemma_dual_value_underivable(i),
                    _ => {}
                },
                _ => {}
            }
        } else if expr == Ast::With(Box::new(Ast::Zero), Box::new(Ast::One)) {
            lemma_with_inversion(Ast::Zero, Ast::One);
            lemma_zero_underivable();
        } else if expr == Ast::With(Box::new(Ast::One), Box::new(Ast::Zero)) {
            lemma_with_inversion(Ast::One, Ast::Zero);
            lemma_zero_underivable();
        } else if expr == Ast::Times(Box::new(Ast::One), Box::new(Ast::Zero)) {
            lemma_times_inversion(Ast::One, Ast::Zero);
            lemma_zero_underivable();
        } else if expr == Ast::Times(Box::new(Ast::Zero), Box::new(Ast::One)) {
            lemma_times_inversion(Ast::Zero, Ast::One);
            lemma_zero_underivable();
        } else if exists|i: usize|
            expr == Ast::Plus(
                Box::new(Ast::Value(i)),
                Box::new(Ast::Dual(Box::new(Ast::Value(i)))),
            ) {
            let i = choose|i: usize|
                expr == Ast::Plus(
                    Box::new(Ast::Value(i)),
                    Box::new(Ast::Dual(Box::new(Ast::Value(i)))),
                );
            lemma_plus_inversion(Ast::Value(i), Ast::Dual(Box::new(Ast::Value(i))));
            lemma_value_underivable(i);
            lemma_dual_value_underivable(i);
        } else {
            let i = choose|i: usize|
                expr == Ast::With(
                    Box::new(Ast::Value(i)),
                    Box::new(Ast::Dual(Box::new(Ast::Value(i)))),
                );
            lemma_with_inversion(Ast::Value(i), Ast::Dual(Box::new(Ast::Value(i))));
            lemma_value_underivable(i);
        }
    }
}

/// Any sequent containing the additive truth proves immediately.
pub proof fn lemma_top_derivable(s: SequentContent)
    requires
        s.contains(Ast::Top),
    ensures
        derivable(s),
{
    let ctx = s.remove(Ast::Top);
    assert(s == ctx.insert(Ast::Top)) by {
        assert(s =~= ctx.insert(Ast::Top));
    }
    let prems = vstd::multiset::Multiset::<SequentContent>::empty();
    assert(candidate_ok(Ast::Top, ctx, prems));
    assert(derives(s, 1)) by {
        assert(forall|q: SequentContent| !prems.contains(q));
        assert(s == ctx.insert(Ast::Top) && candidate_ok(Ast::Top, ctx, prems) && forall|
            q: SequentContent,
        |
            prems.contains(q) ==> derives(q, 0));
    }
}

/// The identity axiom as a law: a formula beside its own dual closes in one
/// step, whatever the formula.
pub proof fn lemma_identity_derivable(phi: Ast)
    ensures
        derives(vstd::multiset::Multiset::singleton(Ast::Dual(Box::new(phi))).insert(phi), 1),
        derivable(vstd::multiset::Multiset::singleton(Ast::Dual(Box::new(phi))).insert(phi)),
{
    let ctx = vstd::multiset::Multiset::singleton(Ast::Dual(Box::new(phi)));
    let axiom_line = ctx.insert(phi);
    let prems = vstd::multiset::Multiset::<SequentContent>::empty();
    assert(candidate_ok(phi, ctx, prems));
    assert(forall|q: SequentContent| !prems.contains(q));
    assert(axiom_line == ctx.insert(phi) && candidate_ok(phi, ctx, prems) && forall|
        q: SequentContent,
    |
        prems.contains(q) ==> derives(q, 0));
}

/// Excluded middle under par: for every formula, the sequent holding the
/// formula par its dual is derivable — the dual closes against the formula
/// by the identity axiom.
pub proof fn lemma_excluded_middle_derivable(phi: Ast)
    ensures
        derivable(
            vstd::multiset::Multiset::singleton(
                Ast::Par(Box::new(Ast::Dual(Box::new(phi))), Box::new(phi)),
            ),
        ),
{
    let dual = Ast::Dual(Box::new(phi));
    let par = Ast::Par(Box::new(dual), Box::new(phi));
    let below = vstd::multiset::Multiset::singleton(par);
    let axiom_line = vstd::multiset::Multiset::singleton(dual).insert(phi);
    // the premise closes by the identity axiom: its context around the
    // principal formula is exactly the dual of that formula
    lemma_identity_derivable(phi);
    // the goal reduces to that premise by the par rule on an empty context
    assert(derives(below, 2)) by {
        let ctx = vstd::multiset::Multiset::<Ast>::empty();
        let prems = one_premise(ctx.insert(dual).insert(phi));
        assert(candidate_ok(par, ctx, prems));
        assert(ctx.insert(dual).insert(phi) =~= axiom_line);
        assert(below =~= ctx.insert(par));
        assert forall|q: SequentContent| prems.contains(q) implies derives(q, 1) by {
            assert(q == axiom_line);
        }
        assert(below == ctx.insert(par) && candidate_ok(par, ctx, prems) && forall|
            q: SequentContent,
        |
            prems.contains(q) ==> derives(q, 1));
    }
}

/// Involution of the dual at the derivability level: a double negation
/// proves exactly when the formula under it does. The only inference a
/// doubly negated singleton admits is the DeMorgan step that cancels the
/// two duals.
pub proof fn lemma_dual_involution(phi: Ast)
    ensures
        derivable(
            vstd::multiset::Multiset::singleton(Ast::Dual(Box::new(Ast::Dual(Box::new(phi))))),
        ) <==> derivable(vstd::multiset::Multiset::singleton(phi)),
{
    let inner = Ast::Dual(Box::new(phi));
    let outer = Ast::Dual(Box::new(inner));
    let doubled = vstd::multiset::Multiset::singleton(outer);
    let plain = vstd::multiset::Multiset::singleton(phi);
    if derivable(plain) {
        let n = choose|n: nat| derives(plain, n);
        let ctx = vstd::multiset::Multiset::<Ast>::empty();
        let prems = one_premise(ctx.insert(de_morgan_spec(inner)));
        assert(de_morgan_spec(inner) == phi);
        assert(ctx.insert(phi) =~= plain);
        assert(candidate_ok(outer, ctx, prems));
        assert(derives(doubled, n + 1)) by {
            assert forall|q: SequentContent| prems.contains(q) implies derives(q, n) by {
                assert(q == plain);
            }
            assert(doubled =~= ctx.insert(outer));
            assert(doubled == ctx.insert(outer) && candidate_ok(outer, ctx, prems) && forall|
                q: SequentContent,
            |
                prems.contains(q) ==> derives(q, n));
        }
    }
    if derivable(doubled) {
        let n = choose|n: nat| derives(doubled, n);
        let (p, ctx, prems) = choose|p: Ast, ctx: SequentContent, prems: PremiseContent|
            {
                &&& doubled == ctx.insert(p)
                &&& candidate_ok(p, ctx, prems)
                &&& forall|q: SequentContent| prems.contains(q) ==> derives(q, (n - 1) as nat)
            };
        // a singleton decomposes one way only: the principal is the double
        // dual and the context is empty
        assert(doubled.len() == 1);
        assert(doubled.len() == ctx.len() + 1);
        assert(ctx.len() == 0);
        assert(p == outer) by {
            assert(doubled.count(p) >= 1);
        }
        assert(ctx =~= vstd::multiset::Multiset::<Ast>::empty());
        // no axiom shortcut applies to an empty context, so the step is the
        // DeMorgan rewrite and its premise is the plain singleton
        assert(!ctx.contains(Ast::Top));
        assert(ctx != vstd::multiset::Multiset::singleton(Ast::Dual(Box::new(p)))) by {
            assert(vstd::multiset::Multiset::singleton(Ast::Dual(Box::new(p))).len() == 1);
        }
        assert(prems == one_premise(ctx.insert(de_morgan_spec(inner))));
        assert(ctx.insert(de_morgan_spec(inner)) =~= plain);
        assert(prems.contains(plain)) by {
            assert(one_premise(plain).count(plain) == 1);
        }
        assert(derives(plain, (n - 1) as nat));
    }
}

} // verus!
