//! Proofs by sequent-calculus proof search: the best-first driver loop.
//!
//! The driver repeatedly takes the smallest unexpanded sequent, pauses every
//! candidate inference for it, queues the unseen premises, and closes pending
//! inferences whose premises have all been proven, until the original sequent
//! closes (success) or the queue runs dry or the step budget is spent
//! (failure). Success implies the goal is derivable in the calculus of
//! [`crate::derivation::candidate_ok`].

use vstd::prelude::*;
use crate::ast::Ast;
use crate::derivation::{derivable, lemma_derivable_step, PremiseContent, SequentContent};
use crate::inference::{rule_fits, Inference};
use crate::rule::Rule;
use crate::sequent::RhsOnlyWithExchange;
use crate::thunk::{size_cap, Thunk};
use crate::tree::Tree;

verus! {

broadcast use {
    vstd::multiset::group_multiset_axioms,
    vstd::map::group_map_axioms,
    vstd::set::group_set_axioms,
    vstd::seq_lib::group_to_multiset_ensures,
};

/// Unsuccessful proof.
#[derive(Clone, Copy, Debug, Eq, Hash, Ord, PartialEq, PartialOrd)]
pub enum Error {
    /// Ran out of actionable sequents to manipulate.
    RanOutOfPaths,
}

/// How many sequents the search will expand before giving up; on expiry it
/// reports that it ran out of paths. The why-not exponential admits
/// contraction, so exhaustive failures only stop at this bound.
pub const STEP_BUDGET: usize = 512;

/// Every sequent the record marks proven is derivable.
pub open spec fn sound_map(m: Map<SequentContent, Option<Rule>>) -> bool {
    forall|k: SequentContent|
        #[trigger] m.contains_key(k) ==> (m[k] is Some ==> derivable(k))
}

/// What holds of every pending inference while the search runs: shapes are
/// well formed and bounded, everything it mentions is on record, and the
/// rule legally concludes the sequent below it.
pub open spec fn inference_inv(inf: Inference, m: Map<SequentContent, Option<Rule>>) -> bool {
    &&& inf.rule.wf()
    &&& inf.below.wf()
    &&& inf.rule.above@.len() <= 2
    &&& forall|j: int|
        0 <= j < inf.rule.above@.len() ==> (#[trigger] inf.rule.above@[j])@.len() <= size_cap()
            && m.contains_key(inf.rule.above@[j]@)
    &&& m.contains_key(inf.below@)
    &&& rule_fits(inf.below@, inf.rule)
}

/// The two goals the very first expansion closes outright: the additive
/// truth and the multiplicative unit each admit a premise-free rule over
/// the empty context, so the search cannot miss them.
pub open spec fn immediate_goal(expr: Ast) -> bool {
    ||| expr == Ast::Top
    ||| expr == Ast::One
}

/// The cache still holds exactly the unproven goal singleton.
pub open spec fn untouched_state(queue: Thunk, expr: Ast) -> bool {
    queue.map() == Map::<SequentContent, Option<Rule>>::empty().insert(
        vstd::multiset::Multiset::singleton(expr),
        None::<Rule>,
    )
}

/// A pending premise-free inference whose conclusion is the goal singleton.
pub open spec fn axiom_pending(inf: Inference, expr: Ast) -> bool {
    inf.rule.above@.len() == 0 && inf.below@ == vstd::multiset::Multiset::singleton(expr)
}

/// How many entries of a flag list are set.
pub open spec fn count_true(s: Seq<bool>) -> nat
    decreases s.len(),
{
    if s.len() == 0 {
        0
    } else {
        count_true(s.drop_last()) + if s.last() {
            1nat
        } else {
            0nat
        }
    }
}

/// No more flags are set than there are flags.
proof fn lemma_count_true_bound(s: Seq<bool>)
    ensures
        count_true(s) <= s.len(),
    decreases s.len(),
{
    if s.len() > 0 {
        lemma_count_true_bound(s.drop_last());
    }
}

/// Setting a clear flag raises the count by one.
proof fn lemma_count_true_update(s: Seq<bool>, i: int)
    requires
        0 <= i < s.len(),
        !s[i],
    ensures
        count_true(s.update(i, true)) == count_true(s) + 1,
    decreases s.len(),
{
    let s1 = s.update(i, true);
    if i == s.len() - 1 {
        assert(s1.drop_last() =~= s.drop_last());
    } else {
        assert(s1.drop_last() =~= s.drop_last().update(i, true));
        lemma_count_true_update(s.drop_last(), i);
    }
}

/// A pending inference whose premises are all proven on a sound record has
/// a derivable conclusion.
proof fn lemma_inference_closes(inf: Inference, m: Map<SequentContent, Option<Rule>>)
    requires
        inference_inv(inf, m),
        sound_map(m),
        forall|j: int|
            0 <= j < inf.rule.above@.len() ==> m[(#[trigger] inf.rule.above@[j])@] is Some,
    ensures
        derivable(inf.below@),
{
    let prems = inf.rule.premises_mset();
    assert forall|q: SequentContent| prems.contains(q) implies derivable(q) by {
        assert(inf.rule.premises().contains(q));
        let j = choose|j: int|
            0 <= j < inf.rule.premises().len() && inf.rule.premises()[j] == q;
        assert(inf.rule.above@[j]@ == q);
        assert(m.contains_key(q));
    }
    let (p, ctx) = choose|p: Ast, ctx: SequentContent|
        inf.below@ == ctx.insert(p) && crate::derivation::candidate_ok(
            p,
            ctx,
            inf.rule.premises_mset(),
        );
    lemma_derivable_step(p, ctx, prems);
}

/// Attempt to prove this expression with sequent-calculus proof search.
/// Success hands back a derivation tree for the singleton sequent of the
/// expression, and is sound: the sequent is then derivable. The search is
/// bounded and incomplete, so failure carries no converse claim.
pub fn prove(expr: Ast) -> (r: Result<Tree, Error>)
    ensures
        match r {
            Ok(tree) => {
                &&& derivable(vstd::multiset::Multiset::singleton(expr))
                &&& tree.wf()
                &&& tree.below@ == vstd::multiset::Multiset::singleton(expr)
            },
            Err(e) => e == Error::RanOutOfPaths,
        },
        immediate_goal(expr) ==> r is Ok,
        crate::laws::underivable_shape(expr) ==> r is Err,
        r matches Ok(tree) ==> exists|p: Ast, ctx: SequentContent, prems: PremiseContent|
            {
                &&& vstd::multiset::Multiset::singleton(expr) == ctx.insert(p)
                &&& #[trigger] crate::derivation::candidate_ok(p, ctx, prems)
                &&& tree.above@.map_values(|t: Tree| t.below@).to_multiset() == prems
            },
{
    let goal_sequent = RhsOnlyWithExchange::from_rhs(expr.clone());
    let mut queue = Thunk::new(expr);
    let mut paused: Vec<Inference> = Vec::new();
    let mut steps: usize = STEP_BUDGET;
    proof {
        assert(untouched_state(queue, expr));
    }
    loop
        invariant
            queue.wf(),
            queue.queue_backed(),
            queue.goal() == vstd::multiset::Multiset::singleton(expr),
            goal_sequent.wf(),
            goal_sequent@ == vstd::multiset::Multiset::singleton(expr),
            sound_map(queue.map()),
            forall|i: int|
                0 <= i < paused@.len() ==> inference_inv(#[trigger] paused@[i], queue.map()),
            immediate_goal(expr) ==> {
                &&& steps == STEP_BUDGET
                &&& paused@.len() == 0
                &&& queue.queue_view().len() == 1
                &&& queue.queue_view()[0]@ == vstd::multiset::Multiset::singleton(expr)
                &&& untouched_state(queue, expr)
            },
        decreases steps,
    {
        if steps == 0 {
            return Err(Error::RanOutOfPaths);
        }
        steps -= 1;
        let sequent = match queue.next() {
            None => {
                return Err(Error::RanOutOfPaths);
            }
            Some(s) => s,
        };
        proof {
            if immediate_goal(expr) {
                // the one queued sequent is the goal singleton, so the
                // popped sequent is it, with the one canonical entry
                assert(sequent@ == vstd::multiset::Multiset::singleton(expr));
                crate::bag::lemma_singleton_entries(&sequent.rhs, expr);
            }
        }
        // expansion: pause every candidate inference on the popped sequent
        // and queue each of its premises
        let samples = sequent.sample();
        proof {
            if immediate_goal(expr) {
                assert(samples@.len() == 1);
                assert(samples@[0].0 == expr);
                assert(samples@[0].1@ =~= vstd::multiset::Multiset::<Ast>::empty());
            }
        }
        let ns = samples.len();
        let mut si: usize = 0;
        while si < ns
            invariant
                queue.wf(),
                queue.queue_backed(),
                queue.goal() == vstd::multiset::Multiset::singleton(expr),
                sound_map(queue.map()),
                forall|i: int|
                    0 <= i < paused@.len() ==> inference_inv(#[trigger] paused@[i], queue.map()),
                sequent.wf(),
                sequent@.len() <= size_cap(),
                queue.map().contains_key(sequent@),
                ns == samples@.len(),
                si <= ns,
                forall|i: int|
                    0 <= i < samples@.len() ==> {
                        &&& (#[trigger] samples@[i]).1.wf()
                        &&& samples@[i].1@.insert(samples@[i].0) == sequent@
                    },
                immediate_goal(expr) ==> {
                    &&& ns == 1
                    &&& si <= 1
                    &&& sequent@ == vstd::multiset::Multiset::singleton(expr)
                    &&& samples@[0].0 == expr
                    &&& samples@[0].1@ == vstd::multiset::Multiset::<Ast>::empty()
                    &&& (si == 0 ==> paused@.len() == 0 && untouched_state(queue, expr))
                    &&& (si == 1 ==> paused@.len() == 1 && axiom_pending(paused@[0], expr)
                        && untouched_state(queue, expr))
                },
        decreases ns - si,
        {
            let principal = samples[si].0.clone();
            let context = samples[si].1.clone();
            proof {
                assert(context@.insert(principal) == sequent@);
                assert(context@.len() + 1 == sequent@.len());
            }
            let rules = principal.above(context);
            proof {
                if immediate_goal(expr) && si == 0 {
                    // neither axiom shortcut fires over the empty context,
                    // so the one rule is the premise-free closure
                    assert(!crate::infer::axiom_applies(principal, vstd::multiset::Multiset::<
                        Ast,
                    >::empty())) by {
                        assert(vstd::multiset::Multiset::<Ast>::empty().len() == 0);
                        assert(vstd::multiset::Multiset::singleton(
                            Ast::Dual(Box::new(principal)),
                        ).len() == 1);
                    }
                    assert(rules@.len() == 1);
                    assert(rules@[0].premises_mset() == vstd::multiset::Multiset::<
                        SequentContent,
                    >::empty());
                    assert(rules@[0].premises_mset().len() == 0);
                    assert(rules@[0].above@.len() == 0);
                }
            }
            let nr = rules.len();
            let mut ri: usize = 0;
            while ri < nr
                invariant
                    queue.wf(),
                    queue.queue_backed(),
                    queue.goal() == vstd::multiset::Multiset::singleton(expr),
                    sound_map(queue.map()),
                    forall|i: int|
                        0 <= i < paused@.len() ==> inference_inv(
                            #[trigger] paused@[i],
                            queue.map(),
                        ),
                    sequent.wf(),
                    sequent@.len() <= size_cap(),
                    queue.map().contains_key(sequent@),
                    principal == samples@[si as int].0,
                    samples@[si as int].1@.insert(principal) == sequent@,
                    nr == rules@.len(),
                    ri <= nr,
                    forall|i: int|
                        0 <= i < rules@.len() ==> #[trigger] crate::infer::rule_for(
                            rules@[i],
                            principal,
                            samples@[si as int].1@,
                        ),
                    immediate_goal(expr) ==> {
                        &&& si == 0
                        &&& nr == 1
                        &&& ri <= 1
                        &&& sequent@ == vstd::multiset::Multiset::singleton(expr)
                        &&& rules@[0].above@.len() == 0
                        &&& (ri == 0 ==> paused@.len() == 0 && untouched_state(queue, expr))
                        &&& (ri == 1 ==> paused@.len() == 1 && axiom_pending(paused@[0], expr)
                            && untouched_state(queue, expr))
                    },
                decreases nr - ri,
            {
                let rule = rules[ri].duplicate();
                proof {
                    assert(crate::infer::rule_for(rules@[ri as int], principal, samples@[si as int].1@));
                }
                // premises that would outgrow the cache end the branch here
                let np = rule.above.len();
                let mut fits = true;
                let mut pj: usize = 0;
                while pj < np
                    invariant
                        rule.wf(),
                        np == rule.above@.len(),
                        pj <= np,
                        forall|j: int|
                            0 <= j < rule.above@.len() ==> (#[trigger] rule.above@[j])@.len()
                                <= usize::MAX,
                        fits == (forall|j: int|
                            0 <= j < pj ==> (#[trigger] rule.above@[j])@.len() <= size_cap()),
                    decreases np - pj,
                {
                    let plen = rule.above[pj].len();
                    if plen > usize::MAX - 2 {
                        proof {
                            assert(rule.above@[pj as int]@.len() > size_cap());
                        }
                        fits = false;
                    }
                    pj += 1;
                }
                if fits {
                    // queue every premise, seen or not
                    let mut qj: usize = 0;
                    while qj < np
                        invariant
                            queue.wf(),
                            queue.queue_backed(),
                            queue.goal() == vstd::multiset::Multiset::singleton(expr),
                            sound_map(queue.map()),
                            forall|i: int|
                                0 <= i < paused@.len() ==> inference_inv(
                                    #[trigger] paused@[i],
                                    queue.map(),
                                ),
                            sequent.wf(),
                            sequent@.len() <= size_cap(),
                            queue.map().contains_key(sequent@),
                            rule.wf(),
                            np == rule.above@.len(),
                            qj <= np,
                            forall|j: int|
                                0 <= j < rule.above@.len() ==> (#[trigger] rule.above@[j])@.len()
                                    <= size_cap(),
                            forall|j: int|
                                0 <= j < qj ==> queue.map().contains_key(
                                    (#[trigger] rule.above@[j])@,
                                ),
                            immediate_goal(expr) ==> np == 0 && untouched_state(queue, expr),
                        decreases np - qj,
                    {
                        let premise = rule.above[qj].clone();
                        let _known: Result<(), crate::thunk::AlreadyProven> = queue.push(premise);
                        qj += 1;
                    }
                    // pause the inference unless the same premises are
                    // already pending
                    let mut dup = false;
                    let npd = paused.len();
                    let mut dk: usize = 0;
                    while dk < npd
                        invariant
                            rule.wf(),
                            rule.above@.len() <= 2,
                            forall|i: int|
                                0 <= i < paused@.len() ==> inference_inv(
                                    #[trigger] paused@[i],
                                    queue.map(),
                                ),
                            npd == paused@.len(),
                            dk <= npd,
                            immediate_goal(expr) ==> npd == 0 && !dup,
                        decreases npd - dk,
                    {
                        if paused[dk].rule.matches(&rule) {
                            dup = true;
                        }
                        dk += 1;
                    }
                    if !dup {
                        let below = sequent.clone();
                        proof {
                            assert(rule_fits(below@, rule)) by {
                                let p = samples@[si as int].0;
                                let ctx = samples@[si as int].1@;
                                assert(below@ == ctx.insert(p));
                                assert(crate::derivation::candidate_ok(
                                    p,
                                    ctx,
                                    rule.premises_mset(),
                                ));
                            }
                        }
                        paused.push(Inference { rule, below });
                        proof {
                            assert forall|i: int|
                                0 <= i < paused@.len() implies inference_inv(
                                #[trigger] paused@[i],
                                queue.map(),
                            ) by {
                                if i < paused@.len() - 1 {
                                    assert(inference_inv(paused@[i], queue.map()));
                                }
                            }
                        }
                    }
                }
                ri += 1;
            }
            si += 1;
        }
        // closure: keep marking pending inferences whose premises are all
        // proven until a pass makes no progress
        let npa = paused.len();
        let mut done: Vec<bool> = Vec::new();
        let mut df: usize = 0;
        while df < npa
            invariant
                df <= npa,
                done@.len() == df,
                count_true(done@) == 0,
            decreases npa - df,
        {
            let ghost dprev = done@;
            done.push(false);
            proof {
                assert(done@.drop_last() =~= dprev);
            }
            df += 1;
        }
        let mut done_count: usize = 0;
        proof {
            if immediate_goal(expr) {
                assert(!done@[0]) by {
                    assert(count_true(done@) == count_true(done@.drop_last()) + if done@.last() {
                        1nat
                    } else {
                        0nat
                    });
                }
            }
        }
        loop
            invariant
                queue.wf(),
                queue.queue_backed(),
                queue.goal() == vstd::multiset::Multiset::singleton(expr),
                goal_sequent.wf(),
                goal_sequent@ == vstd::multiset::Multiset::singleton(expr),
                sound_map(queue.map()),
                forall|i: int|
                    0 <= i < paused@.len() ==> inference_inv(#[trigger] paused@[i], queue.map()),
                npa == paused@.len(),
                done@.len() == npa,
                done_count == count_true(done@),
                done_count <= npa,
                immediate_goal(expr) ==> {
                    &&& npa == 1
                    &&& !done@[0]
                    &&& done_count == 0
                    &&& axiom_pending(paused@[0], expr)
                    &&& untouched_state(queue, expr)
                },
            ensures
                !immediate_goal(expr),
            decreases npa - done_count,
        {
            let mut progress = false;
            let ghost count0 = done_count as int;
            let mut k: usize = 0;
            while k < npa
                invariant
                    queue.wf(),
                    queue.queue_backed(),
                    queue.goal() == vstd::multiset::Multiset::singleton(expr),
                    goal_sequent.wf(),
                    goal_sequent@ == vstd::multiset::Multiset::singleton(expr),
                    sound_map(queue.map()),
                    forall|i: int|
                        0 <= i < paused@.len() ==> inference_inv(
                            #[trigger] paused@[i],
                            queue.map(),
                        ),
                    npa == paused@.len(),
                    done@.len() == npa,
                    done_count == count_true(done@),
                    done_count <= npa,
                    k <= npa,
                    done_count >= count0,
                    progress ==> done_count > count0,
                    !progress ==> done_count == count0,
                    immediate_goal(expr) ==> {
                        &&& k == 0
                        &&& npa == 1
                        &&& !done@[0]
                        &&& done_count == 0
                        &&& axiom_pending(paused@[0], expr)
                        &&& untouched_state(queue, expr)
                    },
                decreases npa - k,
            {
                if !done[k] {
                    let closes = paused[k].proven(&queue);
                    if closes {
                        let already = queue.proven(&paused[k].below).is_some();
                        if already {
                            // the sequent below closed by another rule first
                            proof {
                                lemma_count_true_update(done@, k as int);
                                lemma_count_true_bound(done@.update(k as int, true));
                            }
                            done.set(k, true);
                            done_count += 1;
                            progress = true;
                        } else {
                            proof {
                                lemma_inference_closes(paused@[k as int], queue.map());
                            }
                            let ghost m0 = queue.map();
                            let ghost below_view = paused@[k as int].below@;
                            let below = paused[k].below.clone();
                            let closing = paused[k].rule.duplicate();
                            match queue.cache(below, closing) {
                                Ok(()) => {
                                    proof {
                                        lemma_count_true_update(done@, k as int);
                                        lemma_count_true_bound(done@.update(k as int, true));
                                        assert forall|i: int|
                                            0 <= i < paused@.len() implies inference_inv(
                                            #[trigger] paused@[i],
                                            queue.map(),
                                        ) by {
                                            assert(inference_inv(paused@[i], m0));
                                        }
                                        assert(sound_map(queue.map())) by {
                                            assert forall|kk: SequentContent|
                                                #[trigger] queue.map().contains_key(kk)
                                                    && queue.map()[kk] is Some implies derivable(
                                                kk,
                                            ) by {
                                                if kk != below_view {
                                                    assert(m0.contains_key(kk));
                                                }
                                            }
                                        }
                                    }
                                    done.set(k, true);
                                    done_count += 1;
                                    progress = true;
                                }
                                Err(qed) => {
                                    proof {
                                        // the goal itself closed, so it is
                                        // derivable; none of the dead-end
                                        // shapes can reach this point
                                        if crate::laws::underivable_shape(expr) {
                                            crate::laws::lemma_underivable_shape(expr);
                                            assert(below_view == queue.goal());
                                            assert(false);
                                        }
                                    }
                                    // the original sequent closed: rebuild
                                    // the derivation from the cache
                                    let closing_rule = qed.rule;
                                    let ghost root_rule = closing_rule;
                                    let name = closing_rule.name;
                                    let tree = Tree::connect(
                                        goal_sequent,
                                        name,
                                        closing_rule.above,
                                        &mut queue,
                                    );
                                    proof {
                                        // the returned tree's root step is
                                        // the legal inference that closed
                                        // the goal, premise for premise
                                        let (p, ctx) = choose|p: Ast, ctx: SequentContent|
                                            below_view == ctx.insert(p)
                                                && crate::derivation::candidate_ok(
                                                p,
                                                ctx,
                                                root_rule.premises_mset(),
                                            );
                                        assert(tree.above@.map_values(|t: Tree| t.below@)
                                            =~= root_rule.premises());
                                        assert(crate::derivation::candidate_ok(
                                            p,
                                            ctx,
                                            tree.above@.map_values(
                                                |t: Tree| t.below@,
                                            ).to_multiset(),
                                        ));
                                    }
                                    return Ok(tree);
                                }
                            }
                        }
                    }
                }
                k += 1;
            }
            if !progress {
                break;
            }
        }
        // drop the closed inferences; the rest stay paused
        let mut remaining: Vec<Inference> = Vec::new();
        let mut rk: usize = 0;
        while rk < npa
            invariant
                queue.wf(),
                sound_map(queue.map()),
                forall|i: int|
                    0 <= i < paused@.len() ==> inference_inv(#[trigger] paused@[i], queue.map()),
                npa == paused@.len(),
                done@.len() == npa,
                rk <= npa,
                forall|i: int|
                    0 <= i < remaining@.len() ==> inference_inv(
                        #[trigger] remaining@[i],
                        queue.map(),
                    ),
            decreases npa - rk,
        {
            if !done[rk] {
                let kept = paused[rk].duplicate();
                proof {
                    assert(inference_inv(paused@[rk as int], queue.map()));
                    assert(kept.rule.premises_mset() == paused@[rk as int].rule.premises_mset());
                    assert(rule_fits(kept.below@, kept.rule)) by {
                        let (p, ctx) = choose|p: Ast, ctx: SequentContent|
                            paused@[rk as int].below@ == ctx.insert(p)
                                && crate::derivation::candidate_ok(
                                p,
                                ctx,
                                paused@[rk as int].rule.premises_mset(),
                            );
                        assert(kept.below@ == ctx.insert(p));
                    }
                }
                remaining.push(kept);
            }
            rk += 1;
        }
        paused = remaining;
    }
}

impl Ast {
    /// Attempt to prove this expression with sequent-calculus proof search.
    /// # Errors
    /// If we can't.
    pub fn prove(self) -> (r: Result<Tree, Error>)
        ensures
            match r {
                Ok(tree) => {
                    &&& derivable(vstd::multiset::Multiset::singleton(self))
                    &&& tree.wf()
                    &&& tree.below@ == vstd::multiset::Multiset::singleton(self)
                },
                Err(e) => e == Error::RanOutOfPaths,
            },
            immediate_goal(self) ==> r is Ok,
            crate::laws::underivable_shape(self) ==> r is Err,
            r matches Ok(tree) ==> exists|p: Ast, ctx: SequentContent, prems: PremiseContent|
                {
                    &&& vstd::multiset::Multiset::singleton(self) == ctx.insert(p)
                    &&& #[trigger] crate::derivation::candidate_ok(p, ctx, prems)
                    &&& tree.above@.map_values(|t: Tree| t.below@).to_multiset() == prems
                },
    {
        prove(self)
    }
}

} // verus!
