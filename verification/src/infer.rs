//! The inference generator: every candidate rule application for a chosen
//! principal formula and its residual context.

use vstd::prelude::*;
use crate::ast::{de_morgan_spec, Ast};
use crate::derivation::{candidate_ok, one_premise, structural_ok, SequentContent};
use crate::rule::{lemma_one_mset, lemma_two_mset, two_mset, Rule};
use crate::sequent::RhsOnlyWithExchange;
use crate::bag::{repeat_seq, Bag};

verus! {

broadcast use {vstd::multiset::group_multiset_axioms, vstd::seq_lib::group_to_multiset_ensures};

/// Multiplicative conjunction splits the context `2^n` ways; contexts beyond
/// this many formulas yield no splits and the branch dies out, as the
/// bounded search permits.
pub const TIMES_SPLIT_CAP: usize = 12;

/// Two to the power of `e`.
pub open spec fn two_to(e: nat) -> nat
    decreases e,
{
    if e == 0 {
        1
    } else {
        2 * two_to((e - 1) as nat)
    }
}

/// Bit `i` of `bits`, counted from the least significant end.
pub open spec fn get_bit(bits: nat, i: nat) -> bool {
    (bits / two_to(i)) % 2 == 1
}

/// The first `i` context formulas divided in two by the bits of `bits`:
/// a clear bit sends the formula left, a set bit right.
pub open spec fn split_prefix(elems: Seq<Ast>, bits: nat, i: int) -> (SequentContent, SequentContent)
    decreases i,
{
    if i <= 0 {
        (vstd::multiset::Multiset::empty(), vstd::multiset::Multiset::empty())
    } else {
        let rest = split_prefix(elems, bits, i - 1);
        if !get_bit(bits, (i - 1) as nat) {
            (rest.0.insert(elems[i - 1]), rest.1)
        } else {
            (rest.0, rest.1.insert(elems[i - 1]))
        }
    }
}

/// The two halves of a split add back up to the formulas split.
pub proof fn lemma_split_prefix_sound(elems: Seq<Ast>, bits: nat, i: int)
    requires
        0 <= i <= elems.len(),
    ensures
        split_prefix(elems, bits, i).0.add(split_prefix(elems, bits, i).1) =~= elems.take(
            i,
        ).to_multiset(),
    decreases i,
{
    if i == 0 {
        assert(elems.take(0) =~= Seq::<Ast>::empty());
        assert(Seq::<Ast>::empty().to_multiset() =~= vstd::multiset::Multiset::empty());
    } else {
        lemma_split_prefix_sound(elems, bits, i - 1);
        assert(elems.take(i) =~= elems.take(i - 1).push(elems[i - 1]));
    }
}

/// Powers of two multiply across an added exponent.
proof fn lemma_two_to_add(a: nat, b: nat)
    ensures
        two_to(a + b) == two_to(a) * two_to(b),
    decreases b,
{
    if b > 0 {
        lemma_two_to_add(a, (b - 1) as nat);
        assert(two_to(a + b) == two_to(a) * two_to(b)) by (nonlinear_arith)
            requires
                two_to(a + b) == 2 * two_to((a + b - 1) as nat),
                (a + b - 1) as nat == a + (b - 1) as nat,
                two_to(a + (b - 1) as nat) == two_to(a) * two_to((b - 1) as nat),
                two_to(b) == 2 * two_to((b - 1) as nat),
        ;
    } else {
        assert(two_to(a + b) == two_to(a) * two_to(b)) by (nonlinear_arith)
            requires
                b == 0,
                two_to(a + b) == two_to(a),
                two_to(b) == 1,
        ;
    }
}

/// Raising one high bit leaves every lower bit alone.
proof fn lemma_get_bit_low(bits0: nat, c_exp: nat, j: nat)
    requires
        j < c_exp,
        bits0 < two_to(c_exp),
    ensures
        get_bit(bits0 + two_to(c_exp), j) == get_bit(bits0, j),
{
    let d = two_to(j) as int;
    let m = two_to((c_exp - j) as nat) as int;
    lemma_two_to_pos(j);
    lemma_two_to_pos((c_exp - j) as nat);
    lemma_two_to_pos((c_exp - j - 1) as nat);
    lemma_two_to_add(j, (c_exp - j) as nat);
    assert(two_to(c_exp) as int == d * m);
    let x = bits0 as int + d * m;
    let q0 = bits0 as int / d;
    let r0 = bits0 as int % d;
    vstd::arithmetic::div_mod::lemma_fundamental_div_mod(bits0 as int, d);
    assert(x == (q0 + m) * d + r0) by (nonlinear_arith)
        requires
            bits0 as int == q0 * d + r0,
            x == bits0 as int + d * m,
    ;
    vstd::arithmetic::div_mod::lemma_fundamental_div_mod_converse_div(x, d, q0 + m, r0);
    assert(x / d == q0 + m);
    // the added quotient is even, so the parity of the bit is unchanged
    let t = two_to((c_exp - j - 1) as nat) as int;
    assert(m == 2 * t);
    vstd::arithmetic::div_mod::lemma_fundamental_div_mod(q0, 2);
    let h = q0 / 2;
    let p = q0 % 2;
    assert(q0 + m == (h + t) * 2 + p) by (nonlinear_arith)
        requires
            q0 == 2 * h + p,
            m == 2 * t,
    ;
    vstd::arithmetic::div_mod::lemma_fundamental_div_mod_converse_mod(q0 + m, 2, h + t, p);
}

/// The high bit itself is clear below the power and set once it is added.
proof fn lemma_get_bit_high(bits0: nat, c_exp: nat)
    requires
        bits0 < two_to(c_exp),
    ensures
        !get_bit(bits0, c_exp),
        get_bit(bits0 + two_to(c_exp), c_exp),
{
    let d = two_to(c_exp) as int;
    lemma_two_to_pos(c_exp);
    vstd::arithmetic::div_mod::lemma_fundamental_div_mod_converse_div(bits0 as int, d, 0, bits0 as int);
    vstd::arithmetic::div_mod::lemma_fundamental_div_mod_converse_div(
        bits0 as int + d,
        d,
        1,
        bits0 as int,
    );
}

/// Splitting looks only at the bits below the cut.
proof fn lemma_split_prefix_bits(elems: Seq<Ast>, b1: nat, b2: nat, i: int)
    requires
        0 <= i,
        forall|j: nat| j < i ==> #[trigger] get_bit(b1, j) == get_bit(b2, j),
    ensures
        split_prefix(elems, b1, i) == split_prefix(elems, b2, i),
    decreases i,
{
    if i > 0 {
        lemma_split_prefix_bits(elems, b1, b2, i - 1);
        assert(get_bit(b1, (i - 1) as nat) == get_bit(b2, (i - 1) as nat));
    }
}

/// Splitting looks only at the formulas below the cut.
proof fn lemma_split_prefix_stable(e1: Seq<Ast>, e2: Seq<Ast>, bits: nat, i: int)
    requires
        0 <= i <= e1.len(),
        i <= e2.len(),
        forall|j: int| 0 <= j < i ==> e1[j] == e2[j],
    ensures
        split_prefix(e1, bits, i) == split_prefix(e2, bits, i),
    decreases i,
{
    if i > 0 {
        lemma_split_prefix_stable(e1, e2, bits, i - 1);
    }
}

/// Every division of the context into two halves is some bit pattern's
/// split, so the multiplicative-conjunction enumeration misses no split.
pub proof fn lemma_splits_complete(elems: Seq<Ast>, l: SequentContent, r: SequentContent)
    requires
        l.add(r) =~= elems.to_multiset(),
    ensures
        exists|bits: nat|
            bits < two_to(elems.len()) && #[trigger] split_prefix(elems, bits, elems.len() as int)
                == (l, r),
    decreases elems.len(),
{
    let n = elems.len();
    if n == 0 {
        assert(elems.to_multiset() =~= vstd::multiset::Multiset::empty()) by {
            assert(elems =~= Seq::<Ast>::empty());
            assert(Seq::<Ast>::empty().to_multiset() =~= vstd::multiset::Multiset::empty());
        }
        assert(l =~= vstd::multiset::Multiset::empty());
        assert(r =~= vstd::multiset::Multiset::empty());
        assert(0 < two_to(0) && split_prefix(elems, 0, 0) == (l, r));
    } else {
        let e = elems.last();
        let front = elems.drop_last();
        assert(elems =~= front.push(e));
        assert(elems.to_multiset() =~= front.to_multiset().insert(e));
        assert(l.add(r).count(e) >= 1) by {
            assert(front.to_multiset().insert(e).count(e) >= 1);
        }
        lemma_two_to_pos((n - 1) as nat);
        if l.count(e) > 0 {
            let l0 = l.remove(e);
            assert(l0.add(r) =~= front.to_multiset()) by {
                assert forall|x: Ast| l0.add(r).count(x) == front.to_multiset().count(x) by {
                    assert(l.add(r).count(x) == elems.to_multiset().count(x));
                    assert(elems.to_multiset().count(x) == front.to_multiset().insert(e).count(x));
                }
            }
            lemma_splits_complete(front, l0, r);
            let bits0 = choose|bits: nat|
                bits < two_to(front.len()) && #[trigger] split_prefix(
                    front,
                    bits,
                    front.len() as int,
                ) == (l0, r);
            lemma_get_bit_high(bits0, (n - 1) as nat);
            lemma_split_prefix_stable(elems, front, bits0, n - 1);
            assert(split_prefix(elems, bits0, n as int) == (l0.insert(e), r));
            assert(l0.insert(e) =~= l);
            lemma_two_to_mono((n - 1) as nat + 1, n as nat);
            assert(bits0 < two_to(n) && split_prefix(elems, bits0, n as int) == (l, r));
        } else {
            assert(r.count(e) > 0);
            let r0 = r.remove(e);
            assert(l.add(r0) =~= front.to_multiset()) by {
                assert forall|x: Ast| l.add(r0).count(x) == front.to_multiset().count(x) by {
                    assert(l.add(r).count(x) == elems.to_multiset().count(x));
                    assert(elems.to_multiset().count(x) == front.to_multiset().insert(e).count(x));
                }
            }
            lemma_splits_complete(front, l, r0);
            let bits0 = choose|bits: nat|
                bits < two_to(front.len()) && #[trigger] split_prefix(
                    front,
                    bits,
                    front.len() as int,
                ) == (l, r0);
            let bits = bits0 + two_to((n - 1) as nat);
            lemma_get_bit_high(bits0, (n - 1) as nat);
            assert forall|j: nat| j < n - 1 implies #[trigger] get_bit(bits, j) == get_bit(
                bits0,
                j,
            ) by {
                lemma_get_bit_low(bits0, (n - 1) as nat, j);
            }
            lemma_split_prefix_bits(elems, bits, bits0, n - 1);
            lemma_split_prefix_stable(elems, front, bits0, n - 1);
            assert(split_prefix(elems, bits, n as int) == (l, r0.insert(e)));
            assert(r0.insert(e) =~= r);
            assert(bits < two_to(n)) by {
                assert(two_to(n) == 2 * two_to((n - 1) as nat));
            }
            assert(bits < two_to(n) && split_prefix(elems, bits, n as int) == (l, r));
        }
    }
}

/// The rules returned for a multiplicative conjunction cover every division
/// of the context: whatever halves the caller picks, some returned rule has
/// exactly those premises.
pub proof fn lemma_above_times_complete(
    a: Ast,
    b: Ast,
    ctx: SequentContent,
    elems: Seq<Ast>,
    out: Seq<Rule>,
    l: SequentContent,
    r: SequentContent,
)
    requires
        above_exact(Ast::Times(Box::new(a), Box::new(b)), ctx, elems, out),
        !axiom_applies(Ast::Times(Box::new(a), Box::new(b)), ctx),
        elems.len() <= TIMES_SPLIT_CAP,
        l.add(r) =~= elems.to_multiset(),
    ensures
        exists|i: int|
            0 <= i < out.len() && (#[trigger] out[i]).premises_mset() == two_mset(
                l.insert(a),
                r.insert(b),
            ),
{
    lemma_splits_complete(elems, l, r);
    let bits = choose|bits: nat|
        bits < two_to(elems.len()) && #[trigger] split_prefix(elems, bits, elems.len() as int)
            == (l, r);
    assert(out[2 * (bits as int)].premises_mset() == two_mset(l.insert(a), r.insert(b)));
}

/// Whether one of the two axiom shortcuts closes the sequent at once: the
/// context holds `Top`, or the context is exactly the dual of the principal.
pub open spec fn axiom_applies(p: Ast, ctx: SequentContent) -> bool {
    ||| ctx.contains(Ast::Top)
    ||| ctx == vstd::multiset::Multiset::singleton(Ast::Dual(Box::new(p)))
}

/// Everything `Ast::above` promises about its output beyond soundness: the
/// exact rules, in order, for each shape of principal formula. `elems` is
/// the context's deterministic element order.
pub open spec fn above_exact(p: Ast, ctx: SequentContent, elems: Seq<Ast>, out: Seq<Rule>) -> bool {
    if axiom_applies(p, ctx) {
        out.len() == 1 && out[0].premises_mset() == vstd::multiset::Multiset::<
            SequentContent,
        >::empty()
    } else {
        match p {
            Ast::Top => out.len() == 1 && out[0].premises_mset() == vstd::multiset::Multiset::<
                SequentContent,
            >::empty(),
            Ast::One => if ctx.len() == 0 {
                out.len() == 1 && out[0].premises_mset() == vstd::multiset::Multiset::<
                    SequentContent,
                >::empty()
            } else {
                out.len() == 0
            },
            Ast::Bottom => out.len() == 1 && out[0].premises_mset() == one_premise(ctx),
            Ast::Zero => out.len() == 0,
            Ast::Value(_) => out.len() == 0,
            Ast::Bang(a) => if exists|q: Ast|
                ctx == vstd::multiset::Multiset::singleton(Ast::Quest(Box::new(q))) {
                out.len() == 1 && out[0].premises_mset() == one_premise(ctx.insert(*a))
            } else {
                out.len() == 0
            },
            Ast::Quest(a) => {
                &&& out.len() == 3
                &&& out[0].premises_mset() == one_premise(ctx)
                &&& out[1].premises_mset() == one_premise(ctx.insert(*a))
                &&& out[2].premises_mset() == one_premise(
                    ctx.insert(Ast::Quest(a)).insert(Ast::Quest(a)),
                )
            },
            Ast::Dual(d) => if *d is Value {
                out.len() == 0
            } else {
                out.len() == 1 && out[0].premises_mset() == one_premise(
                    ctx.insert(de_morgan_spec(*d)),
                )
            },
            Ast::Times(a, b) => if elems.len() <= TIMES_SPLIT_CAP {
                &&& out.len() == 2 * two_to(elems.len())
                &&& forall|k: int|
                    0 <= k < two_to(elems.len()) ==> {
                        let halves = split_prefix(elems, k as nat, elems.len() as int);
                        &&& (#[trigger] out[2 * k]).premises_mset() == two_mset(
                            halves.0.insert(*a),
                            halves.1.insert(*b),
                        )
                        &&& out[2 * k + 1].premises_mset() == two_mset(
                            halves.1.insert(*a),
                            halves.0.insert(*b),
                        )
                    }
            } else {
                out.len() == 0
            },
            Ast::Par(a, b) => out.len() == 1 && out[0].premises_mset() == one_premise(
                ctx.insert(*a).insert(*b),
            ),
            Ast::With(a, b) => out.len() == 1 && out[0].premises_mset() == two_mset(
                ctx.insert(*a),
                ctx.insert(*b),
            ),
            Ast::Plus(a, b) => {
                &&& out.len() == 2
                &&& out[0].premises_mset() == one_premise(ctx.insert(*a))
                &&& out[1].premises_mset() == one_premise(ctx.insert(*b))
            },
        }
    }
}

/// What every rule the generator returns satisfies: well-formed premises,
/// at most two of them, each bounded in size, and the step is legal.
pub open spec fn rule_for(rule: Rule, p: Ast, ctx: SequentContent) -> bool {
    &&& rule.wf()
    &&& rule.above@.len() <= 2
    &&& forall|j: int|
        0 <= j < rule.above@.len() ==> (#[trigger] rule.above@[j])@.len() <= ctx.len() + 2
    &&& candidate_ok(p, ctx, rule.premises_mset())
}

/// A vector holding one formula denotes the singleton multiset.
proof fn lemma_vec1_mset(x: Ast)
    ensures
        seq![x].to_multiset() =~= vstd::multiset::Multiset::empty().insert(x),
{
    assert(seq![x] =~= Seq::<Ast>::empty().push(x));
    assert(Seq::<Ast>::empty().to_multiset() =~= vstd::multiset::Multiset::empty());
}

/// A vector holding two formulas denotes the two-element multiset.
proof fn lemma_vec2_mset(x: Ast, y: Ast)
    ensures
        seq![x, y].to_multiset() =~= vstd::multiset::Multiset::empty().insert(x).insert(y),
{
    assert(seq![x, y] =~= Seq::<Ast>::empty().push(x).push(y));
    assert(Seq::<Ast>::empty().to_multiset() =~= vstd::multiset::Multiset::empty());
}

/// A vector holding one formula.
fn vec1(a: Ast) -> (r: Vec<Ast>)
    ensures
        r@ =~= seq![a],
{
    let mut v: Vec<Ast> = Vec::new();
    v.push(a);
    v
}

/// A vector holding two formulas.
fn vec2(a: Ast, b: Ast) -> (r: Vec<Ast>)
    ensures
        r@ =~= seq![a, b],
{
    let mut v: Vec<Ast> = Vec::new();
    v.push(a);
    v.push(b);
    v
}

/// A premise list holding one sequent.
fn prem1(s: RhsOnlyWithExchange) -> (r: Vec<RhsOnlyWithExchange>)
    ensures
        r@.len() == 1,
        r@[0] == s,
{
    let mut v: Vec<RhsOnlyWithExchange> = Vec::new();
    v.push(s);
    v
}

/// A premise list holding two sequents in order.
fn prem2(s: RhsOnlyWithExchange, t: RhsOnlyWithExchange) -> (r: Vec<RhsOnlyWithExchange>)
    ensures
        r@.len() == 2,
        r@[0] == s,
        r@[1] == t,
{
    let mut v: Vec<RhsOnlyWithExchange> = Vec::new();
    v.push(s);
    v.push(t);
    v
}

impl Ast {
    /// All candidate rule applications with this formula as the principal
    /// and `context` as the rest of the sequent below the line. Sound
    /// against [`candidate_ok`] and pinned down by [`above_exact`].
    pub fn above(&self, context: RhsOnlyWithExchange) -> (r: Vec<Rule>)
        requires
            context.wf(),
            context@.len() + 2 <= usize::MAX,
        ensures
            forall|i: int| 0 <= i < r@.len() ==> #[trigger] rule_for(r@[i], *self, context@),
            above_exact(*self, context@, repeat_seq(context.rhs.entry_seq()), r@),
    {
        let mut out: Vec<Rule> = Vec::new();
        let top_in_context = context.rhs_contains(&Ast::Top);
        let identity = match context.only() {
            Some(e) => match e {
                Ast::Dual(inner) => inner.same(self),
                _ => false,
            },
            None => false,
        };
        proof {
            if !identity && context@ == vstd::multiset::Multiset::singleton(
                Ast::Dual(Box::new(*self)),
            ) {
                // a singleton context is seen by `only`, and singletons are
                // injective, so the check cannot have missed the dual
                assert(context@.len() == 1);
                assert(context@.count(Ast::Dual(Box::new(*self))) == 1);
            }
        }
        if top_in_context || identity {
            out.push(Rule { name: "axiom", above: Vec::new() });
            proof {
                assert(out@[0].premises() =~= Seq::<SequentContent>::empty());
                assert(out@[0].premises_mset() =~= vstd::multiset::Multiset::<
                    SequentContent,
                >::empty());
                assert(rule_for(out@[0], *self, context@));
            }
            return out;
        }
        match self {
            Ast::Top => {
                out.push(Rule { name: "\u{22a4}", above: Vec::new() });
                proof {
                    assert(out@[0].premises() =~= Seq::<SequentContent>::empty());
                    assert(out@[0].premises_mset() =~= vstd::multiset::Multiset::<
                        SequentContent,
                    >::empty());
                    assert(rule_for(out@[0], *self, context@));
                }
            }
            Ast::One => {
                if context.is_empty() {
                    out.push(Rule { name: "1", above: Vec::new() });
                    proof {
                        assert(out@[0].premises() =~= Seq::<SequentContent>::empty());
                        assert(out@[0].premises_mset() =~= vstd::multiset::Multiset::<
                            SequentContent,
                        >::empty());
                        assert(rule_for(out@[0], *self, context@));
                    }
                }
            }
            Ast::Zero => {}
            Ast::Value(_) => {}
            Ast::Bang(a) => {
                match context.only() {
                    Some(e) => match e {
                        Ast::Quest(inner) => {
                            let premise = context.with(vec1((**a).clone()));
                            out.push(Rule { name: "!", above: prem1(premise) });
                            proof {
                                lemma_vec1_mset(**a);
                                lemma_one_mset(out@[0]);
                                assert(out@[0].above@[0]@ =~= context@.insert(**a));
                                assert(context@ == vstd::multiset::Multiset::singleton(
                                    Ast::Quest(Box::new(**inner)),
                                ));
                                assert(rule_for(out@[0], *self, context@));
                            }
                        }
                        _ => {
                            proof {
                                if exists|q: Ast|
                                    context@ == vstd::multiset::Multiset::singleton(
                                        Ast::Quest(Box::new(q)),
                                    ) {
                                    let q = choose|q: Ast|
                                        context@ == vstd::multiset::Multiset::singleton(
                                            Ast::Quest(Box::new(q)),
                                        );
                                    assert(context@.count(Ast::Quest(Box::new(q))) == 1);
                                }
                            }
                        }
                    },
                    None => {
                        proof {
                            if exists|q: Ast|
                                context@ == vstd::multiset::Multiset::singleton(
                                    Ast::Quest(Box::new(q)),
                                ) {
                                let q = choose|q: Ast|
                                    context@ == vstd::multiset::Multiset::singleton(
                                        Ast::Quest(Box::new(q)),
                                    );
                                assert(context@.len() == 1);
                            }
                        }
                    }
                }
            }
            Ast::Bottom => {
                let premise = context.clone();
                out.push(Rule { name: "", above: prem1(premise) });
                proof {
                    lemma_one_mset(out@[0]);
                    assert(rule_for(out@[0], *self, context@));
                }
            }
            Ast::Quest(a) => {
                let weakening = context.clone();
                let dereliction = context.with(vec1((**a).clone()));
                let contraction = context.with(
                    vec2(Ast::Quest(Box::new((**a).clone())), Ast::Quest(Box::new((**a).clone()))),
                );
                out.push(Rule { name: "", above: prem1(weakening) });
                out.push(Rule { name: "", above: prem1(dereliction) });
                out.push(Rule { name: "", above: prem1(contraction) });
                proof {
                    lemma_vec1_mset(**a);
                    lemma_vec2_mset(Ast::Quest(Box::new(**a)), Ast::Quest(Box::new(**a)));
                    lemma_one_mset(out@[0]);
                    lemma_one_mset(out@[1]);
                    lemma_one_mset(out@[2]);
                    assert(out@[1].above@[0]@ =~= context@.insert(**a));
                    assert(out@[2].above@[0]@ =~= context@.insert(
                        Ast::Quest(Box::new(**a)),
                    ).insert(Ast::Quest(Box::new(**a))));
                    assert(rule_for(out@[0], *self, context@));
                    assert(rule_for(out@[1], *self, context@));
                    assert(rule_for(out@[2], *self, context@));
                }
            }
            Ast::Dual(d) => {
                match d.de_morgan_step() {
                    Some(pushed) => {
                        let premise = context.with(vec1(pushed));
                        out.push(Rule { name: "DeMorgan", above: prem1(premise) });
                        proof {
                            lemma_vec1_mset(de_morgan_spec(**d));
                            lemma_one_mset(out@[0]);
                            assert(out@[0].above@[0]@ =~= context@.insert(de_morgan_spec(**d)));
                            assert(rule_for(out@[0], *self, context@));
                        }
                    }
                    None => {}
                }
            }
            Ast::Times(a, b) => {
                return times_rules(a, b, &context);
            }
            Ast::Par(a, b) => {
                let premise = context.with(vec2((**a).clone(), (**b).clone()));
                out.push(Rule { name: "\u{214b}", above: prem1(premise) });
                proof {
                    lemma_vec2_mset(**a, **b);
                    lemma_one_mset(out@[0]);
                    assert(out@[0].above@[0]@ =~= context@.insert(**a).insert(**b));
                    assert(rule_for(out@[0], *self, context@));
                }
            }
            Ast::With(a, b) => {
                let left = context.with(vec1((**a).clone()));
                let right = context.with(vec1((**b).clone()));
                out.push(Rule { name: "&", above: prem2(left, right) });
                proof {
                    lemma_vec1_mset(**a);
                    lemma_vec1_mset(**b);
                    lemma_two_mset(out@[0]);
                    assert(out@[0].above@[0]@ =~= context@.insert(**a));
                    assert(out@[0].above@[1]@ =~= context@.insert(**b));
                    assert(rule_for(out@[0], *self, context@));
                }
            }
            Ast::Plus(a, b) => {
                let left = context.with(vec1((**a).clone()));
                let right = context.with(vec1((**b).clone()));
                out.push(Rule { name: "+L", above: prem1(left) });
                out.push(Rule { name: "+R", above: prem1(right) });
                proof {
                    lemma_vec1_mset(**a);
                    lemma_vec1_mset(**b);
                    lemma_one_mset(out@[0]);
                    lemma_one_mset(out@[1]);
                    assert(out@[0].above@[0]@ =~= context@.insert(**a));
                    assert(out@[1].above@[0]@ =~= context@.insert(**b));
                    assert(rule_for(out@[0], *self, context@));
                    assert(rule_for(out@[1], *self, context@));
                }
            }
        }
        out
    }
}

/// The multiplicative-conjunction rules: for every division of the context
/// into two halves, one rule per ordering of the halves.
fn times_rules(lhs: &Ast, rhs: &Ast, context: &RhsOnlyWithExchange) -> (r: Vec<Rule>)
    requires
        context.wf(),
        context@.len() + 2 <= usize::MAX,
        !axiom_applies(Ast::Times(Box::new(*lhs), Box::new(*rhs)), context@),
    ensures
        forall|i: int|
            0 <= i < r@.len() ==> #[trigger] rule_for(
                r@[i],
                Ast::Times(Box::new(*lhs), Box::new(*rhs)),
                context@,
            ),
        above_exact(
            Ast::Times(Box::new(*lhs), Box::new(*rhs)),
            context@,
            repeat_seq(context.rhs.entry_seq()),
            r@,
        ),
{
    let ghost principal = Ast::Times(Box::new(*lhs), Box::new(*rhs));
    let mut out: Vec<Rule> = Vec::new();
    let elems = context.rhs.iter_repeat();
    let n = elems.len();
    if n > TIMES_SPLIT_CAP {
        return out;
    }
    // 2^n by repeated doubling
    let mut total: usize = 1;
    let mut e: usize = 0;
    proof {
        lemma_two_to_mono(0, n as nat);
    }
    while e < n
        invariant
            e <= n,
            n <= TIMES_SPLIT_CAP,
            total == two_to(e as nat),
            total <= two_to(n as nat),
        decreases n - e,
    {
        proof {
            lemma_two_to_mono(e as nat + 1, n as nat);
            lemma_two_to_mono(n as nat, TIMES_SPLIT_CAP as nat);
            lemma_two_to_cap();
        }
        total = total * 2;
        e += 1;
    }
    proof {
        lemma_two_to_cap();
    }
    let mut bits: usize = 0;
    while bits < total
        invariant
            principal == Ast::Times(Box::new(*lhs), Box::new(*rhs)),
            context.wf(),
            context@.len() + 2 <= usize::MAX,
            elems@ == repeat_seq(context.rhs.entry_seq()),
            elems@.len() == context@.len(),
            n == elems@.len(),
            n <= TIMES_SPLIT_CAP,
            total == two_to(n as nat),
            bits <= total,
            out@.len() == 2 * bits,
            forall|i: int| 0 <= i < out@.len() ==> #[trigger] rule_for(out@[i], principal, context@),
            forall|k: int|
                0 <= k < bits ==> {
                    let halves = split_prefix(elems@, k as nat, n as int);
                    &&& (#[trigger] out@[2 * k]).premises_mset() == two_mset(
                        halves.0.insert(*lhs),
                        halves.1.insert(*rhs),
                    )
                    &&& out@[2 * k + 1].premises_mset() == two_mset(
                        halves.1.insert(*lhs),
                        halves.0.insert(*rhs),
                    )
                },
        decreases total - bits,
    {
        let mut lctx = Bag::new();
        let mut rctx = Bag::new();
        let mut rest: usize = bits;
        let mut idx: usize = 0;
        proof {
            assert(two_to(0) == 1);
        }
        while idx < n
            invariant
                context.wf(),
                context@.len() + 2 <= usize::MAX,
                elems@.len() == context@.len(),
                n == elems@.len(),
                idx <= n,
                rest == bits as nat / two_to(idx as nat),
                lctx.wf(),
                rctx.wf(),
                (lctx@, rctx@) == split_prefix(elems@, bits as nat, idx as int),
                lctx@.len() + rctx@.len() == idx,
            decreases n - idx,
        {
            proof {
                lemma_two_to_pos(idx as nat);
                vstd::arithmetic::div_mod::lemma_div_denominator(
                    bits as int,
                    two_to(idx as nat) as int,
                    2,
                );
            }
            if rest % 2 == 0 {
                let _count: usize = lctx.insert(elems[idx].clone());
            } else {
                let _count: usize = rctx.insert(elems[idx].clone());
            }
            rest = rest / 2;
            idx += 1;
        }
        proof {
            lemma_split_prefix_sound(elems@, bits as nat, n as int);
            assert(elems@.take(n as int) =~= elems@);
            crate::bag::lemma_repeat_seq_mset(context.rhs.entry_seq());
            context.rhs.lemma_view();
            assert(lctx@.add(rctx@) =~= context@);
            lemma_vec1_mset(*lhs);
            lemma_vec1_mset(*rhs);
        }
        let first = Rule {
            name: "\u{2297}",
            above: prem2(
                RhsOnlyWithExchange::new(lctx.with(vec1(lhs.clone()))),
                RhsOnlyWithExchange::new(rctx.with(vec1(rhs.clone()))),
            ),
        };
        let second = Rule {
            name: "\u{2297}",
            above: prem2(
                RhsOnlyWithExchange::new(rctx.with(vec1(lhs.clone()))),
                RhsOnlyWithExchange::new(lctx.with(vec1(rhs.clone()))),
            ),
        };
        proof {
            lemma_two_mset(first);
            lemma_two_mset(second);
            assert(first.above@[0]@ =~= lctx@.insert(*lhs));
            assert(first.above@[1]@ =~= rctx@.insert(*rhs));
            assert(second.above@[0]@ =~= rctx@.insert(*lhs));
            assert(second.above@[1]@ =~= lctx@.insert(*rhs));
            assert(candidate_ok(principal, context@, first.premises_mset())) by {
                assert(context@ == lctx@.add(rctx@));
                match principal {
                    Ast::Times(pa, pb) => {
                        assert(*pa == *lhs);
                        assert(*pb == *rhs);
                        assert(first.premises_mset() == two_mset(
                            lctx@.insert(*pa),
                            rctx@.insert(*pb),
                        ));
                    }
                    _ => {}
                }
                assert(structural_ok(principal, context@, first.premises_mset()));
            }
            assert(candidate_ok(principal, context@, second.premises_mset())) by {
                assert(context@ == rctx@.add(lctx@)) by {
                    assert(rctx@.add(lctx@) =~= lctx@.add(rctx@));
                }
                match principal {
                    Ast::Times(pa, pb) => {
                        assert(*pa == *lhs);
                        assert(*pb == *rhs);
                        assert(second.premises_mset() == two_mset(
                            rctx@.insert(*pa),
                            lctx@.insert(*pb),
                        ));
                    }
                    _ => {}
                }
                assert(structural_ok(principal, context@, second.premises_mset()));
            }
            assert(rule_for(first, principal, context@));
            assert(rule_for(second, principal, context@));
        }
        out.push(first);
        out.push(second);
        bits += 1;
    }
    out
}

/// Powers of two are positive.
proof fn lemma_two_to_pos(e: nat)
    ensures
        two_to(e) >= 1,
    decreases e,
{
    if e > 0 {
        lemma_two_to_pos((e - 1) as nat);
    }
}

/// Powers of two grow with the exponent.
proof fn lemma_two_to_mono(a: nat, b: nat)
    requires
        a <= b,
    ensures
        two_to(a) <= two_to(b),
    decreases b,
{
    if a < b {
        lemma_two_to_mono(a, (b - 1) as nat);
        lemma_two_to_pos((b - 1) as nat);
    }
}

/// The cap keeps every split count within machine range.
proof fn lemma_two_to_cap()
    ensures
        two_to(TIMES_SPLIT_CAP as nat) == 4096,
{
    reveal_with_fuel(two_to, 13);
}

} // verus!
