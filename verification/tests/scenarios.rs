//! Concrete proof-search scenarios: which formulas prove and which fail.

use gentzen::{prove, Ast, Error};

#[test]
fn cant_prove_0() {
    let original = Ast::Zero;
    prove(original).unwrap_err();
}

#[test]
fn prove_1() {
    let original = Ast::One;
    prove(original).unwrap();
}

#[test]
fn prove_top() {
    let original = Ast::Top;
    prove(original).unwrap();
}

#[test]
fn prove_zero_par_top() {
    let original = Ast::Zero.par(Ast::Top);
    prove(original).unwrap();
}

#[test]
fn prove_0_implies_0() {
    let original = Ast::Zero.lollipop(Ast::Zero);
    prove(original).unwrap();
}

#[test]
fn prove_0_plus_1() {
    let original = Ast::Zero.plus(Ast::One);
    prove(original).unwrap();
}

#[test]
fn prove_1_plus_0() {
    let original = Ast::One.plus(Ast::Zero);
    prove(original).unwrap();
}

#[test]
fn prove_1_with_1() {
    let original = Ast::One.with(Ast::One);
    prove(original).unwrap();
}

#[test]
fn cant_prove_0_with_1() {
    let original = Ast::Zero.with(Ast::One);
    assert_eq!(prove(original).unwrap_err(), Error::RanOutOfPaths);
}

#[test]
fn cant_prove_1_with_0() {
    let original = Ast::One.with(Ast::Zero);
    assert_eq!(prove(original).unwrap_err(), Error::RanOutOfPaths);
}

#[test]
fn prove_1_times_1() {
    let original = Ast::One.times(Ast::One);
    prove(original).unwrap();
}

#[test]
fn cant_prove_1_times_0() {
    let original = Ast::One.times(Ast::Zero);
    assert_eq!(prove(original).unwrap_err(), Error::RanOutOfPaths);
}

#[test]
fn cant_prove_0_times_1() {
    let original = Ast::Zero.times(Ast::One);
    prove(original).unwrap_err();
}

#[test]
fn prove_1_times_1_times_1() {
    let original = Ast::One.times(Ast::One).times(Ast::One);
    prove(original).unwrap();
}

#[test]
fn a_with_b_implies_a() {
    let original = Ast::Value(0).with(Ast::Value(1)).lollipop(Ast::Value(0));
    prove(original).unwrap();
}

#[test]
fn a_with_b_implies_b() {
    let original = Ast::Value(0).with(Ast::Value(1)).lollipop(Ast::Value(1));
    prove(original).unwrap();
}

#[test]
fn bottom_implies_bottom() {
    let original = Ast::Bottom.lollipop(Ast::Bottom);
    prove(original).unwrap();
}

#[test]
fn prove_excluded_middle_par() {
    let original = Ast::Value(0).par(Ast::Value(0).dual());
    prove(original).unwrap();
}

#[test]
fn cant_prove_excluded_middle_plus() {
    let original = Ast::Value(0).plus(Ast::Value(0).dual());
    assert_eq!(prove(original).unwrap_err(), Error::RanOutOfPaths);
}

#[test]
fn cant_prove_excluded_middle_with() {
    let original = Ast::Value(0).with(Ast::Value(0).dual());
    assert_eq!(prove(original).unwrap_err(), Error::RanOutOfPaths);
}

#[test]
fn prove_chained_lollipops() {
    let original = Ast::One.lollipop(
        Ast::One.lollipop(Ast::One.lollipop(Ast::One.lollipop(Ast::One.times(Ast::One)))),
    );
    prove(original).unwrap();
}

#[test]
fn prove_method_matches_free_function() {
    assert!(Ast::Top.prove().is_ok());
    assert!(Ast::Zero.prove().is_err());
}

#[test]
fn successful_tree_concludes_the_goal() {
    let tree = prove(Ast::One.with(Ast::One)).unwrap();
    let goal = gentzen::RhsOnlyWithExchange::from_rhs(Ast::One.with(Ast::One));
    assert!(tree.below.same(&goal));
    // the additive conjunction splits into two premises
    assert_eq!(tree.above.len(), 2);
}

#[test]
fn promotion_needs_a_quest_context() {
    // promotion fires only when the context is a single why-not formula,
    // so a bare !1 dead-ends while !1 beside ?0 proves
    assert!(prove(gentzen::bang(Ast::One)).is_err());
    let original = gentzen::bang(Ast::One).par(gentzen::quest(Ast::Zero));
    prove(original).unwrap();
}

#[test]
fn weakening_discards_quest() {
    // ?P0 par 1: weakening drops the exponential, the unit closes
    let original = gentzen::quest(Ast::Value(0)).par(Ast::One);
    prove(original).unwrap();
}

#[test]
fn dereliction_uses_quest() {
    // ?~P0 par P0 succeeds by dereliction and the identity axiom
    let original = gentzen::quest(Ast::Value(0).dual()).par(Ast::Value(0));
    prove(original).unwrap();
}
