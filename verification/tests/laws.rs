//! Concrete instances of the library's quantified laws.

use gentzen::{bang, prove, quest, Ast};

/// Whether the two formulas agree on provability.
fn agree(a: Ast, b: Ast) -> bool {
    prove(a).is_ok() == prove(b).is_ok()
}

#[test]
fn dual_involution_at_the_search_level() {
    // proving a formula and proving its double dual agree
    let samples = vec![
        Ast::One,
        Ast::Bottom,
        Ast::Top,
        Ast::Zero,
        Ast::Value(3),
        Ast::One.with(Ast::One),
        Ast::Zero.plus(Ast::One),
        Ast::Value(0).par(Ast::Value(0).dual()),
        bang(Ast::One),
        quest(Ast::Zero),
    ];
    for phi in samples {
        let doubled = phi.clone().dual().dual();
        assert!(agree(phi, doubled));
    }
}

#[test]
fn replaying_the_search_rebuilds_the_same_tree() {
    // rebuilding the cache from scratch and replaying is deterministic
    let candidates = vec![
        Ast::One,
        Ast::Top,
        Ast::Zero.par(Ast::Top),
        Ast::One.with(Ast::One),
        Ast::One.times(Ast::One),
        Ast::Value(0).par(Ast::Value(0).dual()),
        Ast::Value(0).with(Ast::Value(1)).lollipop(Ast::Value(0)),
    ];
    for phi in candidates {
        let first = prove(phi.clone()).unwrap();
        let second = prove(phi).unwrap();
        assert!(first.same_shape(&second));
    }
}

#[test]
fn top_in_any_sequent_proves_immediately() {
    // a goal that leaves Top in the sequent closes at once
    assert!(prove(Ast::Top).is_ok());
    assert!(prove(Ast::Zero.par(Ast::Top)).is_ok());
    assert!(prove(Ast::Top.par(Ast::Zero)).is_ok());
    assert!(prove(Ast::Value(9).par(Ast::Top)).is_ok());
    assert!(prove(quest(Ast::Zero).par(Ast::Top)).is_ok());
}

#[test]
fn excluded_middle_under_par_for_value_formulas() {
    for i in 0..5usize {
        let phi = Ast::Value(i);
        assert!(prove(phi.clone().dual().par(phi)).is_ok());
    }
    // and for a compound of values
    let compound = Ast::Value(0).with(Ast::Value(1));
    assert!(prove(compound.clone().dual().par(compound)).is_ok());
}
