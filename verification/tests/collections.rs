//! The multiset, sequent and turnstile values, and their canonical text.

use std::collections::hash_map::DefaultHasher;
use std::hash::{Hash, Hasher};

use gentzen::{Ast, Bag, RhsOnlyWithExchange, Turnstile};

fn hash_of<T: Hash>(value: &T) -> u64 {
    let mut h = DefaultHasher::new();
    value.hash(&mut h);
    h.finish()
}

#[test]
fn insert_counts_occurrences() {
    let mut bag = Bag::new();
    assert_eq!(bag.insert(Ast::One), 1);
    assert_eq!(bag.insert(Ast::Bottom), 1);
    assert_eq!(bag.insert(Ast::One), 2);
    assert_eq!(bag.len(), 3);
    assert!(bag.contains(&Ast::One));
    assert!(bag.contains(&Ast::Bottom));
    assert!(!bag.contains(&Ast::Zero));
}

#[test]
fn take_decrements_and_removes() {
    let mut bag = Bag::new();
    bag.insert(Ast::One);
    bag.insert(Ast::One);
    assert!(bag.take(&Ast::One));
    assert!(bag.contains(&Ast::One));
    assert!(bag.take(&Ast::One));
    assert!(!bag.contains(&Ast::One));
    assert!(!bag.take(&Ast::One));
    assert!(bag.is_empty());
}

#[test]
fn only_sees_the_sole_element() {
    let mut bag = Bag::new();
    assert!(bag.only().is_none());
    bag.insert(Ast::Top);
    assert_eq!(bag.only(), Some(&Ast::Top));
    bag.insert(Ast::Top);
    assert!(bag.only().is_none());
}

#[test]
fn pair_sees_exactly_two() {
    let mut bag = Bag::new();
    bag.insert(Ast::One);
    assert!(bag.pair().is_none());
    bag.insert(Ast::One);
    assert_eq!(bag.pair(), Some((&Ast::One, &Ast::One)));
    bag.insert(Ast::Zero);
    assert!(bag.pair().is_none());
}

#[test]
fn any_element_on_empty_and_not() {
    let mut bag = Bag::new();
    assert!(bag.any_element().is_none());
    bag.insert(Ast::Bottom);
    assert!(bag.any_element().is_some());
}

#[test]
fn iteration_is_sorted_and_counted() {
    let bag = Bag::from_elements(vec![Ast::Bottom, Ast::One, Ast::Bottom]);
    let unique = bag.iter_unique();
    assert_eq!(unique.len(), 2);
    assert_eq!(unique[0], (Ast::One, 1));
    assert_eq!(unique[1], (Ast::Bottom, 2));
    let repeated = bag.iter_repeat();
    assert_eq!(repeated, vec![Ast::One, Ast::Bottom, Ast::Bottom]);
    let keys = bag.into_iter_unique();
    assert_eq!(keys, vec![Ast::One, Ast::Bottom]);
}

#[test]
fn with_leaves_the_original_alone() {
    let bag = Bag::from_elements(vec![Ast::One]);
    let grown = bag.with(vec![Ast::Zero, Ast::One]);
    assert_eq!(bag.len(), 1);
    assert_eq!(grown.len(), 3);
    assert_eq!(grown.into_iter_repeat(), vec![Ast::One, Ast::One, Ast::Zero]);
}

#[test]
fn multiset_structural_equality() {
    // the same (element, count) pairs reached in different orders give
    // values that are equal, hash-equal, and tied under the order
    let a = Bag::from_elements(vec![Ast::One, Ast::Zero, Ast::One, Ast::Top]);
    let b = Bag::from_elements(vec![Ast::Top, Ast::One, Ast::One, Ast::Zero]);
    assert_eq!(a, b);
    assert_eq!(hash_of(&a), hash_of(&b));
    assert!(a.same(&b));
    assert_eq!(a.compare(&b), core::cmp::Ordering::Equal);
    let left = RhsOnlyWithExchange::new(a);
    let right = RhsOnlyWithExchange::new(b);
    assert_eq!(left, right);
    assert_eq!(hash_of(&left), hash_of(&right));
    assert_eq!(left.compare(&right), core::cmp::Ordering::Equal);
}

#[test]
fn sequent_order_is_size_first() {
    let small = RhsOnlyWithExchange::from_rhs(Ast::Top);
    let big = RhsOnlyWithExchange::new(Bag::from_elements(vec![Ast::One, Ast::One]));
    assert_eq!(small.compare(&big), core::cmp::Ordering::Less);
    assert_eq!(big.compare(&small), core::cmp::Ordering::Greater);
}

#[test]
fn sample_separates_each_unique_formula() {
    let sequent = RhsOnlyWithExchange::new(Bag::from_elements(vec![
        Ast::One,
        Ast::One,
        Ast::Bottom,
    ]));
    let samples = sequent.sample();
    assert_eq!(samples.len(), 2);
    assert_eq!(samples[0].0, Ast::One);
    assert_eq!(samples[0].1.len(), 2);
    assert_eq!(samples[1].0, Ast::Bottom);
    assert_eq!(samples[1].1.len(), 2);
}

#[test]
fn turnstile_wraps_one_formula() {
    let mut turnstile = Turnstile::new(Ast::One);
    assert_eq!(turnstile.len(), 1);
    assert!(!turnstile.is_empty());
    assert_eq!(turnstile.only(), Some(&Ast::One));
    let grown = turnstile.with(vec![Ast::Zero]);
    assert_eq!(grown.len(), 2);
    assert!(grown.only().is_none());
    assert!(turnstile.take(&Ast::One));
    assert!(turnstile.is_empty());
    assert!(!turnstile.take(&Ast::One));
}

#[test]
fn formula_text_is_canonical() {
    assert_eq!(Ast::One.to_text(), "1");
    assert_eq!(Ast::Bottom.to_text(), "\u{22a5}");
    assert_eq!(Ast::Top.to_text(), "\u{22a4}");
    assert_eq!(Ast::Zero.to_text(), "0");
    assert_eq!(Ast::Value(7).to_text(), "P7");
    assert_eq!(Ast::Value(42).to_text(), "P42");
    assert_eq!(gentzen::bang(Ast::One).to_text(), "!1");
    assert_eq!(gentzen::quest(Ast::Zero).to_text(), "?0");
    assert_eq!(Ast::Value(0).dual().to_text(), "~P0");
    assert_eq!(Ast::One.times(Ast::Zero).to_text(), "(1 \u{2297} 0)");
    assert_eq!(Ast::One.par(Ast::Zero).to_text(), "(1 \u{214b} 0)");
    assert_eq!(Ast::One.with(Ast::Zero).to_text(), "(1 & 0)");
    assert_eq!(Ast::One.plus(Ast::Zero).to_text(), "(1 \u{2295} 0)");
    assert_eq!(
        Ast::Value(0).lollipop(Ast::Value(1)).to_text(),
        "(~P0 \u{214b} P1)",
    );
}

#[test]
fn sequent_text_repeats_duplicates() {
    let empty = RhsOnlyWithExchange::new(Bag::new());
    assert_eq!(empty.to_text(), "\u{22a2}");
    let single = RhsOnlyWithExchange::from_rhs(Ast::One);
    assert_eq!(single.to_text(), "\u{22a2} 1");
    let several = RhsOnlyWithExchange::new(Bag::from_elements(vec![
        Ast::Bottom,
        Ast::One,
        Ast::Bottom,
    ]));
    assert_eq!(several.to_text(), "\u{22a2} 1, \u{22a5}, \u{22a5}");
    let turnstile = Turnstile::new(Ast::Value(3));
    assert_eq!(turnstile.to_text(), "\u{22a2} P3");
}

#[test]
fn formula_order_is_total_and_structural() {
    assert_eq!(Ast::One.compare(&Ast::One), core::cmp::Ordering::Equal);
    assert_eq!(Ast::One.compare(&Ast::Bottom), core::cmp::Ordering::Less);
    assert_eq!(Ast::Value(2).compare(&Ast::Value(10)), core::cmp::Ordering::Less);
    assert_eq!(
        Ast::One.times(Ast::Zero).compare(&Ast::One.times(Ast::One)),
        core::cmp::Ordering::Greater,
    );
    assert!(Ast::Value(5).same(&Ast::Value(5)));
    assert!(!Ast::Value(5).same(&Ast::Value(6)));
}

#[test]
fn axiom_proof_prints_bottom_up() {
    let tree = gentzen::prove(Ast::One).unwrap();
    assert_eq!(tree.to_text(), "\n--- 1\n\u{22a2} 1\n");
}

#[test]
fn branching_proof_prints_every_row() {
    let tree = gentzen::prove(Ast::One.with(Ast::One)).unwrap();
    let text = tree.to_text();
    assert!(text.starts_with('\n'));
    assert!(text.ends_with('\n'));
    // the goal stands on the last line, under an inference line naming &
    let rows: Vec<&str> = text.trim_end().lines().collect();
    assert_eq!(rows.last().copied(), Some("\u{22a2} (1 & 1)"));
    assert!(rows[rows.len() - 2].contains('-'));
    assert!(rows[rows.len() - 2].ends_with('&'));
    // both premises appear side by side somewhere above
    assert!(rows.iter().any(|row| row.matches("\u{22a2} 1").count() == 2));
}
