//! Unordered collection of (potentially many of the same) formulas.
//!
//! The collection is stored as a vector of `(formula, count)` pairs, sorted
//! strictly by the structural order on formulas, so that equal multisets have
//! equal representations. Its mathematical value is a [`vstd::multiset::Multiset`].

use vstd::prelude::*;
use crate::ast::{ast_cmp_spec, lemma_ast_cmp_eq, lemma_ast_cmp_flip, lemma_ast_cmp_trans, Ast};

verus! {

broadcast use {vstd::multiset::group_multiset_axioms, vstd::seq_lib::group_to_multiset_ensures};

/// Strict structural order on formulas.
pub open spec fn ast_lt(a: Ast, b: Ast) -> bool {
    ast_cmp_spec(a, b) == core::cmp::Ordering::Less
}

/// `n` occurrences of one formula.
pub open spec fn copies(a: Ast, n: nat) -> vstd::multiset::Multiset<Ast>
    decreases n,
{
    if n == 0 {
        vstd::multiset::Multiset::empty()
    } else {
        copies(a, (n - 1) as nat).insert(a)
    }
}

/// The multiset denoted by a sequence of `(formula, count)` pairs.
pub open spec fn seq_mset(s: Seq<(Ast, usize)>) -> vstd::multiset::Multiset<Ast>
    decreases s.len(),
{
    if s.len() == 0 {
        vstd::multiset::Multiset::empty()
    } else {
        seq_mset(s.drop_last()).add(copies(s.last().0, s.last().1 as nat))
    }
}

/// Well-formed entry list: positive counts, keys strictly ascending.
pub open spec fn entries_wf(s: Seq<(Ast, usize)>) -> bool {
    &&& forall|i: int| 0 <= i < s.len() ==> (#[trigger] s[i]).1 >= 1
    &&& forall|i: int, j: int| 0 <= i < j < s.len() ==> #[trigger] ast_lt(s[i].0, s[j].0)
}

/// How many of each formula a run of copies holds.
pub proof fn lemma_copies_count(a: Ast, n: nat, b: Ast)
    ensures
        copies(a, n).count(b) == if b == a {
            n
        } else {
            0
        },
        copies(a, n).len() == n,
    decreases n,
{
    if n > 0 {
        lemma_copies_count(a, (n - 1) as nat, b);
    }
}

/// The multiset of a single entry is a run of copies of its key.
pub proof fn lemma_seq_mset_singleton(p: (Ast, usize))
    ensures
        seq_mset(seq![p]) =~= copies(p.0, p.1 as nat),
{
    reveal_with_fuel(seq_mset, 2);
    assert(seq![p].drop_last() =~= Seq::<(Ast, usize)>::empty());
}

/// The multiset of a concatenation is the sum of the parts.
pub proof fn lemma_seq_mset_concat(s: Seq<(Ast, usize)>, t: Seq<(Ast, usize)>)
    ensures
        seq_mset(s + t) =~= seq_mset(s).add(seq_mset(t)),
    decreases t.len(),
{
    if t.len() == 0 {
        assert(s + t =~= s);
    } else {
        assert((s + t).drop_last() =~= s + t.drop_last());
        assert((s + t).last() == t.last());
        lemma_seq_mset_concat(s, t.drop_last());
    }
}

/// Total size of the multiset of an entry list with positive counts.
pub proof fn lemma_seq_mset_len(s: Seq<(Ast, usize)>)
    requires
        forall|i: int| 0 <= i < s.len() ==> (#[trigger] s[i]).1 >= 1,
    ensures
        seq_mset(s).len() >= s.len(),
    decreases s.len(),
{
    if s.len() > 0 {
        lemma_seq_mset_len(s.drop_last());
        lemma_copies_count(s.last().0, s.last().1 as nat, s.last().0);
    }
}

/// A formula under none of the keys has count zero.
pub proof fn lemma_seq_mset_absent(s: Seq<(Ast, usize)>, x: Ast)
    requires
        forall|i: int| 0 <= i < s.len() ==> (#[trigger] s[i]).0 != x,
    ensures
        seq_mset(s).count(x) == 0,
    decreases s.len(),
{
    if s.len() > 0 {
        lemma_seq_mset_absent(s.drop_last(), x);
        lemma_copies_count(s.last().0, s.last().1 as nat, x);
    }
}

/// A formula with a positive count stands under one of the keys.
pub proof fn lemma_seq_mset_present(s: Seq<(Ast, usize)>, x: Ast)
    requires
        seq_mset(s).count(x) > 0,
    ensures
        exists|i: int| 0 <= i < s.len() && (#[trigger] s[i]).0 == x,
    decreases s.len(),
{
    if s.len() > 0 {
        lemma_copies_count(s.last().0, s.last().1 as nat, x);
        if s.last().0 == x {
            assert(0 <= s.len() - 1 < s.len() && s[s.len() - 1].0 == x);
        } else {
            lemma_seq_mset_present(s.drop_last(), x);
            let i = choose|i: int|
                0 <= i < s.drop_last().len() && (#[trigger] s.drop_last()[i]).0 == x;
            assert(0 <= i < s.len() && s[i].0 == x);
        }
    }
}

/// With distinct keys, each key's count in the multiset is its stored count.
pub proof fn lemma_seq_mset_key_count(s: Seq<(Ast, usize)>, i: int)
    requires
        0 <= i < s.len(),
        forall|p: int, q: int| 0 <= p < q < s.len() ==> (#[trigger] s[p]).0 != (#[trigger] s[q]).0,
    ensures
        seq_mset(s).count(s[i].0) == s[i].1,
    decreases s.len(),
{
    lemma_copies_count(s.last().0, s.last().1 as nat, s[i].0);
    if i == s.len() - 1 {
        assert forall|p: int| 0 <= p < s.drop_last().len() implies (#[trigger] s.drop_last()[p]).0
            != s[i].0 by {
            assert(s.drop_last()[p] == s[p]);
        }
        lemma_seq_mset_absent(s.drop_last(), s[i].0);
    } else {
        lemma_seq_mset_key_count(s.drop_last(), i);
    }
}

/// Strictly ascending keys are distinct.
pub proof fn lemma_wf_distinct(s: Seq<(Ast, usize)>)
    requires
        entries_wf(s),
    ensures
        forall|p: int, q: int| 0 <= p < q < s.len() ==> (#[trigger] s[p]).0 != (#[trigger] s[q]).0,
{
    assert forall|p: int, q: int| 0 <= p < q < s.len() implies (#[trigger] s[p]).0
        != (#[trigger] s[q]).0 by {
        assert(ast_lt(s[p].0, s[q].0));
        lemma_ast_cmp_eq(s[p].0, s[q].0);
    }
}

/// Two well-formed entry lists denoting the same multiset are identical.
pub proof fn lemma_canonical_entries(s: Seq<(Ast, usize)>, t: Seq<(Ast, usize)>)
    requires
        entries_wf(s),
        entries_wf(t),
        seq_mset(s) =~= seq_mset(t),
    ensures
        s =~= t,
    decreases s.len(),
{
    lemma_wf_distinct(s);
    lemma_wf_distinct(t);
    if s.len() == 0 {
        if t.len() > 0 {
            lemma_seq_mset_key_count(t, t.len() - 1);
        }
    } else if t.len() == 0 {
        lemma_seq_mset_key_count(s, s.len() - 1);
    } else {
        let ka = s.last().0;
        let ca = s.last().1;
        let kb = t.last().0;
        let cb = t.last().1;
        lemma_seq_mset_key_count(s, s.len() - 1);
        lemma_seq_mset_key_count(t, t.len() - 1);
        assert(seq_mset(t).count(ka) == ca);
        assert(seq_mset(s).count(kb) == cb);
        // the last key of each list occurs in the other, so each is at most
        // the other's maximum, hence the last keys agree
        lemma_seq_mset_present(t, ka);
        lemma_seq_mset_present(s, kb);
        assert(ka == kb) by {
            if ka != kb {
                let ja = choose|j: int| 0 <= j < t.len() && (#[trigger] t[j]).0 == ka;
                let jb = choose|j: int| 0 <= j < s.len() && (#[trigger] s[j]).0 == kb;
                assert(ast_lt(ka, kb)) by {
                    assert(ja < t.len() - 1) by {
                        lemma_ast_cmp_eq(ka, kb);
                    }
                    assert(ast_lt(t[ja].0, t[t.len() - 1].0));
                }
                assert(ast_lt(kb, ka)) by {
                    assert(jb < s.len() - 1) by {
                        lemma_ast_cmp_eq(kb, ka);
                    }
                    assert(ast_lt(s[jb].0, s[s.len() - 1].0));
                }
                lemma_ast_cmp_trans(ka, kb, ka);
                lemma_ast_cmp_eq(ka, ka);
            }
        }
        assert(ca == cb);
        let s0 = s.drop_last();
        let t0 = t.drop_last();
        assert(seq_mset(s) == seq_mset(s0).add(copies(ka, ca as nat)));
        assert(seq_mset(t) == seq_mset(t0).add(copies(kb, cb as nat)));
        assert(seq_mset(s0) =~= seq_mset(t0)) by {
            assert forall|x: Ast| seq_mset(s0).count(x) == seq_mset(t0).count(x) by {
                assert(seq_mset(s).count(x) == seq_mset(t).count(x));
                lemma_copies_count(ka, ca as nat, x);
            }
        }
        lemma_canonical_entries(s0, t0);
        assert(s =~= t) by {
            assert(s =~= s0.push((ka, ca)));
            assert(t =~= t0.push((kb, cb)));
        }
    }
}

/// A well-formed bag holding exactly one copy of one formula has the one
/// canonical entry list.
pub proof fn lemma_singleton_entries(b: &Bag, x: Ast)
    requires
        b.wf(),
        b@ == vstd::multiset::Multiset::singleton(x),
    ensures
        b.entry_seq() =~= seq![(x, 1usize)],
{
    let canon = seq![(x, 1usize)];
    assert(entries_wf(canon));
    lemma_seq_mset_singleton((x, 1usize));
    assert(copies(x, 1) =~= vstd::multiset::Multiset::singleton(x)) by {
        reveal_with_fuel(copies, 2);
    }
    assert(seq_mset(b.entry_seq()) =~= seq_mset(canon));
    lemma_canonical_entries(b.entry_seq(), canon);
}

/// Unordered counted collection of formulas, the right-hand side of a
/// sequent. Equal multisets have equal representations, so structural
/// equality coincides with multiset equality.
#[derive(Debug, PartialEq, Eq, Hash)]
pub struct Bag {
    entries: Vec<(Ast, usize)>,
}

impl View for Bag {
    type V = vstd::multiset::Multiset<Ast>;

    closed spec fn view(&self) -> vstd::multiset::Multiset<Ast> {
        seq_mset(self.entries@)
    }
}

impl Bag {
    /// Sorted `(formula, count)` entries backing the collection.
    pub closed spec fn entry_seq(&self) -> Seq<(Ast, usize)> {
        self.entries@
    }

    /// Representation invariant: positive counts, keys strictly ascending.
    pub closed spec fn wf(&self) -> bool {
        entries_wf(self.entries@)
    }

    /// The multiset is the one its entries denote.
    pub proof fn lemma_view(&self)
        ensures
            self@ == seq_mset(self.entry_seq()),
    {
    }

    /// The entries stand in strictly ascending formula order: the canonical
    /// order every iteration follows.
    pub proof fn lemma_entries_sorted(&self)
        requires
            self.wf(),
        ensures
            forall|i: int, j: int|
                0 <= i < j < self.entry_seq().len() ==> #[trigger] ast_lt(
                    self.entry_seq()[i].0,
                    self.entry_seq()[j].0,
                ),
    {
        assert forall|i: int, j: int|
            0 <= i < j < self.entry_seq().len() implies #[trigger] ast_lt(
            self.entry_seq()[i].0,
            self.entry_seq()[j].0,
        ) by {
            assert(ast_lt(self.entries@[i].0, self.entries@[j].0));
        }
    }

    /// Each entry's stored count is its count in the multiset, and every
    /// member of the multiset stands under some entry.
    pub proof fn lemma_entry_counts(&self)
        requires
            self.wf(),
        ensures
            forall|i: int|
                0 <= i < self.entry_seq().len() ==> self@.count(
                    (#[trigger] self.entry_seq()[i]).0,
                ) == self.entry_seq()[i].1,
            forall|x: Ast|
                self@.count(x) > 0 ==> exists|i: int|
                    0 <= i < self.entry_seq().len() && (#[trigger] self.entry_seq()[i]).0 == x,
            forall|i: int| 0 <= i < self.entry_seq().len() ==> (#[trigger] self.entry_seq()[i]).1 >= 1,
            self@.len() >= self.entry_seq().len(),
    {
        lemma_wf_distinct(self.entries@);
        lemma_seq_mset_len(self.entries@);
        assert forall|i: int|
            0 <= i < self.entry_seq().len() implies self@.count(
            (#[trigger] self.entry_seq()[i]).0,
        ) == self.entry_seq()[i].1 by {
            lemma_seq_mset_key_count(self.entries@, i);
        }
        assert forall|x: Ast| self@.count(x) > 0 implies exists|i: int|
            0 <= i < self.entry_seq().len() && (#[trigger] self.entry_seq()[i]).0 == x by {
            lemma_seq_mset_present(self.entries@, x);
            let i = choose|i: int| 0 <= i < self.entries@.len() && (#[trigger] self.entries@[i]).0 == x;
            assert(0 <= i < self.entry_seq().len() && self.entry_seq()[i].0 == x);
        }
    }

    /// Empty multiset.
    #[must_use]
    pub fn new() -> (r: Self)
        ensures
            r.wf(),
            r@ =~= vstd::multiset::Multiset::empty(),
            r.entry_seq() =~= Seq::<(Ast, usize)>::empty(),
    {
        Bag { entries: Vec::new() }
    }

    /// Add one occurrence of a formula. Returns how many there now are.
    pub fn insert(&mut self, element: Ast) -> (now: usize)
        requires
            old(self).wf(),
            old(self)@.count(element) < usize::MAX,
        ensures
            final(self).wf(),
            final(self)@ =~= old(self)@.insert(element),
            now == final(self)@.count(element),
    {
        proof {
            self.lemma_entry_counts();
            lemma_wf_distinct(self.entries@);
        }
        let ghost s0 = self.entries@;
        let mut i: usize = 0;
        loop
            invariant
                old(self).entries@ == s0,
                entries_wf(s0),
                old(self)@.count(element) < usize::MAX,
                self.entries@ == s0,
                i <= s0.len(),
                forall|j: int| 0 <= j < i ==> #[trigger] ast_lt(s0[j].0, element),
            ensures
                self.entries@ == s0,
                i <= s0.len(),
                forall|j: int| 0 <= j < i ==> #[trigger] ast_lt(s0[j].0, element),
                i < s0.len() ==> ast_cmp_spec(s0[i as int].0, element)
                    == core::cmp::Ordering::Greater,
            decreases s0.len() - i,
        {
            if i == self.entries.len() {
                break;
            }
            let c = self.entries[i].0.compare(&element);
            match c {
                core::cmp::Ordering::Less => {
                    i += 1;
                }
                core::cmp::Ordering::Equal => {
                    proof {
                        lemma_ast_cmp_eq(s0[i as int].0, element);
                        lemma_wf_distinct(s0);
                        lemma_seq_mset_key_count(s0, i as int);
                    }
                    // same key: bump the count
                    let pair = self.entries.remove(i);
                    let cnt = pair.1;
                    self.entries.insert(i, (pair.0, cnt + 1));
                    proof {
                        assert(self.entries@ =~= s0.update(
                            i as int,
                            (s0[i as int].0, (s0[i as int].1 + 1) as usize),
                        ));
                        lemma_update_count(s0, i as int, element);
                        self.lemma_entry_counts();
                    }
                    return self.entries[i].1;
                }
                core::cmp::Ordering::Greater => {
                    break;
                }
            }
        }
        // the key is new: every key before `i` is below it and every key from
        // `i` on is above it
        proof {
            if i < s0.len() {
                lemma_ast_cmp_flip(element, s0[i as int].0);
                assert(ast_lt(element, s0[i as int].0));
            }
            assert forall|j: int| i <= j < s0.len() implies #[trigger] ast_lt(
                element,
                s0[j].0,
            ) by {
                if j > i {
                    assert(ast_lt(s0[i as int].0, s0[j].0));
                    lemma_ast_cmp_trans(element, s0[i as int].0, s0[j].0);
                }
            }
            assert forall|j: int| 0 <= j < s0.len() implies (#[trigger] s0[j]).0 != element by {
                if j < i {
                    assert(ast_lt(s0[j].0, element));
                    lemma_ast_cmp_eq(s0[j].0, element);
                } else {
                    assert(ast_lt(element, s0[j].0));
                    lemma_ast_cmp_eq(element, s0[j].0);
                }
            }
            lemma_seq_mset_absent(s0, element);
        }
        self.entries.insert(i, (element, 1));
        proof {
            let s1 = self.entries@;
            assert(s1 =~= s0.take(i as int) + seq![(element, 1usize)] + s0.skip(i as int));
            assert(s0 =~= s0.take(i as int) + s0.skip(i as int));
            lemma_seq_mset_concat(s0.take(i as int) + seq![(element, 1usize)], s0.skip(i as int));
            lemma_seq_mset_concat(s0.take(i as int), seq![(element, 1usize)]);
            lemma_seq_mset_concat(s0.take(i as int), s0.skip(i as int));
            lemma_seq_mset_singleton((element, 1usize));
            assert(copies(element, 1) =~= vstd::multiset::Multiset::empty().insert(element)) by {
                reveal_with_fuel(copies, 2);
            }
            assert(self@ =~= seq_mset(s0).insert(element));
            assert(entries_wf(s1)) by {
                assert forall|p: int, q: int| 0 <= p < q < s1.len() implies #[trigger] ast_lt(
                    s1[p].0,
                    s1[q].0,
                ) by {
                    if p < i && q > i {
                        assert(ast_lt(s0[p].0, element));
                        assert(ast_lt(element, s0[q - 1].0));
                        lemma_ast_cmp_trans(s0[p].0, element, s0[q - 1].0);
                    }
                }
            }
            self.lemma_entry_counts();
            lemma_copies_count(element, 1, element);
        }
        1
    }

    /// Look for a formula, no matter how many, without changing anything.
    pub fn contains(&self, element: &Ast) -> (r: bool)
        requires
            self.wf(),
        ensures
            r == self@.contains(*element),
    {
        let ghost s0 = self.entries@;
        let n = self.entries.len();
        let mut i: usize = 0;
        while i < n
            invariant
                self.wf(),
                self.entries@ == s0,
                n == s0.len(),
                i <= n,
                forall|j: int| 0 <= j < i ==> (#[trigger] s0[j]).0 != *element,
            decreases n - i,
        {
            if self.entries[i].0.same(element) {
                proof {
                    lemma_wf_distinct(s0);
                    lemma_seq_mset_key_count(s0, i as int);
                }
                return true;
            }
            i += 1;
        }
        proof {
            lemma_seq_mset_absent(s0, *element);
        }
        false
    }

    /// Take a formula out by decreasing its count if we can.
    pub fn take(&mut self, element: &Ast) -> (r: bool)
        requires
            old(self).wf(),
        ensures
            final(self).wf(),
            r == old(self)@.contains(*element),
            final(self)@ =~= if r {
                old(self)@.remove(*element)
            } else {
                old(self)@
            },
    {
        let ghost s0 = self.entries@;
        let n = self.entries.len();
        let mut i: usize = 0;
        while i < n
            invariant
                old(self).wf(),
                old(self).entries@ == s0,
                self.entries@ == s0,
                n == s0.len(),
                i <= n,
                forall|j: int| 0 <= j < i ==> #[trigger] ast_lt(s0[j].0, *element),
            decreases n - i,
        {
            let c = self.entries[i].0.compare(element);
            match c {
                core::cmp::Ordering::Less => {
                    i += 1;
                }
                core::cmp::Ordering::Equal => {
                    proof {
                        lemma_ast_cmp_eq(s0[i as int].0, *element);
                        lemma_wf_distinct(s0);
                        lemma_seq_mset_key_count(s0, i as int);
                        lemma_entry_extract(s0, i as int);
                        lemma_wf_remove(s0, i as int);
                    }
                    let pair = self.entries.remove(i);
                    if pair.1 >= 2 {
                        self.entries.insert(i, (pair.0, pair.1 - 1));
                        proof {
                            let s1 = self.entries@;
                            assert(s1 =~= s0.update(
                                i as int,
                                (s0[i as int].0, (s0[i as int].1 - 1) as usize),
                            ));
                            assert(s1.remove(i as int) =~= s0.remove(i as int));
                            lemma_entry_extract(s1, i as int);
                            assert(entries_wf(s1)) by {
                                assert forall|p: int, q: int|
                                    0 <= p < q < s1.len() implies #[trigger] ast_lt(
                                    s1[p].0,
                                    s1[q].0,
                                ) by {
                                    assert(s1[p].0 == s0[p].0);
                                    assert(s1[q].0 == s0[q].0);
                                    assert(ast_lt(s0[p].0, s0[q].0));
                                }
                            }
                            assert(self@ =~= seq_mset(s0).remove(*element));
                        }
                    } else {
                        proof {
                            assert(self.entries@ == s0.remove(i as int));
                            assert(self@ =~= seq_mset(s0).remove(*element));
                        }
                    }
                    return true;
                }
                core::cmp::Ordering::Greater => {
                    proof {
                        lemma_absent_from_sorted(s0, i as int, *element);
                        lemma_seq_mset_absent(s0, *element);
                    }
                    return false;
                }
            }
        }
        proof {
            assert forall|j: int| 0 <= j < s0.len() implies (#[trigger] s0[j]).0 != *element by {
                assert(ast_lt(s0[j].0, *element));
                lemma_ast_cmp_eq(s0[j].0, *element);
            }
            lemma_seq_mset_absent(s0, *element);
        }
        false
    }

    /// Whole number of formulas, counting all duplicates.
    pub fn len(&self) -> (n: usize)
        requires
            self.wf(),
            self@.len() <= usize::MAX,
        ensures
            n == self@.len(),
    {
        let ghost s = self.entries@;
        let m = self.entries.len();
        let mut total: usize = 0;
        let mut i: usize = 0;
        while i < m
            invariant
                self.wf(),
                self.entries@ == s,
                m == s.len(),
                i <= m,
                seq_mset(s).len() <= usize::MAX,
                total == seq_mset(s.take(i as int)).len(),
            decreases m - i,
        {
            proof {
                assert(s.take(i + 1) =~= s.take(i as int) + seq![s[i as int]]);
                lemma_seq_mset_concat(s.take(i as int), seq![s[i as int]]);
                lemma_seq_mset_singleton(s[i as int]);
                lemma_copies_count(s[i as int].0, s[i as int].1 as nat, s[i as int].0);
                assert(s =~= s.take(i + 1) + s.skip(i + 1));
                lemma_seq_mset_concat(s.take(i + 1), s.skip(i + 1));
            }
            total += self.entries[i].1;
            i += 1;
        }
        proof {
            assert(s.take(m as int) =~= s);
        }
        total
    }

    /// Whether there are any formulas.
    pub fn is_empty(&self) -> (r: bool)
        requires
            self.wf(),
        ensures
            r == (self@.len() == 0),
    {
        proof {
            if self.entries@.len() > 0 {
                lemma_seq_mset_len(self.entries@);
            }
        }
        self.entries.len() == 0
    }

    /// View an arbitrary formula without taking it out.
    #[must_use]
    pub fn any_element(&self) -> (r: Option<&Ast>)
        requires
            self.wf(),
        ensures
            match r {
                Some(e) => self@.count(*e) > 0 && *e == self.entry_seq()[0].0,
                None => self@.len() == 0,
            },
    {
        if self.entries.len() == 0 {
            None
        } else {
            proof {
                self.lemma_entry_counts();
            }
            Some(&self.entries[0].0)
        }
    }

    /// If this collection has exactly one formula, view it without taking it
    /// out.
    #[must_use]
    pub fn only(&self) -> (r: Option<&Ast>)
        requires
            self.wf(),
        ensures
            match r {
                Some(e) => self@ =~= vstd::multiset::Multiset::singleton(*e),
                None => self@.len() != 1,
            },
    {
        proof {
            lemma_seq_mset_len(self.entries@);
            if self.entries@.len() == 1 {
                assert(self.entries@ =~= seq![self.entries@[0]]);
                lemma_seq_mset_singleton(self.entries@[0]);
                lemma_copies_count(self.entries@[0].0, self.entries@[0].1 as nat, self.entries@[0].0);
            }
        }
        if self.entries.len() == 1 {
            let cnt = self.entries[0].1;
            if cnt == 1 {
                proof {
                    assert forall|x: Ast|
                        self@.count(x) == vstd::multiset::Multiset::singleton(
                            self.entries@[0].0,
                        ).count(x) by {
                        lemma_copies_count(self.entries@[0].0, 1, x);
                    }
                }
                Some(&self.entries[0].0)
            } else {
                None
            }
        } else {
            None
        }
    }

    /// If this collection has exactly two formulas, view them without taking
    /// them out.
    #[must_use]
    pub fn pair(&self) -> (r: Option<(&Ast, &Ast)>)
        requires
            self.wf(),
        ensures
            match r {
                Some(p) => self@ =~= vstd::multiset::Multiset::singleton(*p.0).insert(*p.1)
                    && ast_cmp_spec(*p.0, *p.1) != core::cmp::Ordering::Greater,
                None => self@.len() != 2,
            },
    {
        proof {
            lemma_seq_mset_len(self.entries@);
            if self.entries@.len() == 1 {
                lemma_ast_cmp_eq(self.entries@[0].0, self.entries@[0].0);
            }
            if self.entries@.len() >= 2 {
                assert(ast_lt(self.entries@[0].0, self.entries@[1].0));
                lemma_ast_cmp_eq(self.entries@[0].0, self.entries@[1].0);
            }
        }
        if self.entries.len() == 1 {
            proof {
                assert(self.entries@ =~= seq![self.entries@[0]]);
                lemma_seq_mset_singleton(self.entries@[0]);
            }
            let cnt = self.entries[0].1;
            if cnt == 2 {
                proof {
                    assert forall|x: Ast|
                        self@.count(x) == vstd::multiset::Multiset::singleton(
                            self.entries@[0].0,
                        ).insert(self.entries@[0].0).count(x) by {
                        lemma_copies_count(self.entries@[0].0, 2, x);
                    }
                }
                Some((&self.entries[0].0, &self.entries[0].0))
            } else {
                proof {
                    lemma_copies_count(self.entries@[0].0, self.entries@[0].1 as nat, self.entries@[0].0);
                }
                None
            }
        } else if self.entries.len() == 2 {
            proof {
                assert(self.entries@ =~= seq![self.entries@[0], self.entries@[1]]);
                lemma_seq_mset_two(self.entries@[0], self.entries@[1]);
                lemma_copies_count(self.entries@[0].0, self.entries@[0].1 as nat, self.entries@[0].0);
                lemma_copies_count(self.entries@[1].0, self.entries@[1].1 as nat, self.entries@[1].0);
            }
            let c0 = self.entries[0].1;
            let c1 = self.entries[1].1;
            if c0 == 1 && c1 == 1 {
                proof {
                    assert forall|x: Ast|
                        self@.count(x) == vstd::multiset::Multiset::singleton(
                            self.entries@[0].0,
                        ).insert(self.entries@[1].0).count(x) by {
                        lemma_copies_count(self.entries@[0].0, 1, x);
                        lemma_copies_count(self.entries@[1].0, 1, x);
                    }
                }
                Some((&self.entries[0].0, &self.entries[1].0))
            } else {
                proof {
                    assert forall|x: Ast| true implies self@.count(x) >= 0 by {
                        lemma_copies_count(self.entries@[0].0, self.entries@[0].1 as nat, x);
                        lemma_copies_count(self.entries@[1].0, self.entries@[1].1 as nat, x);
                    }
                    assert(self@.len() == self.entries@[0].1 + self.entries@[1].1);
                }
                None
            }
        } else {
            None
        }
    }
}

/// One formula repeated.
pub open spec fn repeat_of(a: Ast, n: nat) -> Seq<Ast> {
    Seq::new(n, |k: int| a)
}

/// Every occurrence in an entry list, one after the other.
pub open spec fn repeat_seq(s: Seq<(Ast, usize)>) -> Seq<Ast>
    decreases s.len(),
{
    if s.len() == 0 {
        Seq::empty()
    } else {
        repeat_seq(s.drop_last()) + repeat_of(s.last().0, s.last().1 as nat)
    }
}

/// A run of one formula denotes that many copies of it.
pub proof fn lemma_repeat_of_mset(a: Ast, n: nat)
    ensures
        repeat_of(a, n).to_multiset() =~= copies(a, n),
    decreases n,
{
    if n == 0 {
        assert(repeat_of(a, 0) =~= Seq::<Ast>::empty());
        assert(Seq::<Ast>::empty().to_multiset() =~= vstd::multiset::Multiset::empty());
    } else {
        lemma_repeat_of_mset(a, (n - 1) as nat);
        assert(repeat_of(a, n) =~= repeat_of(a, (n - 1) as nat).push(a));
    }
}

/// The run of occurrences denotes the same multiset as the entry list.
pub proof fn lemma_repeat_seq_mset(s: Seq<(Ast, usize)>)
    ensures
        repeat_seq(s).to_multiset() =~= seq_mset(s),
    decreases s.len(),
{
    if s.len() > 0 {
        lemma_repeat_seq_mset(s.drop_last());
        vstd::seq_lib::lemma_multiset_commutative(
            repeat_seq(s.drop_last()),
            repeat_of(s.last().0, s.last().1 as nat),
        );
        lemma_repeat_of_mset(s.last().0, s.last().1 as nat);
    }
}

/// The run of occurrences is as long as the multiset is large.
pub proof fn lemma_repeat_seq_len(s: Seq<(Ast, usize)>)
    ensures
        repeat_seq(s).len() == seq_mset(s).len(),
    decreases s.len(),
{
    if s.len() > 0 {
        lemma_repeat_seq_len(s.drop_last());
        lemma_copies_count(s.last().0, s.last().1 as nat, s.last().0);
    }
}

/// Each occurrence in the run of occurrences is one of the keys.
proof fn lemma_repeat_seq_members(s: Seq<(Ast, usize)>)
    ensures
        forall|i: int|
            0 <= i < repeat_seq(s).len() ==> exists|k: int|
                0 <= k < s.len() && #[trigger] repeat_seq(s)[i] == s[k].0,
    decreases s.len(),
{
    if s.len() > 0 {
        lemma_repeat_seq_members(s.drop_last());
        let pre = repeat_seq(s.drop_last());
        assert forall|i: int| 0 <= i < repeat_seq(s).len() implies exists|k: int|
            0 <= k < s.len() && #[trigger] repeat_seq(s)[i] == s[k].0 by {
            if i < pre.len() {
                let k = choose|k: int| 0 <= k < s.drop_last().len() && pre[i] == s.drop_last()[k].0;
                assert(0 <= k < s.len() && repeat_seq(s)[i] == s[k].0);
            } else {
                assert(repeat_seq(s)[i] == s.last().0);
                assert(0 <= s.len() - 1 < s.len() && repeat_seq(s)[i] == s[s.len() - 1].0);
            }
        }
    }
}

/// Over a well-formed entry list the run of occurrences never steps down:
/// duplicates sit side by side in ascending formula order.
pub proof fn lemma_repeat_seq_ordered(s: Seq<(Ast, usize)>)
    requires
        entries_wf(s),
    ensures
        forall|i: int, j: int|
            0 <= i <= j < repeat_seq(s).len() ==> ast_cmp_spec(
                #[trigger] repeat_seq(s)[i],
                #[trigger] repeat_seq(s)[j],
            ) != core::cmp::Ordering::Greater,
    decreases s.len(),
{
    if s.len() > 0 {
        assert(entries_wf(s.drop_last())) by {
            assert forall|p: int, q: int|
                0 <= p < q < s.drop_last().len() implies #[trigger] ast_lt(
                s.drop_last()[p].0,
                s.drop_last()[q].0,
            ) by {
                assert(ast_lt(s[p].0, s[q].0));
            }
        }
        lemma_repeat_seq_ordered(s.drop_last());
        lemma_repeat_seq_members(s.drop_last());
        let pre = repeat_seq(s.drop_last());
        assert forall|i: int, j: int|
            0 <= i <= j < repeat_seq(s).len() implies ast_cmp_spec(
            #[trigger] repeat_seq(s)[i],
            #[trigger] repeat_seq(s)[j],
        ) != core::cmp::Ordering::Greater by {
            if j < pre.len() {
                assert(repeat_seq(s)[i] == pre[i] && repeat_seq(s)[j] == pre[j]);
            } else if i >= pre.len() {
                // both land in the trailing run of the last key
                assert(repeat_seq(s)[i] == s.last().0 && repeat_seq(s)[j] == s.last().0);
                lemma_ast_cmp_eq(s.last().0, s.last().0);
            } else {
                // an earlier key stands strictly below the last key
                assert(repeat_seq(s)[i] == pre[i]);
                assert(repeat_seq(s)[j] == s.last().0);
                let k = choose|k: int| 0 <= k < s.drop_last().len() && pre[i] == s.drop_last()[k].0;
                assert(pre[i] == s[k].0);
                assert(ast_lt(s[k].0, s[s.len() - 1].0));
            }
        }
    }
}

/// Lexicographic order on entry lists: first key, then first count, then
/// the rest; a strict prefix comes first.
pub open spec fn entries_cmp(s: Seq<(Ast, usize)>, t: Seq<(Ast, usize)>) -> core::cmp::Ordering
    decreases s.len(),
{
    if s.len() == 0 && t.len() == 0 {
        core::cmp::Ordering::Equal
    } else if s.len() == 0 {
        core::cmp::Ordering::Less
    } else if t.len() == 0 {
        core::cmp::Ordering::Greater
    } else {
        let ck = ast_cmp_spec(s[0].0, t[0].0);
        if ck != core::cmp::Ordering::Equal {
            ck
        } else if s[0].1 < t[0].1 {
            core::cmp::Ordering::Less
        } else if s[0].1 > t[0].1 {
            core::cmp::Ordering::Greater
        } else {
            entries_cmp(s.drop_first(), t.drop_first())
        }
    }
}

/// Entry lists tie exactly when they are the same list.
pub proof fn lemma_entries_cmp_eq(s: Seq<(Ast, usize)>, t: Seq<(Ast, usize)>)
    ensures
        (entries_cmp(s, t) == core::cmp::Ordering::Equal) <==> s =~= t,
    decreases s.len(),
{
    if s.len() > 0 && t.len() > 0 {
        lemma_ast_cmp_eq(s[0].0, t[0].0);
        lemma_entries_cmp_eq(s.drop_first(), t.drop_first());
        if entries_cmp(s, t) == core::cmp::Ordering::Equal {
            assert(s =~= t) by {
                assert(s.drop_first() =~= t.drop_first());
                assert forall|i: int| 0 <= i < s.len() implies s[i] == t[i] by {
                    if i > 0 {
                        assert(s.drop_first()[i - 1] == t.drop_first()[i - 1]);
                    }
                }
            }
        }
        if s =~= t {
            assert(s.drop_first() =~= t.drop_first());
        }
    }
}

/// Swapping the entry lists reverses their comparison.
pub proof fn lemma_entries_cmp_flip(s: Seq<(Ast, usize)>, t: Seq<(Ast, usize)>)
    ensures
        (entries_cmp(s, t) == core::cmp::Ordering::Less) <==> (entries_cmp(t, s)
            == core::cmp::Ordering::Greater),
        (entries_cmp(s, t) == core::cmp::Ordering::Equal) <==> (entries_cmp(t, s)
            == core::cmp::Ordering::Equal),
    decreases s.len(),
{
    if s.len() > 0 && t.len() > 0 {
        lemma_ast_cmp_flip(s[0].0, t[0].0);
        lemma_ast_cmp_flip(t[0].0, s[0].0);
        lemma_ast_cmp_eq(s[0].0, t[0].0);
        lemma_ast_cmp_eq(t[0].0, s[0].0);
        lemma_entries_cmp_flip(s.drop_first(), t.drop_first());
    }
}

/// The strict order on entry lists is transitive.
pub proof fn lemma_entries_cmp_trans(s: Seq<(Ast, usize)>, t: Seq<(Ast, usize)>, u: Seq<(Ast, usize)>)
    requires
        entries_cmp(s, t) == core::cmp::Ordering::Less,
        entries_cmp(t, u) == core::cmp::Ordering::Less,
    ensures
        entries_cmp(s, u) == core::cmp::Ordering::Less,
    decreases s.len(),
{
    if s.len() > 0 && t.len() > 0 && u.len() > 0 {
        lemma_ast_cmp_eq(s[0].0, t[0].0);
        lemma_ast_cmp_eq(t[0].0, u[0].0);
        lemma_ast_cmp_eq(s[0].0, u[0].0);
        if s[0].0 == t[0].0 && t[0].0 == u[0].0 {
            if s[0].1 == t[0].1 && t[0].1 == u[0].1 {
                lemma_entries_cmp_trans(s.drop_first(), t.drop_first(), u.drop_first());
            }
        } else if s[0].0 != t[0].0 && t[0].0 != u[0].0 {
            lemma_ast_cmp_trans(s[0].0, t[0].0, u[0].0);
            lemma_ast_cmp_eq(s[0].0, u[0].0);
        }
    }
}

/// A key that compares above some entry of a sorted list is under none of
/// the keys from that entry on, and so under none at all when the earlier
/// keys lie below it.
proof fn lemma_absent_from_sorted(s: Seq<(Ast, usize)>, i: int, x: Ast)
    requires
        entries_wf(s),
        0 <= i < s.len(),
        ast_cmp_spec(s[i].0, x) == core::cmp::Ordering::Greater,
        forall|j: int| 0 <= j < i ==> #[trigger] ast_lt(s[j].0, x),
    ensures
        forall|j: int| 0 <= j < s.len() ==> (#[trigger] s[j]).0 != x,
{
    lemma_ast_cmp_flip(x, s[i].0);
    assert forall|j: int| 0 <= j < s.len() implies (#[trigger] s[j]).0 != x by {
        if j < i {
            assert(ast_lt(s[j].0, x));
            lemma_ast_cmp_eq(s[j].0, x);
        } else {
            if j > i {
                assert(ast_lt(s[i].0, s[j].0));
                lemma_ast_cmp_trans(x, s[i].0, s[j].0);
            }
            lemma_ast_cmp_eq(s[j].0, x);
            lemma_ast_cmp_flip(x, s[j].0);
        }
    }
}

/// The multiset of two entries, spelled out.
pub proof fn lemma_seq_mset_two(p: (Ast, usize), q: (Ast, usize))
    ensures
        seq_mset(seq![p, q]) =~= copies(p.0, p.1 as nat).add(copies(q.0, q.1 as nat)),
{
    assert(seq![p, q].drop_last() =~= seq![p]);
    lemma_seq_mset_singleton(p);
}

/// Counts split around any one entry of the list.
pub proof fn lemma_entry_extract(s: Seq<(Ast, usize)>, i: int)
    requires
        0 <= i < s.len(),
    ensures
        forall|x: Ast|
            #[trigger] seq_mset(s).count(x) == seq_mset(s.remove(i)).count(x) + if x == s[i].0 {
                s[i].1 as nat
            } else {
                0
            },
{
    assert(s =~= s.take(i) + seq![s[i]] + s.skip(i + 1));
    assert(s.remove(i) =~= s.take(i) + s.skip(i + 1));
    lemma_seq_mset_concat(s.take(i) + seq![s[i]], s.skip(i + 1));
    lemma_seq_mset_concat(s.take(i), seq![s[i]]);
    lemma_seq_mset_concat(s.take(i), s.skip(i + 1));
    lemma_seq_mset_singleton(s[i]);
    assert forall|x: Ast|
        #[trigger] seq_mset(s).count(x) == seq_mset(s.remove(i)).count(x) + (if x == s[i].0 {
            s[i].1 as nat
        } else {
            0
        }) by {
        lemma_copies_count(s[i].0, s[i].1 as nat, x);
    }
}

/// Dropping an entry keeps the list well formed.
pub proof fn lemma_wf_remove(s: Seq<(Ast, usize)>, i: int)
    requires
        entries_wf(s),
        0 <= i < s.len(),
    ensures
        entries_wf(s.remove(i)),
{
    let s1 = s.remove(i);
    assert forall|p: int, q: int| 0 <= p < q < s1.len() implies #[trigger] ast_lt(
        s1[p].0,
        s1[q].0,
    ) by {
        let p0 = if p < i {
            p
        } else {
            p + 1
        };
        let q0 = if q < i {
            q
        } else {
            q + 1
        };
        assert(s1[p] == s[p0]);
        assert(s1[q] == s[q0]);
        assert(ast_lt(s[p0].0, s[q0].0));
    }
}

/// Total order on bags: smaller multisets first, ties decided
/// lexicographically over the sorted entries.
pub open spec fn bag_cmp_spec(a: Bag, b: Bag) -> core::cmp::Ordering {
    if a@.len() < b@.len() {
        core::cmp::Ordering::Less
    } else if a@.len() > b@.len() {
        core::cmp::Ordering::Greater
    } else {
        entries_cmp(a.entry_seq(), b.entry_seq())
    }
}

/// Swapping the bags reverses their comparison.
pub proof fn lemma_bag_cmp_flip(a: Bag, b: Bag)
    ensures
        (bag_cmp_spec(a, b) == core::cmp::Ordering::Less) <==> (bag_cmp_spec(b, a)
            == core::cmp::Ordering::Greater),
        (bag_cmp_spec(a, b) == core::cmp::Ordering::Equal) <==> (bag_cmp_spec(b, a)
            == core::cmp::Ordering::Equal),
{
    lemma_entries_cmp_flip(a.entry_seq(), b.entry_seq());
}

/// A bag that is no later than each of two others in turn is no later than
/// the second of them.
pub proof fn lemma_bag_cmp_not_greater_trans(a: Bag, b: Bag, c: Bag)
    requires
        bag_cmp_spec(a, b) != core::cmp::Ordering::Greater,
        bag_cmp_spec(b, c) != core::cmp::Ordering::Greater,
    ensures
        bag_cmp_spec(a, c) != core::cmp::Ordering::Greater,
{
    if a@.len() == b@.len() && b@.len() == c@.len() {
        lemma_entries_cmp_eq(a.entry_seq(), b.entry_seq());
        lemma_entries_cmp_eq(b.entry_seq(), c.entry_seq());
        lemma_entries_cmp_eq(a.entry_seq(), c.entry_seq());
        if entries_cmp(a.entry_seq(), b.entry_seq()) == core::cmp::Ordering::Less
            && entries_cmp(b.entry_seq(), c.entry_seq()) == core::cmp::Ordering::Less {
            lemma_entries_cmp_trans(a.entry_seq(), b.entry_seq(), c.entry_seq());
        }
    }
}

/// The strict order on bags is transitive.
pub proof fn lemma_bag_cmp_trans(a: Bag, b: Bag, c: Bag)
    requires
        bag_cmp_spec(a, b) == core::cmp::Ordering::Less,
        bag_cmp_spec(b, c) == core::cmp::Ordering::Less,
    ensures
        bag_cmp_spec(a, c) == core::cmp::Ordering::Less,
{
    if a@.len() == b@.len() && b@.len() == c@.len() {
        lemma_entries_cmp_trans(a.entry_seq(), b.entry_seq(), c.entry_seq());
    }
}

/// Two well-formed bags with the same multiset are the same everywhere:
/// same entries, a tie under the order, and equal under any function of
/// the representation (a hash included).
pub proof fn lemma_bag_extensional(a: Bag, b: Bag)
    requires
        a.wf(),
        b.wf(),
        a@ == b@,
    ensures
        a.entry_seq() == b.entry_seq(),
        bag_cmp_spec(a, b) == core::cmp::Ordering::Equal,
{
    lemma_canonical_entries(a.entry_seq(), b.entry_seq());
    lemma_entries_cmp_eq(a.entry_seq(), b.entry_seq());
}

impl Clone for Bag {
    /// Deep copy; the copy denotes the same multiset over the same entries.
    fn clone(&self) -> (r: Self)
        ensures
            r.entry_seq() == self.entry_seq(),
            r@ == self@,
            r.wf() == self.wf(),
    {
        let mut entries: Vec<(Ast, usize)> = Vec::new();
        let n = self.entries.len();
        let mut i: usize = 0;
        while i < n
            invariant
                n == self.entries@.len(),
                i <= n,
                entries@ =~= self.entries@.take(i as int),
            decreases n - i,
        {
            entries.push((self.entries[i].0.clone(), self.entries[i].1));
            proof {
                assert(entries@ =~= self.entries@.take(i + 1));
            }
            i += 1;
        }
        proof {
            assert(self.entries@.take(n as int) =~= self.entries@);
        }
        let r = Bag { entries };
        proof {
            assert(r.entry_seq() =~= self.entry_seq());
        }
        r
    }
}

impl Default for Bag {
    /// The empty multiset.
    fn default() -> (r: Self)
        ensures
            r.wf(),
            r@ =~= vstd::multiset::Multiset::empty(),
    {
        Bag::new()
    }
}

impl Bag {
    /// The sorted `(formula, count)` entries, one slot per distinct formula.
    pub fn iter_unique(&self) -> (r: &Vec<(Ast, usize)>)
        ensures
            r@ == self.entry_seq(),
    {
        &self.entries
    }

    /// The distinct formulas, each once, in ascending order.
    pub fn into_iter_unique(self) -> (r: Vec<Ast>)
        ensures
            r@.len() == self.entry_seq().len(),
            forall|i: int| 0 <= i < r@.len() ==> r@[i] == (#[trigger] self.entry_seq()[i]).0,
    {
        let mut keys: Vec<Ast> = Vec::new();
        let n = self.entries.len();
        let mut i: usize = 0;
        while i < n
            invariant
                n == self.entries@.len(),
                i <= n,
                keys@.len() == i,
                forall|j: int| 0 <= j < i ==> keys@[j] == (#[trigger] self.entries@[j]).0,
            decreases n - i,
        {
            keys.push(self.entries[i].0.clone());
            i += 1;
        }
        keys
    }

    /// Every occurrence, duplicates repeated, in ascending order of formula:
    /// on a well-formed bag the run never steps down, so equal formulas sit
    /// side by side.
    pub fn iter_repeat(&self) -> (r: Vec<Ast>)
        ensures
            r@ == repeat_seq(self.entry_seq()),
            r@.len() == self@.len(),
            self.wf() ==> forall|i: int, j: int|
                0 <= i <= j < r@.len() ==> ast_cmp_spec(#[trigger] r@[i], #[trigger] r@[j])
                    != core::cmp::Ordering::Greater,
    {
        proof {
            if self.wf() {
                lemma_repeat_seq_ordered(self.entries@);
            }
        }
        let ghost s = self.entries@;
        let mut out: Vec<Ast> = Vec::new();
        let n = self.entries.len();
        let mut i: usize = 0;
        while i < n
            invariant
                n == s.len(),
                self.entries@ == s,
                i <= n,
                out@ =~= repeat_seq(s.take(i as int)),
            decreases n - i,
        {
            let cnt = self.entries[i].1;
            let mut j: usize = 0;
            while j < cnt
                invariant
                    n == s.len(),
                    self.entries@ == s,
                    i < n,
                    cnt == s[i as int].1,
                    j <= cnt,
                    out@ =~= repeat_seq(s.take(i as int)) + repeat_of(s[i as int].0, j as nat),
                decreases cnt - j,
            {
                out.push(self.entries[i].0.clone());
                proof {
                    assert(repeat_of(s[i as int].0, j as nat).push(s[i as int].0) =~= repeat_of(
                        s[i as int].0,
                        (j + 1) as nat,
                    ));
                }
                j += 1;
            }
            proof {
                assert(s.take(i + 1).drop_last() =~= s.take(i as int));
                assert(out@ =~= repeat_seq(s.take(i + 1)));
            }
            i += 1;
        }
        proof {
            assert(s.take(n as int) =~= s);
            lemma_repeat_seq_len(s);
        }
        out
    }

    /// Every occurrence, duplicates repeated, consuming the collection.
    pub fn into_iter_repeat(self) -> (r: Vec<Ast>)
        ensures
            r@ == repeat_seq(self.entry_seq()),
            r@.len() == self@.len(),
            self.wf() ==> forall|i: int, j: int|
                0 <= i <= j < r@.len() ==> ast_cmp_spec(#[trigger] r@[i], #[trigger] r@[j])
                    != core::cmp::Ordering::Greater,
    {
        self.iter_repeat()
    }

    /// Clone and insert each addition into the clone.
    #[must_use]
    pub fn with(&self, additions: Vec<Ast>) -> (r: Self)
        requires
            self.wf(),
            self@.len() + additions@.len() <= usize::MAX,
        ensures
            r.wf(),
            r@ =~= self@.add(additions@.to_multiset()),
            r@.len() == self@.len() + additions@.len(),
    {
        let mut r = self.clone();
        let n = additions.len();
        let mut i: usize = 0;
        while i < n
            invariant
                self.wf(),
                self@.len() + additions@.len() <= usize::MAX,
                n == additions@.len(),
                i <= n,
                r.wf(),
                r@ =~= self@.add(additions@.take(i as int).to_multiset()),
                r@.len() == self@.len() + i,
            decreases n - i,
        {
            proof {
                assert(additions@.take(i + 1) =~= additions@.take(i as int).push(
                    additions@[i as int],
                ));
            }
            let now = r.insert(additions[i].clone());
            i += 1;
        }
        proof {
            assert(additions@.take(n as int) =~= additions@);
        }
        r
    }

    /// The multiset holding each element of a vector once per occurrence.
    pub fn from_elements(v: Vec<Ast>) -> (r: Self)
        ensures
            r.wf(),
            r@ =~= v@.to_multiset(),
            r@.len() == v@.len(),
    {
        let empty = Bag::new();
        let _total: usize = v.len();
        empty.with(v)
    }

    /// Three-way comparison under the bag order: size first, then entries.
    pub fn compare(&self, other: &Bag) -> (r: core::cmp::Ordering)
        requires
            self.wf(),
            other.wf(),
            self@.len() <= usize::MAX,
            other@.len() <= usize::MAX,
        ensures
            r == bag_cmp_spec(*self, *other),
    {
        let la = self.len();
        let lb = other.len();
        if la < lb {
            return core::cmp::Ordering::Less;
        }
        if la > lb {
            return core::cmp::Ordering::Greater;
        }
        let ghost s = self.entries@;
        let ghost t = other.entries@;
        proof {
            assert(s.skip(0) =~= s);
            assert(t.skip(0) =~= t);
        }
        let mut i: usize = 0;
        loop
            invariant
                self.entries@ == s,
                other.entries@ == t,
                self@.len() == other@.len(),
                i <= s.len(),
                i <= t.len(),
                entries_cmp(s, t) == entries_cmp(s.skip(i as int), t.skip(i as int)),
            decreases s.len() - i,
        {
            let sa = i == self.entries.len();
            let sb = i == other.entries.len();
            if sa && sb {
                proof {
                    assert(s.skip(i as int) =~= Seq::<(Ast, usize)>::empty());
                    assert(t.skip(i as int) =~= Seq::<(Ast, usize)>::empty());
                }
                return core::cmp::Ordering::Equal;
            }
            if sa {
                proof {
                    assert(s.skip(i as int) =~= Seq::<(Ast, usize)>::empty());
                    assert(t.skip(i as int).len() > 0);
                }
                return core::cmp::Ordering::Less;
            }
            if sb {
                proof {
                    assert(t.skip(i as int) =~= Seq::<(Ast, usize)>::empty());
                    assert(s.skip(i as int).len() > 0);
                }
                return core::cmp::Ordering::Greater;
            }
            proof {
                assert(s.skip(i as int)[0] == s[i as int]);
                assert(t.skip(i as int)[0] == t[i as int]);
            }
            let ck = self.entries[i].0.compare(&other.entries[i].0);
            if !matches!(ck, core::cmp::Ordering::Equal) {
                return ck;
            }
            let ca = self.entries[i].1;
            let cb = other.entries[i].1;
            if ca < cb {
                return core::cmp::Ordering::Less;
            }
            if ca > cb {
                return core::cmp::Ordering::Greater;
            }
            proof {
                assert(s.skip(i as int).drop_first() =~= s.skip(i + 1));
                assert(t.skip(i as int).drop_first() =~= t.skip(i + 1));
            }
            i += 1;
        }
    }

    /// Whether the two collections hold the same formulas with the same
    /// counts.
    pub fn same(&self, other: &Bag) -> (r: bool)
        requires
            self.wf(),
            other.wf(),
        ensures
            r == (self@ == other@),
    {
        proof {
            if self@ == other@ {
                lemma_canonical_entries(self.entries@, other.entries@);
            }
        }
        let n = self.entries.len();
        if n != other.entries.len() {
            return false;
        }
        let mut i: usize = 0;
        while i < n
            invariant
                self.wf(),
                other.wf(),
                n == self.entries@.len(),
                n == other.entries@.len(),
                i <= n,
                forall|j: int| 0 <= j < i ==> self.entries@[j] == other.entries@[j],
                self@ == other@ ==> self.entries@ == other.entries@,
            decreases n - i,
        {
            if !self.entries[i].0.same(&other.entries[i].0) {
                return false;
            }
            if self.entries[i].1 != other.entries[i].1 {
                return false;
            }
            i += 1;
        }
        proof {
            assert(self.entries@ =~= other.entries@);
        }
        true
    }
}

/// Bumping one entry's count inserts one copy of its key.
proof fn lemma_update_count(s: Seq<(Ast, usize)>, i: int, x: Ast)
    requires
        entries_wf(s),
        0 <= i < s.len(),
        s[i].0 == x,
        s[i].1 < usize::MAX,
    ensures
        seq_mset(s.update(i, (x, (s[i].1 + 1) as usize))) =~= seq_mset(s).insert(x),
        entries_wf(s.update(i, (x, (s[i].1 + 1) as usize))),
{
    let s1 = s.update(i, (x, (s[i].1 + 1) as usize));
    assert(s =~= s.take(i) + seq![s[i]] + s.skip(i + 1));
    assert(s1 =~= s.take(i) + seq![(x, (s[i].1 + 1) as usize)] + s.skip(i + 1));
    lemma_seq_mset_concat(s.take(i) + seq![s[i]], s.skip(i + 1));
    lemma_seq_mset_concat(s.take(i), seq![s[i]]);
    lemma_seq_mset_concat(s.take(i) + seq![(x, (s[i].1 + 1) as usize)], s.skip(i + 1));
    lemma_seq_mset_concat(s.take(i), seq![(x, (s[i].1 + 1) as usize)]);
    lemma_seq_mset_singleton(s[i]);
    lemma_seq_mset_singleton((x, (s[i].1 + 1) as usize));
    assert(copies(x, (s[i].1 + 1) as nat) =~= copies(x, s[i].1 as nat).insert(x));
    assert(seq_mset(s1) =~= seq_mset(s).insert(x));
    assert(entries_wf(s1)) by {
        assert forall|p: int, q: int| 0 <= p < q < s1.len() implies #[trigger] ast_lt(
            s1[p].0,
            s1[q].0,
        ) by {
            assert(ast_lt(s[p].0, s[q].0));
        }
    }
}

} // verus!
