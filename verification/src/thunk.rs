//! The proof cache: a record of every sequent seen, what has been proven,
//! and a smallest-first queue of unexpanded sequents.

use vstd::prelude::*;
use crate::ast::Ast;
use crate::rule::Rule;
use crate::sequent::{
    lemma_sequent_cmp_not_greater_trans, sequent_cmp_spec,
    RhsOnlyWithExchange,
};

verus! {

broadcast use {vstd::multiset::group_multiset_axioms, vstd::map::group_map_axioms, vstd::set::group_set_axioms};

/// Sequents may grow by two formulas per inference, so everything the cache
/// holds keeps this much slack below the address-space bound.
pub open spec fn size_cap() -> nat {
    (usize::MAX - 2) as nat
}

/// This specific sequent (not the whole proof) has already been proven.
#[derive(Debug)]
pub struct AlreadyProven;

/// The entire proof is finished.
#[derive(Debug)]
pub struct Qed {
    /// The rule that closes the original sequent.
    pub rule: Rule,
}

/// The map an association list of seen sequents denotes, keyed by content.
pub open spec fn map_of(
    s: Seq<(RhsOnlyWithExchange, Option<Rule>)>,
) -> Map<vstd::multiset::Multiset<Ast>, Option<Rule>>
    decreases s.len(),
{
    if s.len() == 0 {
        Map::empty()
    } else {
        map_of(s.drop_last()).insert(s.last().0@, s.last().1)
    }
}

/// Distinct entries hold distinct sequents.
pub open spec fn keys_unique(s: Seq<(RhsOnlyWithExchange, Option<Rule>)>) -> bool {
    forall|i: int, j: int|
        0 <= i < j < s.len() ==> (#[trigger] s[i]).0@ != (#[trigger] s[j]).0@
}

/// The map holds exactly the listed sequents.
pub proof fn lemma_map_of_contains(s: Seq<(RhsOnlyWithExchange, Option<Rule>)>)
    ensures
        forall|k: vstd::multiset::Multiset<Ast>|
            #[trigger] map_of(s).contains_key(k) <==> exists|i: int|
                0 <= i < s.len() && (#[trigger] s[i]).0@ == k,
    decreases s.len(),
{
    if s.len() > 0 {
        lemma_map_of_contains(s.drop_last());
        let m0 = map_of(s.drop_last());
        assert(map_of(s) == m0.insert(s.last().0@, s.last().1));
        assert forall|k: vstd::multiset::Multiset<Ast>|
            #[trigger] map_of(s).contains_key(k) implies exists|i: int|
            0 <= i < s.len() && (#[trigger] s[i]).0@ == k by {
            if k == s.last().0@ {
                assert(0 <= s.len() - 1 < s.len() && s[s.len() - 1].0@ == k);
            } else {
                assert(m0.contains_key(k));
                let i = choose|i: int|
                    0 <= i < s.drop_last().len() && (#[trigger] s.drop_last()[i]).0@ == k;
                assert(0 <= i < s.len() && s[i].0@ == k);
            }
        }
        assert forall|k: vstd::multiset::Multiset<Ast>|
            (exists|i: int| 0 <= i < s.len() && (#[trigger] s[i]).0@ == k) implies #[trigger] map_of(
            s,
        ).contains_key(k) by {
            let i = choose|i: int| 0 <= i < s.len() && (#[trigger] s[i]).0@ == k;
            assert(map_of(s) == m0.insert(s.last().0@, s.last().1));
            if i < s.len() - 1 {
                assert(s.drop_last()[i].0@ == k);
                assert(m0.contains_key(k));
            }
        }
    }
}

/// With distinct sequents, each entry's stored value is its value in the map.
pub proof fn lemma_map_of_value(s: Seq<(RhsOnlyWithExchange, Option<Rule>)>, i: int)
    requires
        keys_unique(s),
        0 <= i < s.len(),
    ensures
        map_of(s).contains_key(s[i].0@),
        map_of(s)[s[i].0@] == s[i].1,
    decreases s.len(),
{
    lemma_map_of_contains(s);
    if i < s.len() - 1 {
        assert(s.drop_last()[i] == s[i]);
        lemma_map_of_value(s.drop_last(), i);
        assert(s[i].0@ != s.last().0@);
    }
}

/// Replacing the value stored beside one sequent updates the map at that
/// sequent alone.
pub proof fn lemma_map_of_update(
    s: Seq<(RhsOnlyWithExchange, Option<Rule>)>,
    i: int,
    p: (RhsOnlyWithExchange, Option<Rule>),
)
    requires
        keys_unique(s),
        0 <= i < s.len(),
        p.0@ == s[i].0@,
    ensures
        map_of(s.update(i, p)) =~= map_of(s).insert(s[i].0@, p.1),
        keys_unique(s.update(i, p)),
    decreases s.len(),
{
    let s1 = s.update(i, p);
    assert forall|a: int, b: int| 0 <= a < b < s1.len() implies (#[trigger] s1[a]).0@ != (
    #[trigger] s1[b]).0@ by {
        assert(s[a].0@ != s[b].0@);
    }
    if i == s.len() - 1 {
        assert(s1.drop_last() =~= s.drop_last());
    } else {
        assert(s1.drop_last() =~= s.drop_last().update(i, p));
        assert(s.drop_last()[i] == s[i]);
        lemma_map_of_update(s.drop_last(), i, p);
        assert(s1.last() == s.last());
        assert(s[i].0@ != s.last().0@);
    }
}

/// Dropping one entry removes that sequent from the map.
pub proof fn lemma_map_of_remove(s: Seq<(RhsOnlyWithExchange, Option<Rule>)>, i: int)
    requires
        keys_unique(s),
        0 <= i < s.len(),
    ensures
        map_of(s.remove(i)) =~= map_of(s).remove(s[i].0@),
        keys_unique(s.remove(i)),
    decreases s.len(),
{
    let s1 = s.remove(i);
    assert forall|a: int, b: int| 0 <= a < b < s1.len() implies (#[trigger] s1[a]).0@ != (
    #[trigger] s1[b]).0@ by {
        let a0 = if a < i {
            a
        } else {
            a + 1
        };
        let b0 = if b < i {
            b
        } else {
            b + 1
        };
        assert(s1[a] == s[a0]);
        assert(s1[b] == s[b0]);
        assert(s[a0].0@ != s[b0].0@);
    }
    if i == s.len() - 1 {
        assert(s1 =~= s.drop_last());
        lemma_map_of_contains(s.drop_last());
        assert forall|a: int| 0 <= a < s.drop_last().len() implies (#[trigger] s.drop_last()[
        a]).0@ != s[i].0@ by {
            assert(s.drop_last()[a] == s[a]);
        }
        assert(map_of(s.drop_last()) =~= map_of(s).remove(s[i].0@)) by {
            if map_of(s.drop_last()).contains_key(s[i].0@) {
                let a = choose|a: int|
                    0 <= a < s.drop_last().len() && (#[trigger] s.drop_last()[a]).0@ == s[i].0@;
            }
        }
    } else {
        assert(s1.drop_last() =~= s.drop_last().remove(i));
        assert(s.drop_last()[i] == s[i]);
        lemma_map_of_remove(s.drop_last(), i);
        assert(s1.last() == s.last());
        assert(s[i].0@ != s.last().0@);
    }
}

/// Cache any finished results automatically.
#[derive(Debug)]
pub struct Thunk {
    /// Record of what we've seen and, within that set, what we've proven.
    seen: Vec<(RhsOnlyWithExchange, Option<Rule>)>,
    /// Smallest-first queue of unproven sequents.
    queue: Vec<RhsOnlyWithExchange>,
    /// The sequent we're trying to prove overall.
    original: RhsOnlyWithExchange,
}

impl Thunk {
    /// What has been seen, and what of it proven, keyed by sequent content.
    pub closed spec fn map(&self) -> Map<vstd::multiset::Multiset<Ast>, Option<Rule>> {
        map_of(self.seen@)
    }

    /// The unexpanded frontier, in store order.
    pub closed spec fn queue_view(&self) -> Seq<RhsOnlyWithExchange> {
        self.queue@
    }

    /// The content of the sequent the whole search is after.
    pub closed spec fn goal(&self) -> vstd::multiset::Multiset<Ast> {
        self.original@
    }

    /// How many sequents the cache holds; reconstruction consumes them.
    pub closed spec fn size(&self) -> nat {
        self.seen@.len()
    }

    /// Representation invariant: sequents well formed and bounded, distinct
    /// in the record, every queued sequent on record, every stored rule well
    /// formed with at most two premises, each bounded.
    pub closed spec fn wf(&self) -> bool {
        &&& keys_unique(self.seen@)
        &&& forall|i: int|
            0 <= i < self.seen@.len() ==> {
                &&& (#[trigger] self.seen@[i]).0.wf()
                &&& self.seen@[i].0@.len() <= size_cap()
                &&& match self.seen@[i].1 {
                    Some(rule) => {
                        &&& rule.wf()
                        &&& rule.above@.len() <= 2
                        &&& forall|j: int|
                            0 <= j < rule.above@.len() ==> (#[trigger] rule.above@[j])@.len()
                                <= size_cap()
                    },
                    None => true,
                }
            }
        &&& forall|i: int|
            0 <= i < self.queue@.len() ==> {
                &&& (#[trigger] self.queue@[i]).wf()
                &&& self.queue@[i]@.len() <= size_cap()
            }
        &&& self.original.wf()
    }

    /// Every queued sequent is on record. This holds throughout the search;
    /// reconstruction consumes the record and may leave the queue unbacked.
    pub closed spec fn queue_backed(&self) -> bool {
        forall|i: int|
            0 <= i < self.queue@.len() ==> map_of(self.seen@).contains_key(
                (#[trigger] self.queue@[i])@,
            )
    }

    /// Everything the record holds is well formed.
    pub proof fn lemma_wf_lookup(&self, k: vstd::multiset::Multiset<Ast>)
        requires
            self.wf(),
            self.map().contains_key(k),
        ensures
            k.len() <= size_cap(),
            match self.map()[k] {
                Some(rule) => {
                    &&& rule.wf()
                    &&& rule.above@.len() <= 2
                    &&& forall|j: int|
                        0 <= j < rule.above@.len() ==> (#[trigger] rule.above@[j])@.len()
                            <= size_cap()
                },
                None => true,
            },
    {
        lemma_map_of_contains(self.seen@);
        let i = choose|i: int| 0 <= i < self.seen@.len() && (#[trigger] self.seen@[i]).0@ == k;
        lemma_map_of_value(self.seen@, i);
    }

    /// Create a new cache holding only this original expression, queued.
    pub fn new(expression: Ast) -> (r: Self)
        ensures
            r.wf(),
            r.queue_backed(),
            r.goal() == vstd::multiset::Multiset::singleton(expression),
            r.map() =~= Map::empty().insert(
                vstd::multiset::Multiset::singleton(expression),
                None::<Rule>,
            ),
            r.queue_view().len() == 1,
            r.queue_view()[0]@ == vstd::multiset::Multiset::singleton(expression),
    {
        let sequent = RhsOnlyWithExchange::from_rhs(expression);
        let original = sequent.clone();
        let queued = sequent.clone();
        let mut seen: Vec<(RhsOnlyWithExchange, Option<Rule>)> = Vec::new();
        seen.push((sequent, None));
        let mut queue: Vec<RhsOnlyWithExchange> = Vec::new();
        queue.push(queued);
        let r = Thunk { seen, queue, original };
        proof {
            assert(r.seen@.drop_last() =~= Seq::<(RhsOnlyWithExchange, Option<Rule>)>::empty());
            assert(map_of(Seq::<(RhsOnlyWithExchange, Option<Rule>)>::empty()) =~= Map::<
                vstd::multiset::Multiset<Ast>,
                Option<Rule>,
            >::empty());
            assert(r.seen@.last().0@ == vstd::multiset::Multiset::singleton(expression));
            assert(r.map() =~= Map::empty().insert(
                vstd::multiset::Multiset::singleton(expression),
                None::<Rule>,
            ));
            assert(vstd::multiset::Multiset::singleton(expression).len() == 1);
        }
        r
    }

    /// Index of a sequent in the record, by content.
    fn find(&self, sequent: &RhsOnlyWithExchange) -> (r: Option<usize>)
        requires
            self.wf(),
            sequent.wf(),
        ensures
            match r {
                Some(i) => i < self.seen@.len() && self.seen@[i as int].0@ == sequent@,
                None => !self.map().contains_key(sequent@),
            },
    {
        let n = self.seen.len();
        let mut i: usize = 0;
        while i < n
            invariant
                self.wf(),
                sequent.wf(),
                n == self.seen@.len(),
                i <= n,
                forall|j: int| 0 <= j < i ==> (#[trigger] self.seen@[j]).0@ != sequent@,
            decreases n - i,
        {
            if self.seen[i].0.same(sequent) {
                return Some(i);
            }
            i += 1;
        }
        proof {
            lemma_map_of_contains(self.seen@);
        }
        None
    }

    /// Add a sequent to be proven. If it has already been proven, say so;
    /// if it is merely known, do nothing.
    pub fn push(&mut self, sequent: RhsOnlyWithExchange) -> (r: Result<(), AlreadyProven>)
        requires
            old(self).wf(),
            sequent.wf(),
            sequent@.len() <= size_cap(),
        ensures
            final(self).wf(),
            old(self).queue_backed() ==> final(self).queue_backed(),
            final(self).goal() == old(self).goal(),
            final(self).size() >= old(self).size(),
            if !old(self).map().contains_key(sequent@) {
                &&& r is Ok
                &&& final(self).map() == old(self).map().insert(sequent@, None::<Rule>)
                &&& final(self).queue_view() == old(self).queue_view().push(sequent)
                &&& final(self).size() == old(self).size() + 1
            } else {
                &&& final(self).map() == old(self).map()
                &&& final(self).queue_view() == old(self).queue_view()
                &&& final(self).size() == old(self).size()
                &&& (r is Ok <==> old(self).map()[sequent@] is None)
            },
    {
        match self.find(&sequent) {
            Some(i) => {
                proof {
                    lemma_map_of_value(self.seen@, i as int);
                }
                match &self.seen[i].1 {
                    None => Ok(()),
                    Some(_) => Err(AlreadyProven),
                }
            }
            None => {
                let recorded = sequent.clone();
                self.seen.push((recorded, None));
                self.queue.push(sequent);
                proof {
                    assert(self.seen@.drop_last() =~= old(self).seen@);
                    assert(self.seen@.last().0@ == sequent@);
                    lemma_map_of_contains(old(self).seen@);
                    assert(keys_unique(self.seen@)) by {
                        assert forall|a: int, b: int|
                            0 <= a < b < self.seen@.len() implies (#[trigger] self.seen@[a]).0@
                            != (#[trigger] self.seen@[b]).0@ by {
                            if b < self.seen@.len() - 1 {
                                assert(old(self).seen@[a] == self.seen@[a]);
                                assert(old(self).seen@[b] == self.seen@[b]);
                            } else {
                                assert(old(self).seen@[a] == self.seen@[a]);
                            }
                        }
                    }
                }
                Ok(())
            }
        }
    }

    /// The smallest unexpanded sequent, if any is left.
    pub fn next(&mut self) -> (r: Option<RhsOnlyWithExchange>)
        requires
            old(self).wf(),
            old(self).queue_backed(),
        ensures
            final(self).wf(),
            final(self).queue_backed(),
            final(self).goal() == old(self).goal(),
            final(self).map() == old(self).map(),
            final(self).size() == old(self).size(),
            match r {
                None => old(self).queue_view().len() == 0 && final(self).queue_view() == old(
                    self,
                ).queue_view(),
                Some(s) => {
                    &&& s.wf()
                    &&& s@.len() <= size_cap()
                    &&& old(self).map().contains_key(s@)
                    &&& exists|i: int|
                        0 <= i < old(self).queue_view().len() && old(self).queue_view()[i] == s
                            && final(self).queue_view() == old(self).queue_view().remove(i)
                    &&& forall|j: int|
                        0 <= j < final(self).queue_view().len() ==> sequent_cmp_spec(
                            s,
                            #[trigger] final(self).queue_view()[j],
                        ) != core::cmp::Ordering::Greater
                },
            },
    {
        let n = self.queue.len();
        if n == 0 {
            return None;
        }
        let mut best: usize = 0;
        let mut i: usize = 1;
        proof {
            crate::bag::lemma_entries_cmp_eq(
                self.queue@[0].rhs.entry_seq(),
                self.queue@[0].rhs.entry_seq(),
            );
        }
        while i < n
            invariant
                old(self).wf(),
                *self == *old(self),
                n == self.queue@.len(),
                best < i,
                i <= n,
                forall|j: int|
                    0 <= j < i ==> sequent_cmp_spec(
                        self.queue@[best as int],
                        #[trigger] self.queue@[j],
                    ) != core::cmp::Ordering::Greater,
            decreases n - i,
        {
            let c = self.queue[i].compare(&self.queue[best]);
            if matches!(c, core::cmp::Ordering::Less) {
                proof {
                    let old_best = best as int;
                    assert forall|j: int|
                        0 <= j < i + 1 implies sequent_cmp_spec(
                        self.queue@[i as int],
                        #[trigger] self.queue@[j],
                    ) != core::cmp::Ordering::Greater by {
                        if j < i {
                            lemma_sequent_cmp_not_greater_trans(
                                self.queue@[i as int],
                                self.queue@[old_best],
                                self.queue@[j],
                            );
                        } else {
                            crate::bag::lemma_entries_cmp_eq(
                                self.queue@[i as int].rhs.entry_seq(),
                                self.queue@[i as int].rhs.entry_seq(),
                            );
                        }
                    }
                }
                best = i;
            } else {
                proof {
                    crate::sequent::lemma_sequent_cmp_flip(
                        self.queue@[best as int],
                        self.queue@[i as int],
                    );
                }
            }
            i += 1;
        }
        let s = self.queue.remove(best);
        proof {
            assert(old(self).queue_view()[best as int] == s);
            assert(self.queue@ =~= old(self).queue@.remove(best as int));
            assert forall|j: int|
                0 <= j < self.queue@.len() implies sequent_cmp_spec(
                s,
                #[trigger] self.queue@[j],
            ) != core::cmp::Ordering::Greater by {
                let j0 = if j < best {
                    j
                } else {
                    j + 1
                };
                assert(self.queue@[j] == old(self).queue@[j0]);
                assert(sequent_cmp_spec(s, old(self).queue@[j0]) != core::cmp::Ordering::Greater);
            }
            assert forall|j: int| 0 <= j < self.queue@.len() implies {
                &&& (#[trigger] self.queue@[j]).wf()
                &&& self.queue@[j]@.len() <= size_cap()
                &&& map_of(self.seen@).contains_key(self.queue@[j]@)
            } by {
                let j0 = if j < best {
                    j
                } else {
                    j + 1
                };
                assert(self.queue@[j] == old(self).queue@[j0]);
            }
        }
        Some(s)
    }

    /// Mark a sequent proven; on the original sequent report success instead.
    pub fn cache(&mut self, sequent: RhsOnlyWithExchange, rule: Rule) -> (r: Result<(), Qed>)
        requires
            old(self).wf(),
            sequent.wf(),
            rule.wf(),
            rule.above@.len() <= 2,
            forall|j: int|
                0 <= j < rule.above@.len() ==> (#[trigger] rule.above@[j])@.len() <= size_cap(),
            sequent@ == old(self).goal() || (old(self).map().contains_key(sequent@) && old(
                self,
            ).map()[sequent@] is None),
        ensures
            final(self).wf(),
            old(self).queue_backed() ==> final(self).queue_backed(),
            final(self).goal() == old(self).goal(),
            final(self).queue_view() == old(self).queue_view(),
            final(self).size() == old(self).size(),
            if sequent@ == old(self).goal() {
                &&& r matches Err(q) && q.rule == rule
                &&& final(self).map() == old(self).map()
            } else {
                &&& r is Ok
                &&& final(self).map() == old(self).map().insert(sequent@, Some(rule))
            },
    {
        if sequent.same(&self.original) {
            return Err(Qed { rule });
        }
        match self.find(&sequent) {
            Some(i) => {
                proof {
                    lemma_map_of_value(self.seen@, i as int);
                    lemma_map_of_update(self.seen@, i as int, (self.seen@[i as int].0, Some(rule)));
                }
                let pair = self.seen.remove(i);
                self.seen.insert(i, (pair.0, Some(rule)));
                proof {
                    assert(self.seen@ =~= old(self).seen@.update(
                        i as int,
                        (old(self).seen@[i as int].0, Some(rule)),
                    ));
                }
                Ok(())
            }
            None => {
                // unreachable under the precondition; leave the cache alone
                proof {
                    assert(false);
                }
                Ok(())
            }
        }
    }

    /// Read the cached proof of a sequent the cache knows.
    pub fn proven(&self, sequent: &RhsOnlyWithExchange) -> (r: &Option<Rule>)
        requires
            self.wf(),
            sequent.wf(),
            self.map().contains_key(sequent@),
        ensures
            *r == self.map()[sequent@],
    {
        match self.find(sequent) {
            Some(i) => {
                proof {
                    lemma_map_of_value(self.seen@, i as int);
                }
                &self.seen[i].1
            }
            None => {
                proof {
                    assert(false);
                }
                unreached()
            }
        }
    }

    /// Remove and return the stored proof of a sequent, consuming it; used
    /// while flattening the cache into a tree. A sequent that is absent
    /// (already consumed) or was never proven yields nothing.
    pub fn yank(&mut self, sequent: &RhsOnlyWithExchange) -> (r: Option<Rule>)
        requires
            old(self).wf(),
            sequent.wf(),
        ensures
            final(self).wf(),
            final(self).goal() == old(self).goal(),
            final(self).queue_view() == old(self).queue_view(),
            if old(self).map().contains_key(sequent@) && old(self).map()[sequent@] is Some {
                &&& r == old(self).map()[sequent@]
                &&& final(self).map() == old(self).map().remove(sequent@)
                &&& final(self).size() == old(self).size() - 1
            } else {
                &&& r is None
                &&& final(self).map() == old(self).map()
                &&& final(self).size() == old(self).size()
            },
            match r {
                Some(rule) => {
                    &&& rule.wf()
                    &&& rule.above@.len() <= 2
                    &&& forall|j: int|
                        0 <= j < rule.above@.len() ==> (#[trigger] rule.above@[j])@.len()
                            <= size_cap()
                },
                None => true,
            },
    {
        match self.find(sequent) {
            Some(i) => {
                proof {
                    lemma_map_of_value(self.seen@, i as int);
                    lemma_map_of_remove(self.seen@, i as int);
                }
                let keep = self.seen[i].1.is_none();
                if keep {
                    return None;
                }
                let pair = self.seen.remove(i);
                proof {
                    assert(self.seen@ =~= old(self).seen@.remove(i as int));
                }
                pair.1
            }
            None => None,
        }
    }
}

} // verus!
