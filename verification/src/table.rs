//! Tables from text to values, kept in the order of their keys.
use vstd::prelude::*;

use crate::text::{before, is_before, lemma_before_irreflexive, lemma_before_total, lemma_before_transitive, same, views};

verus! {

/// A key and its value.
#[derive(Clone, Debug, PartialEq, Eq)]
pub struct Row<V> {
    pub key: String,
    pub value: V,
}

/// A table whose rows stand in strictly increasing order of their keys.
#[derive(Clone, Debug, PartialEq, Eq)]
pub struct Table<V> {
    pub rows: Vec<Row<V>>,
}

impl<V: View> View for Table<V> {
    type V = Map<Seq<char>, V::V>;

    open spec fn view(&self) -> Map<Seq<char>, V::V> {
        Map::new(
            |k: Seq<char>| self.keys().contains(k),
            |k: Seq<char>| self.rows@[self.keys().index_of(k)].value@,
        )
    }
}

impl<V: View> Table<V> {
    /// The keys, in the order of the rows.
    pub open spec fn keys(&self) -> Seq<Seq<char>> {
        Seq::new(self.rows@.len(), |i: int| self.rows@[i].key@)
    }

    /// Whether the rows stand in strictly increasing order of their keys.
    pub open spec fn wf(&self) -> bool {
        forall|i: int, j: int| 0 <= i < j < self.rows@.len() ==> before(#[trigger] self.rows@[i].key@, #[trigger] self.rows@[j].key@)
    }

    /// What a row holds is what the table gives for its key.
    pub proof fn lemma_row(&self, i: int)
        requires
            self.wf(),
            0 <= i < self.rows@.len(),
        ensures
            self@.contains_key(self.rows@[i].key@),
            self@[self.rows@[i].key@] == self.rows@[i].value@,
    {
        let key = self.rows@[i].key@;
        assert(self.keys()[i] == key);
        assert(self.keys().contains(key));
        let j = self.keys().index_of(key);
        assert(self.keys()[j] == key);
        if i != j {
            lemma_before_irreflexive(key, 0);
            if i < j {
                assert(before(self.rows@[i].key@, self.rows@[j].key@));
            } else {
                assert(before(self.rows@[j].key@, self.rows@[i].key@));
            }
        }
    }

    /// A table is determined by the rows that it has.
    pub proof fn lemma_domain(&self)
        ensures
            forall|k: Seq<char>| #[trigger] self@.contains_key(k) <==> exists|i: int| 0 <= i < self.rows@.len() && self.rows@[i].key@ == k,
    {
        assert forall|k: Seq<char>| #[trigger] self@.contains_key(k) <==> exists|i: int| 0 <= i < self.rows@.len() && self.rows@[i].key@ == k by {
            if self@.contains_key(k) {
                let i = self.keys().index_of(k);
                assert(self.keys()[i] == k);
                assert(self.rows@[i].key@ == k);
            }
            if exists|i: int| 0 <= i < self.rows@.len() && self.rows@[i].key@ == k {
                let i = choose|i: int| 0 <= i < self.rows@.len() && self.rows@[i].key@ == k;
                assert(self.keys()[i] == k);
            }
        }
    }

    /// A table has finitely many keys.
    pub proof fn lemma_finite(&self)
        ensures
            self@.dom().finite(),
    {
        vstd::seq_lib::seq_to_set_is_finite(self.keys());
        assert(self@.dom() =~= self.keys().to_set());
    }

    /// A table without rows.
    pub fn new() -> (r: Self)
        ensures
            r.wf(),
            r@ == Map::<Seq<char>, V::V>::empty(),
            r.rows@.len() == 0,
    {
        let r = Table { rows: Vec::new() };
        assert(r@ =~= Map::<Seq<char>, V::V>::empty()) by {
            r.lemma_domain();
        }
        r
    }

    /// Where `key` stands, or where it would stand.
    fn position(&self, key: &str) -> (p: usize)
        requires
            self.wf(),
        ensures
            p <= self.rows@.len(),
            forall|j: int| 0 <= j < p ==> before((#[trigger] self.rows@[j]).key@, key@),
            p < self.rows@.len() ==> !before(self.rows@[p as int].key@, key@),
    {
        let mut low: usize = 0;
        let mut high: usize = self.rows.len();
        while low < high
            invariant
                self.wf(),
                low <= high <= self.rows@.len(),
                forall|j: int| 0 <= j < low ==> before((#[trigger] self.rows@[j]).key@, key@),
                high < self.rows@.len() ==> !before(self.rows@[high as int].key@, key@),
            decreases high - low,
        {
            let middle: usize = low + (high - low) / 2;
            if is_before(self.rows[middle].key.as_str(), key) {
                assert forall|j: int| 0 <= j < middle + 1 implies before((#[trigger] self.rows@[j]).key@, key@) by {
                    if j < middle {
                        assert(before(self.rows@[j].key@, self.rows@[middle as int].key@));
                        lemma_before_transitive(self.rows@[j].key@, self.rows@[middle as int].key@, key@, 0);
                    }
                }
                low = middle + 1;
            } else {
                high = middle;
            }
        }
        low
    }

    proof fn lemma_absent(&self, key: Seq<char>, p: int)
        requires
            self.wf(),
            0 <= p <= self.rows@.len(),
            forall|j: int| 0 <= j < p ==> before((#[trigger] self.rows@[j]).key@, key),
            p < self.rows@.len() ==> !before(self.rows@[p].key@, key) && self.rows@[p].key@ != key,
        ensures
            !self@.contains_key(key),
            forall|j: int| p <= j < self.rows@.len() ==> before(key, (#[trigger] self.rows@[j]).key@),
    {
        assert forall|j: int| p <= j < self.rows@.len() implies before(key, (#[trigger] self.rows@[j]).key@) by {
            assert(self.rows@[p].key@.take(0) =~= key.take(0));
            lemma_before_total(self.rows@[p].key@, key, 0);
            assert(before(key, self.rows@[p].key@));
            if j > p {
                assert(before(self.rows@[p].key@, self.rows@[j].key@));
                lemma_before_transitive(key, self.rows@[p].key@, self.rows@[j].key@, 0);
            }
        }
        lemma_before_irreflexive(key, 0);
        self.lemma_domain();
    }

    /// Whether the table has a key.
    pub fn contains(&self, key: &str) -> (r: bool)
        requires
            self.wf(),
        ensures
            r == self@.contains_key(key@),
    {
        let p = self.position(key);
        if p < self.rows.len() && same(self.rows[p].key.as_str(), key) {
            proof {
                self.lemma_row(p as int);
            }
            true
        } else {
            proof {
                self.lemma_absent(key@, p as int);
            }
            false
        }
    }

    /// The value of a key.
    pub fn get(&self, key: &str) -> (r: Option<&V>)
        requires
            self.wf(),
        ensures
            match r {
                Some(value) => self@.contains_key(key@) && self@[key@] == value@,
                None => !self@.contains_key(key@),
            },
    {
        let p = self.position(key);
        if p < self.rows.len() && same(self.rows[p].key.as_str(), key) {
            proof {
                self.lemma_row(p as int);
            }
            Some(&self.rows[p].value)
        } else {
            proof {
                self.lemma_absent(key@, p as int);
            }
            None
        }
    }

    /// The keys that `other` does not have, in order.
    pub fn keys_not_in(&self, other: &Table<V>) -> (r: Vec<String>)
        requires
            other.wf(),
        ensures
            views(r@) == self.keys().filter(|k: Seq<char>| !other@.contains_key(k)),
    {
        let mut out: Vec<String> = Vec::new();
        let ghost keys = self.keys();
        let ghost absent = |k: Seq<char>| !other@.contains_key(k);
        let mut i: usize = 0;
        assert(views(out@) =~= keys.take(0).filter(absent)) by {
            reveal(Seq::filter);
        }
        while i < self.rows.len()
            invariant
                other.wf(),
                keys == self.keys(),
                absent == (|k: Seq<char>| !other@.contains_key(k)),
                i <= self.rows@.len(),
                views(out@) == keys.take(i as int).filter(absent),
            decreases self.rows@.len() - i,
        {
            proof {
                reveal(Seq::filter);
                assert(keys.take(i + 1).drop_last() =~= keys.take(i as int));
                assert(keys.take(i + 1).last() == self.rows@[i as int].key@);
            }
            let ghost held = views(out@);
            if !other.contains(self.rows[i].key.as_str()) {
                out.push(self.rows[i].key.clone());
                assert(views(out@) =~= held.push(self.rows@[i as int].key@));
            }
            i = i + 1;
        }
        assert(keys.take(keys.len() as int) =~= keys);
        out
    }

    /// Sets the value of a key.
    pub fn insert(&mut self, key: String, value: V)
        requires
            old(self).wf(),
        ensures
            final(self).wf(),
            final(self)@ == old(self)@.insert(key@, value@),
    {
        let p = self.position(key.as_str());
        let ghost prior = *self;
        let ghost at = key@;
        let ghost held = value@;
        if p < self.rows.len() && same(self.rows[p].key.as_str(), key.as_str()) {
            self.rows[p] = Row { key, value };
            assert(forall|j: int| 0 <= j < self.rows@.len() ==> (#[trigger] self.rows@[j]).key@ == prior.rows@[j].key@);
            assert(self.wf());
        } else {
            proof {
                prior.lemma_absent(at, p as int);
            }
            self.rows.insert(p, Row { key, value });
            assert(self.rows@ == prior.rows@.insert(p as int, self.rows@[p as int]));
            assert forall|i: int, j: int| 0 <= i < j < self.rows@.len() implies before(#[trigger] self.rows@[i].key@, #[trigger] self.rows@[j].key@) by {
                if i < p && j > p {
                    assert(before(prior.rows@[i].key@, prior.rows@[j - 1].key@));
                } else if i > p {
                    assert(before(prior.rows@[i - 1].key@, prior.rows@[j - 1].key@));
                } else if j < p {
                    assert(before(prior.rows@[i].key@, prior.rows@[j].key@));
                } else if j == p {
                    assert(before(prior.rows@[i].key@, at));
                } else {
                    assert(before(at, prior.rows@[j - 1].key@));
                }
            }
        }
        proof {
            let now = *self;
            now.lemma_domain();
            prior.lemma_domain();
            let replacing = now.rows@.len() == prior.rows@.len();
            assert(now.rows@[p as int].key@ == at && now.rows@[p as int].value@ == held);
            assert forall|k: Seq<char>| #[trigger] now@.contains_key(k) <==> prior@.insert(at, held).contains_key(k) by {
                if now@.contains_key(k) && k != at {
                    let i = choose|i: int| 0 <= i < now.rows@.len() && now.rows@[i].key@ == k;
                    if replacing || i < p {
                        assert(prior.rows@[i].key@ == k);
                    } else {
                        assert(prior.rows@[i - 1].key@ == k);
                    }
                }
                if prior@.contains_key(k) && k != at {
                    let i = choose|i: int| 0 <= i < prior.rows@.len() && prior.rows@[i].key@ == k;
                    if replacing || i < p {
                        assert(now.rows@[i].key@ == k);
                    } else {
                        assert(now.rows@[i + 1].key@ == k);
                    }
                }
                if k == at {
                    assert(now.rows@[p as int].key@ == k);
                }
            }
            assert forall|k: Seq<char>| now@.contains_key(k) implies #[trigger] now@[k] == prior@.insert(at, held)[k] by {
                let i = choose|i: int| 0 <= i < now.rows@.len() && now.rows@[i].key@ == k;
                now.lemma_row(i);
                now.lemma_row(p as int);
                if k != at {
                    if replacing || i < p {
                        assert(prior.rows@[i] == now.rows@[i]);
                        prior.lemma_row(i);
                    } else {
                        assert(prior.rows@[i - 1] == now.rows@[i]);
                        prior.lemma_row(i - 1);
                    }
                }
            }
            assert(now@ =~= prior@.insert(at, held));
        }
    }

    /// Takes a key out.
    pub fn remove(&mut self, key: &str)
        requires
            old(self).wf(),
        ensures
            final(self).wf(),
            final(self)@ == old(self)@.remove(key@),
    {
        let p = self.position(key);
        let ghost prior = *self;
        if p < self.rows.len() && same(self.rows[p].key.as_str(), key) {
            let _removed = self.rows.remove(p);
            proof {
                let now = *self;
                assert(now.rows@ == prior.rows@.remove(p as int));
                assert forall|i: int, j: int| 0 <= i < j < now.rows@.len() implies before(#[trigger] now.rows@[i].key@, #[trigger] now.rows@[j].key@) by {
                    let a = if i < p { i } else { i + 1 };
                    let b = if j < p { j } else { j + 1 };
                    assert(before(prior.rows@[a].key@, prior.rows@[b].key@));
                }
                now.lemma_domain();
                prior.lemma_domain();
                lemma_before_irreflexive(key@, 0);
                assert forall|k: Seq<char>| #[trigger] now@.contains_key(k) <==> prior@.remove(key@).contains_key(k) by {
                    if now@.contains_key(k) {
                        let i = choose|i: int| 0 <= i < now.rows@.len() && now.rows@[i].key@ == k;
                        if i < p {
                            assert(prior.rows@[i].key@ == k);
                        } else {
                            assert(prior.rows@[i + 1].key@ == k);
                            assert(before(prior.rows@[p as int].key@, prior.rows@[i + 1].key@));
                        }
                    }
                    if prior@.contains_key(k) && k != key@ {
                        let i = choose|i: int| 0 <= i < prior.rows@.len() && prior.rows@[i].key@ == k;
                        if i < p {
                            assert(now.rows@[i].key@ == k);
                        } else {
                            assert(now.rows@[i - 1].key@ == k);
                        }
                    }
                }
                assert forall|k: Seq<char>| now@.contains_key(k) implies #[trigger] now@[k] == prior@.remove(key@)[k] by {
                    let i = choose|i: int| 0 <= i < now.rows@.len() && now.rows@[i].key@ == k;
                    now.lemma_row(i);
                    if i < p {
                        assert(prior.rows@[i] == now.rows@[i]);
                        prior.lemma_row(i);
                    } else {
                        assert(prior.rows@[i + 1] == now.rows@[i]);
                        prior.lemma_row(i + 1);
                    }
                }
                assert(now@ =~= prior@.remove(key@));
            }
        } else {
            proof {
                prior.lemma_absent(key@, p as int);
                assert(prior@ =~= prior@.remove(key@));
            }
        }
    }
}

} // verus!
