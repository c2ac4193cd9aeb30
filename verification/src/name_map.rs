//! A map from names to values that keeps its entries in rising order of
//! their names, so that a name is found by halving and the values can be
//! walked in one fixed order.

use vstd::prelude::*;
use crate::name_order::{
    compare_names, fits_at, lemma_name_lt_total, lemma_name_lt_transitive, lemma_names_in_order,
    lemma_rising_insert, lemma_rising_no_duplicates, lists, name_lt, names_in_order, rising,
    NameOrder,
};

verus! {

/// The values of `m` in rising order of their names.
pub open spec fn in_order<V>(m: Map<Seq<char>, V>) -> Seq<V> {
    names_in_order(m.dom()).map_values(|n: Seq<char>| m[n])
}

/// A map from names to values.
///
/// Its view is the mathematical map; the order in which the values are kept
/// is a function of that map alone, see [`in_order`].
#[derive(Debug, PartialEq)]
pub struct NameMap<V> {
    names: Vec<String>,
    values: Vec<V>,
}

impl<V> View for NameMap<V> {
    type V = Map<Seq<char>, V>;

    closed spec fn view(&self) -> Map<Seq<char>, V> {
        Map::new(
            |n: Seq<char>| self.held().contains(n),
            |n: Seq<char>| self.values@[self.held().index_of(n)],
        )
    }
}

impl<V> NameMap<V> {
    /// The names held, in the order in which they are kept.
    closed spec fn held(&self) -> Seq<Seq<char>> {
        self.names@.map_values(|s: String| s@)
    }

    /// Each name has its value, and the names rise.
    #[verifier::type_invariant]
    closed spec fn wf(&self) -> bool {
        &&& self.names@.len() == self.values@.len()
        &&& rising(self.held())
    }

    /// What the view is, read off the two vectors.
    proof fn lemma_view(&self)
        requires
            self.wf(),
        ensures
            self@.dom().finite(),
            self@.len() == self.held().len(),
            lists(self.held(), self@.dom()),
            forall|i: int|
                0 <= i < self.held().len() ==> self@.contains_key(#[trigger] self.held()[i])
                    && self@[self.held()[i]] == self.values@[i],
            self.held() == names_in_order(self@.dom()),
            self.values@ == in_order(self@),
    {
        let names = self.held();
        lemma_rising_no_duplicates(names);
        assert(self@.dom() =~= names.to_set());
        names.unique_seq_to_set();
        assert forall|i: int| 0 <= i < names.len() implies self@.contains_key(#[trigger] names[i])
            && self@[names[i]] == self.values@[i] by {
            assert(names.contains(names[i]));
            let k = names.index_of(names[i]);
            assert(names[k] == names[i]);
            assert(k == i);
        }
        lemma_names_in_order(names, self@.dom());
        assert(self.values@ =~= in_order(self@));
    }

    /// A map that holds nothing.
    pub fn new() -> (m: Self)
        ensures
            m@ == Map::<Seq<char>, V>::empty(),
    {
        let m = NameMap { names: Vec::new(), values: Vec::new() };
        assert(m@ =~= Map::<Seq<char>, V>::empty());
        m
    }

    /// The number of names held.
    pub fn len(&self) -> (n: usize)
        ensures
            self@.dom().finite(),
            n == self@.len(),
    {
        proof {
            use_type_invariant(self);
            self.lemma_view();
        }
        self.names.len()
    }

    /// Where `name` stands among the names held: at which index it is, or at
    /// which index it would have to go in.
    fn find(&self, name: &str) -> (r: Result<usize, usize>)
        ensures
            match r {
                Ok(i) => i < self.held().len() && self.held()[i as int] == name@,
                Err(i) => fits_at(self.held(), name@, i as int),
            },
    {
        proof {
            use_type_invariant(self);
        }
        let mut lo: usize = 0;
        let mut hi: usize = self.names.len();
        while lo < hi
            invariant
                lo <= hi <= self.names@.len(),
                rising(self.held()),
                forall|j: int| 0 <= j < lo ==> name_lt(#[trigger] self.held()[j], name@),
                forall|j: int| hi <= j < self.held().len() ==> name_lt(name@, #[trigger] self.held()[j]),
            decreases hi - lo,
        {
            let mid: usize = lo + (hi - lo) / 2;
            match compare_names(self.names[mid].as_str(), name) {
                NameOrder::Same => {
                    return Ok(mid);
                },
                NameOrder::Before => {
                    proof {
                        assert forall|j: int| 0 <= j < mid + 1 implies name_lt(
                            #[trigger] self.held()[j],
                            name@,
                        ) by {
                            if j < mid {
                                lemma_name_lt_transitive(
                                    self.held()[j],
                                    self.held()[mid as int],
                                    name@,
                                );
                            }
                        }
                    }
                    lo = mid + 1;
                },
                NameOrder::After => {
                    proof {
                        lemma_name_lt_total(self.held()[mid as int], name@);
                        assert forall|j: int| mid <= j < self.held().len() implies name_lt(
                            name@,
                            #[trigger] self.held()[j],
                        ) by {
                            if mid < j {
                                lemma_name_lt_transitive(
                                    name@,
                                    self.held()[mid as int],
                                    self.held()[j],
                                );
                            }
                        }
                    }
                    hi = mid;
                },
            }
        }
        Err(lo)
    }

    /// The value kept under `name`, if there is one.
    pub fn get(&self, name: &str) -> (r: Option<&V>)
        ensures
            r == if self@.contains_key(name@) {
                Some(&self@[name@])
            } else {
                None
            },
    {
        proof {
            use_type_invariant(self);
            self.lemma_view();
        }
        match self.find(name) {
            Ok(i) => Some(&self.values[i]),
            Err(i) => {
                proof {
                    lemma_rising_insert(self.held(), name@, i as int);
                }
                None
            },
        }
    }

    /// Keeps `value` under `name`, in place of what was kept under it, and
    /// hands back what was there.
    pub fn insert(&mut self, name: String, value: V) -> (prev: Option<V>)
        ensures
            final(self)@ == old(self)@.insert(name@, value),
            prev == if old(self)@.contains_key(name@) {
                Some(old(self)@[name@])
            } else {
                None
            },
    {
        proof {
            use_type_invariant(&*self);
            self.lemma_view();
        }
        let found = self.find(name.as_str());
        let mut taken = NameMap::new();
        core::mem::swap(self, &mut taken);
        let NameMap { mut names, mut values } = taken;
        let ghost before = old(self).held();
        match found {
            Ok(i) => {
                let mut kept = value;
                core::mem::swap(&mut values[i], &mut kept);
                *self = NameMap { names, values };
                proof {
                    self.lemma_view();
                    assert(self@ =~= old(self)@.insert(name@, value));
                }
                Some(kept)
            },
            Err(i) => {
                proof {
                    lemma_rising_insert(before, name@, i as int);
                }
                names.insert(i, name);
                values.insert(i, value);
                proof {
                    assert(names@.map_values(|s: String| s@) =~= before.insert(i as int, name@));
                }
                *self = NameMap { names, values };
                proof {
                    self.lemma_view();
                    assert forall|n: Seq<char>| old(self)@.contains_key(n) implies self@[n] == old(
                        self,
                    )@[n] by {
                        let k = choose|k: int| 0 <= k < before.len() && before[k] == n;
                        if k < i {
                            assert(self.held()[k] == n);
                        } else {
                            assert(self.held()[k + 1] == n);
                        }
                    }
                    assert(self.held()[i as int] == name@);
                    assert(self@ =~= old(self)@.insert(name@, value));
                }
                None
            },
        }
    }

    /// The values in rising order of their names.
    pub fn values(&self) -> (r: &Vec<V>)
        ensures
            r@ == in_order(self@),
    {
        proof {
            use_type_invariant(self);
            self.lemma_view();
        }
        &self.values
    }
}

impl<T> NameMap<Vec<T>> {
    /// Puts `item` at the end of the sequence kept under `name`; under a
    /// name that is new the sequence starts empty.
    pub fn append(&mut self, name: String, item: T)
        ensures
            final(self)@.dom() == old(self)@.dom().insert(name@),
            final(self)@[name@]@ == (if old(self)@.contains_key(name@) {
                old(self)@[name@]@
            } else {
                Seq::<T>::empty()
            }).push(item),
            forall|n: Seq<char>|
                old(self)@.contains_key(n) && n != name@ ==> final(self)@[n] == old(self)@[n],
    {
        proof {
            use_type_invariant(&*self);
            self.lemma_view();
        }
        let found = self.find(name.as_str());
        let mut taken = NameMap::new();
        core::mem::swap(self, &mut taken);
        let NameMap { mut names, mut values } = taken;
        let ghost before = old(self).held();
        match found {
            Ok(i) => {
                values[i].push(item);
                *self = NameMap { names, values };
                proof {
                    self.lemma_view();
                    lemma_rising_no_duplicates(before);
                    assert(self@.dom() =~= old(self)@.dom().insert(name@));
                    assert forall|n: Seq<char>|
                        old(self)@.contains_key(n) && n != name@ implies self@[n] == old(self)@[n] by {
                        let k = choose|k: int| 0 <= k < before.len() && before[k] == n;
                        assert(self.held()[k] == n);
                    }
                }
            },
            Err(i) => {
                proof {
                    lemma_rising_insert(before, name@, i as int);
                }
                let mut group: Vec<T> = Vec::new();
                group.push(item);
                names.insert(i, name);
                values.insert(i, group);
                proof {
                    assert(names@.map_values(|s: String| s@) =~= before.insert(i as int, name@));
                }
                *self = NameMap { names, values };
                proof {
                    self.lemma_view();
                    assert(self@.dom() =~= old(self)@.dom().insert(name@));
                    assert forall|n: Seq<char>|
                        old(self)@.contains_key(n) && n != name@ implies self@[n] == old(self)@[n] by {
                        let k = choose|k: int| 0 <= k < before.len() && before[k] == n;
                        if k < i {
                            assert(self.held()[k] == n);
                        } else {
                            assert(self.held()[k + 1] == n);
                        }
                    }
                    assert(self.held()[i as int] == name@);
                    assert(group@ =~= Seq::<T>::empty().push(item));
                }
            },
        }
    }
}

} // verus!
