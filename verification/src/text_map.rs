//! A map from text to values.
use vstd::prelude::*;

use crate::datum::Datum;

verus! {

/// A map whose keys are strings, kept as a list of pairs with no key twice.
#[derive(Debug)]
pub struct TextMap<T> {
    items: Vec<(String, T)>,
}

/// No key stands in two of the pairs.
spec fn distinct<T>(items: Seq<(String, T)>) -> bool {
    forall|i: int, j: int|
        0 <= i < j < items.len() ==> (#[trigger] items[i]).0@ != (#[trigger] items[j]).0@
}

impl<T> TextMap<T> {
    #[verifier::type_invariant]
    spec fn distinct_keys(self) -> bool {
        distinct(self.items@)
    }

    /// How many pairs the map holds.
    pub closed spec fn spec_len(self) -> nat {
        self.items@.len()
    }

    /// The key of the pair at a position.
    pub closed spec fn key(self, i: int) -> Seq<char> {
        self.items@[i].0@
    }

    /// The value of the pair at a position.
    pub closed spec fn value(self, i: int) -> T {
        self.items@[i].1
    }

    /// The position of a key that the map holds.
    pub open spec fn position(self, key: Seq<char>) -> int {
        choose|i: int| 0 <= i < self.spec_len() && self.key(i) == key
    }

    /// Whether the map holds a key.
    pub open spec fn has(self, key: Seq<char>) -> bool {
        exists|i: int| 0 <= i < self.spec_len() && self.key(i) == key
    }
}

impl<T: DeepView> DeepView for TextMap<T> {
    type V = Map<Seq<char>, T::V>;

    open spec fn deep_view(&self) -> Map<Seq<char>, T::V> {
        Map::new(|k: Seq<char>| self.has(k), |k: Seq<char>| self.value(self.position(k)).deep_view())
    }
}

/// Reads the map at the key of a position.
proof fn lemma_at<T: DeepView>(m: TextMap<T>, i: int)
    requires
        distinct(m.items@),
        0 <= i < m.spec_len(),
    ensures
        m.deep_view().contains_key(m.key(i)),
        m.deep_view()[m.key(i)] == m.value(i).deep_view(),
{
    assert(m.has(m.key(i)));
    let j = m.position(m.key(i));
    assert(0 <= j < m.spec_len() && m.key(j) == m.key(i));
    assert(m.items@[i].0@ == m.items@[j].0@);
}

/// Every key of the map stands at some position.
proof fn lemma_position<T: DeepView>(m: TextMap<T>, key: Seq<char>)
    requires
        m.deep_view().contains_key(key),
    ensures
        0 <= m.position(key) < m.spec_len(),
        m.key(m.position(key)) == key,
        m.deep_view()[key] == m.value(m.position(key)).deep_view(),
{
    assert(m.has(key));
}

impl<T: DeepView> TextMap<T> {
    /// The map without any pair.
    pub fn new() -> (m: Self)
        ensures
            m.deep_view() == Map::<Seq<char>, T::V>::empty(),
            m.spec_len() == 0,
    {
        let m = TextMap { items: Vec::new() };
        assert(m.deep_view() =~= Map::<Seq<char>, T::V>::empty());
        m
    }

    /// How many pairs the map holds.
    pub fn len(&self) -> (n: usize)
        ensures
            n == self.spec_len(),
    {
        self.items.len()
    }

    /// The pair at a position.
    pub fn at(&self, i: usize) -> (pair: (&str, &T))
        requires
            i < self.spec_len(),
        ensures
            pair.0@ == self.key(i as int),
            *pair.1 == self.value(i as int),
            self.deep_view().contains_key(pair.0@),
            self.deep_view()[pair.0@] == pair.1.deep_view(),
    {
        proof {
            use_type_invariant(self);
            lemma_at(*self, i as int);
        }
        (self.items[i].0.as_str(), &self.items[i].1)
    }

    /// The position of a key, if the map holds it.
    fn find(&self, key: &str) -> (found: Option<usize>)
        ensures
            match found {
                Some(i) => i < self.spec_len() && self.key(i as int) == key@,
                None => !self.deep_view().contains_key(key@),
            },
    {
        let sought: String = key.to_owned();
        let mut i: usize = 0;
        while i < self.items.len()
            invariant
                i <= self.spec_len(),
                sought@ == key@,
                forall|j: int| 0 <= j < i ==> self.key(j) != key@,
            decreases self.spec_len() - i,
        {
            if self.items[i].0 == sought {
                return Some(i);
            }
            i = i + 1;
        }
        None
    }

    /// The value of a key, if the map holds it.
    pub fn get(&self, key: &str) -> (found: Option<&T>)
        ensures
            match found {
                Some(v) => self.deep_view().contains_key(key@) && self.deep_view()[key@] == v.deep_view(),
                None => !self.deep_view().contains_key(key@),
            },
    {
        match self.find(key) {
            Some(i) => {
                proof {
                    use_type_invariant(self);
                    lemma_at(*self, i as int);
                }
                Some(&self.items[i].1)
            },
            None => None,
        }
    }

    /// Sets the value of a key.
    pub fn insert(&mut self, key: String, value: T)
        ensures
            final(self).deep_view() == old(self).deep_view().insert(key@, value.deep_view()),
    {
        proof {
            use_type_invariant(&*self);
        }
        let found: Option<usize> = self.find(key.as_str());
        let mut items: Vec<(String, T)> = Vec::new();
        std::mem::swap(&mut items, &mut self.items);
        let ghost before = *old(self);
        match found {
            Some(i) => {
                items.set(i, (key, value));
            },
            None => {
                assert forall|j: int| 0 <= j < items@.len() implies items@[j].0@ != key@ by {
                    lemma_at(before, j);
                }
                items.push((key, value));
            },
        }
        self.items = items;
        proof {
            assert forall|k: Seq<char>| #[trigger]
                self.deep_view().contains_key(k) implies before.deep_view().insert(
                key@,
                value.deep_view(),
            ).contains_key(k) && self.deep_view()[k] == before.deep_view().insert(
                key@,
                value.deep_view(),
            )[k] by {
                lemma_position(*self, k);
                let j = self.position(k);
                if k != key@ {
                    assert(self.items@[j] == before.items@[j]);
                    lemma_at(before, j);
                }
            }
            assert forall|k: Seq<char>| #[trigger]
                before.deep_view().insert(key@, value.deep_view()).contains_key(k) implies self.deep_view().contains_key(
                k,
            ) by {
                if k == key@ {
                    let j = match found {
                        Some(i) => i as int,
                        None => before.items@.len() as int,
                    };
                    lemma_at(*self, j);
                } else {
                    lemma_position(before, k);
                    let j = before.position(k);
                    assert(self.items@[j] == before.items@[j]);
                    lemma_at(*self, j);
                }
            }
            assert(self.deep_view() =~= before.deep_view().insert(key@, value.deep_view()));
        }
    }

    /// Takes a key out of the map.
    pub fn remove(&mut self, key: &str)
        ensures
            final(self).deep_view() == old(self).deep_view().remove(key@),
    {
        proof {
            use_type_invariant(&*self);
        }
        let found: Option<usize> = self.find(key);
        let ghost before = *old(self);
        match found {
            Some(i) => {
                let mut items: Vec<(String, T)> = Vec::new();
                std::mem::swap(&mut items, &mut self.items);
                let _ = items.remove(i);
                self.items = items;
                proof {
                    assert forall|k: Seq<char>| #[trigger]
                        self.deep_view().contains_key(k) implies before.deep_view().remove(key@).contains_key(k)
                        && self.deep_view()[k] == before.deep_view()[k] by {
                        lemma_position(*self, k);
                        let j = self.position(k);
                        let j0 = if j < i { j } else { j + 1 };
                        assert(self.items@[j] == before.items@[j0]);
                        lemma_at(before, j0);
                        assert(before.items@[j0].0@ != before.items@[i as int].0@);
                    }
                    assert forall|k: Seq<char>| #[trigger]
                        before.deep_view().remove(key@).contains_key(k) implies self.deep_view().contains_key(k) by {
                        lemma_position(before, k);
                        let j0 = before.position(k);
                        let j = if j0 < i { j0 } else { j0 - 1 };
                        assert(self.items@[j] == before.items@[j0]);
                        lemma_at(*self, j);
                    }
                    assert(self.deep_view() =~= before.deep_view().remove(key@));
                }
            },
            None => {
                assert(self.deep_view() =~= before.deep_view().remove(key@));
            },
        }
    }
}

impl<T> TextMap<T> {
    /// The map with the same keys and, at each position, the given value.
    pub fn with_values<U: DeepView>(&self, values: Vec<U>) -> (m: TextMap<U>)
        requires
            values@.len() == self.spec_len(),
        ensures
            m.spec_len() == self.spec_len(),
            forall|i: int| 0 <= i < self.spec_len() ==> #[trigger] m.key(i) == self.key(i) && m.value(i) == values@[i],
            forall|k: Seq<char>| #[trigger] m.has(k) <==> self.has(k),
            forall|i: int|
                0 <= i < self.spec_len() ==> #[trigger] m.deep_view().contains_key(self.key(i))
                    && m.deep_view()[self.key(i)] == values@[i].deep_view(),
    {
        proof {
            use_type_invariant(self);
        }
        let ghost all = values@;
        let mut rest: Vec<U> = values;
        let mut reversed: Vec<U> = Vec::new();
        let ghost n = self.items@.len();
        while rest.len() > 0
            invariant
                rest@.len() <= n,
                n == all.len(),
                reversed@.len() + rest@.len() == n,
                rest@ =~= all.take(rest@.len() as int),
                forall|j: int| 0 <= j < reversed@.len() ==> #[trigger] reversed@[j] == all[n - 1 - j],
            decreases rest@.len(),
        {
            let v = rest.pop();
            match v {
                Some(v) => reversed.push(v),
                None => {},
            }
        }
        let mut items: Vec<(String, U)> = Vec::new();
        while items.len() < self.items.len()
            invariant
                n == all.len() == self.items@.len(),
                items@.len() + reversed@.len() == n,
                forall|j: int| 0 <= j < reversed@.len() ==> #[trigger] reversed@[j] == all[n - 1 - j],
                forall|j: int| #![trigger items@[j]] 0 <= j < items@.len() ==> items@[j].0@ == self.items@[j].0@ && items@[j].1 == all[j],
            decreases n - items@.len(),
        {
            let ghost done = items@.len();
            match reversed.pop() {
                Some(v) => {
                    let key: String = self.items[items.len()].0.clone();
                    items.push((key, v));
                },
                None => {},
            }
        }
        let m = TextMap { items };
        proof {
            assert forall|k: Seq<char>| #[trigger] m.has(k) <==> self.has(k) by {
                if m.has(k) {
                    let j = m.position(k);
                    assert(self.key(j) == k);
                }
                if self.has(k) {
                    let j = self.position(k);
                    assert(m.key(j) == k);
                }
            }
            assert forall|i: int|
                0 <= i < self.spec_len() implies #[trigger] m.deep_view().contains_key(self.key(i))
                    && m.deep_view()[self.key(i)] == all[i].deep_view() by {
                lemma_at(m, i);
            }
        }
        m
    }
}

impl<T: Datum> Datum for TextMap<T> {
    fn same(&self, other: &Self) -> (equal: bool) {
        proof {
            use_type_invariant(self);
            use_type_invariant(other);
        }
        let mut i: usize = 0;
        while i < self.items.len()
            invariant
                i <= self.spec_len(),
                distinct(self.items@),
                distinct(other.items@),
                forall|j: int| #![trigger self.key(j)]
                    0 <= j < i ==> other.deep_view().contains_key(self.key(j)) && other.deep_view()[self.key(j)]
                        == self.value(j).deep_view(),
            decreases self.spec_len() - i,
        {
            proof {
                lemma_at(*self, i as int);
            }
            match other.get(self.items[i].0.as_str()) {
                Some(v) => {
                    if !v.same(&self.items[i].1) {
                        return false;
                    }
                },
                None => {
                    return false;
                },
            }
            i = i + 1;
        }
        let mut i: usize = 0;
        while i < other.items.len()
            invariant
                i <= other.spec_len(),
                distinct(self.items@),
                distinct(other.items@),
                forall|j: int| #![trigger other.key(j)] 0 <= j < i ==> self.deep_view().contains_key(other.key(j)),
            decreases other.spec_len() - i,
        {
            proof {
                lemma_at(*other, i as int);
            }
            if self.get(other.items[i].0.as_str()).is_none() {
                return false;
            }
            i = i + 1;
        }
        proof {
            assert forall|k: Seq<char>| #[trigger]
                self.deep_view().contains_key(k) implies other.deep_view().contains_key(k)
                && self.deep_view()[k] == other.deep_view()[k] by {
                lemma_position(*self, k);
            }
            assert forall|k: Seq<char>| #[trigger] other.deep_view().contains_key(k) implies self.deep_view().contains_key(
                k,
            ) by {
                lemma_position(*other, k);
            }
            assert(self.deep_view() =~= other.deep_view());
        }
        true
    }

    fn duplicate(&self) -> (copy: Self) {
        let mut values: Vec<T> = Vec::new();
        let mut i: usize = 0;
        while i < self.items.len()
            invariant
                i <= self.spec_len(),
                values@.len() == i,
                forall|j: int| #![trigger values@[j]] 0 <= j < i ==> values@[j].deep_view() == self.value(j).deep_view(),
            decreases self.spec_len() - i,
        {
            values.push(self.items[i].1.duplicate());
            i = i + 1;
        }
        let copy = self.with_values(values);
        proof {
            use_type_invariant(self);
            assert forall|k: Seq<char>| #[trigger] self.deep_view().contains_key(k) implies copy.deep_view().contains_key(k)
                && copy.deep_view()[k] == self.deep_view()[k] by {
                lemma_position(*self, k);
                assert(copy.deep_view().contains_key(self.key(self.position(k))));
            }
            assert(copy.deep_view() =~= self.deep_view());
        }
        copy
    }
}

impl<T: Datum> Clone for TextMap<T> {
    fn clone(&self) -> (copy: Self)
        ensures
            copy.deep_view() == self.deep_view(),
    {
        self.duplicate()
    }
}

} // verus!
