//! A map keyed by text, with access to its entries in order of
//! first insertion.

use crate::text;
use vstd::prelude::*;

verus! {

/// The texts among `names`.
pub open spec fn text_set(names: Seq<String>) -> Set<Seq<char>> {
    Set::new(|t: Seq<char>| exists|k: int| 0 <= k < names.len() && (#[trigger] names[k])@ == t)
}

/// The texts of `strings`.
pub open spec fn texts(strings: Seq<String>) -> Seq<Seq<char>> {
    strings.map_values(|s: String| s@)
}

/// The same strings once more.
pub fn copied(strings: &Vec<String>) -> (r: Vec<String>)
    ensures
        r@ == strings@,
{
    let r = strings.clone();
    assert(r@ =~= strings@);
    r
}

/// A map from names to values.
pub struct NameMap<V> {
    names: Vec<String>,
    values: Vec<V>,
}

impl<V> NameMap<V> {
    /// Whether every name has one value and no name occurs twice.
    pub closed spec fn wf(self) -> bool {
        &&& self.names@.len() == self.values@.len()
        &&& forall|i: int, j: int|
            0 <= i < j < self.names@.len() ==> #[trigger] self.names@[i]@
                != #[trigger] self.names@[j]@
    }

    closed spec fn position(self, name: Seq<char>) -> int {
        choose|i: int| 0 <= i < self.names@.len() && #[trigger] self.names@[i]@ == name
    }

    closed spec fn holds(self, name: Seq<char>) -> bool {
        exists|i: int| 0 <= i < self.names@.len() && #[trigger] self.names@[i]@ == name
    }

    /// The contents as a mathematical map.
    pub closed spec fn view(self) -> Map<Seq<char>, V> {
        Map::new(
            |name: Seq<char>| self.holds(name),
            |name: Seq<char>| self.values@[self.position(name)],
        )
    }

    proof fn lemma_entry(self, i: int)
        requires
            self.wf(),
            0 <= i < self.names@.len(),
        ensures
            self@.dom().contains(self.names@[i]@),
            self@[self.names@[i]@] == self.values@[i],
    {
        let j = self.position(self.names@[i]@);
        assert(self.names@[i]@ == self.names@[i]@);
        assert(self.holds(self.names@[i]@));
        assert(i == j);
    }

    /// The empty map.
    pub fn new() -> (r: NameMap<V>)
        ensures
            r.wf(),
            r@ == Map::<Seq<char>, V>::empty(),
    {
        let r = NameMap { names: Vec::new(), values: Vec::new() };
        assert(r@ =~= Map::<Seq<char>, V>::empty());
        r
    }

    fn find(&self, name: &str) -> (r: Option<usize>)
        requires
            self.wf(),
        ensures
            match r {
                Some(i) => i < self.names@.len() && self.names@[i as int]@ == name@
                    && self@.dom().contains(name@) && self@[name@] == self.values@[i as int],
                None => !self.holds(name@) && !self@.dom().contains(name@),
            },
    {
        let mut i: usize = 0;
        while i < self.names.len()
            invariant
                self.wf(),
                i <= self.names@.len(),
                forall|k: int| 0 <= k < i ==> #[trigger] self.names@[k]@ != name@,
            decreases self.names@.len() - i,
        {
            if text::same(self.names[i].as_str(), name) {
                proof {
                    self.lemma_entry(i as int);
                }
                return Some(i);
            }
            i = i + 1;
        }
        None
    }

    /// The value of `name`, if there is one.
    pub fn get(&self, name: &str) -> (r: Option<&V>)
        requires
            self.wf(),
        ensures
            match r {
                Some(v) => self@.dom().contains(name@) && *v == self@[name@],
                None => !self@.dom().contains(name@),
            },
    {
        match self.find(name) {
            Some(i) => Some(&self.values[i]),
            None => None,
        }
    }

    /// Whether `name` has a value.
    pub fn contains(&self, name: &str) -> (r: bool)
        requires
            self.wf(),
        ensures
            r == self@.dom().contains(name@),
    {
        self.find(name).is_some()
    }

    /// Gives `name` the value `value`, in place of the one it had.
    pub fn insert(&mut self, name: &str, value: V)
        requires
            old(self).wf(),
        ensures
            final(self).wf(),
            final(self)@ == old(self)@.insert(name@, value),
    {
        let ghost before = *self;
        match self.find(name) {
            Some(i) => {
                self.values.set(i, value);
                proof {
                    lemma_updated(before, i as int);
                }
            },
            None => {
                self.names.push(name.to_owned());
                self.values.push(value);
                proof {
                    let n = before.names@.len() as int;
                    assert forall|i: int, j: int| 0 <= i < j < self.names@.len() implies #[trigger] self.names@[i]@
                        != #[trigger] self.names@[j]@ by {
                        assert(self.names@[i]@ == before.names@[i]@);
                        if j < n {
                            assert(self.names@[j]@ == before.names@[j]@);
                        }
                    }
                    assert forall|k: Seq<char>| #[trigger]
                        self@.dom().contains(k) == before@.insert(name@, value).dom().contains(k) by {
                        if before.holds(k) {
                            let p = before.position(k);
                            assert(self.names@[p]@ == k);
                        }
                        assert(self.names@[n]@ == name@);
                        if self.holds(k) {
                            let p = self.position(k);
                            if p < n {
                                assert(before.names@[p]@ == k);
                            }
                        }
                    }
                    assert forall|k: Seq<char>| #[trigger] self@.dom().contains(k) implies self@[k]
                        == before@.insert(name@, value)[k] by {
                        let p = self.position(k);
                        self.lemma_entry(p);
                        if p < n {
                            assert(before.names@[p]@ == k);
                            before.lemma_entry(p);
                        }
                    }
                    assert(self@ =~= before@.insert(name@, value));
                }
            },
        }
    }

    /// Takes `name` and its value out.
    pub fn remove(&mut self, name: &str) -> (r: Option<V>)
        requires
            old(self).wf(),
        ensures
            final(self).wf(),
            final(self)@ == old(self)@.remove(name@),
            match r {
                Some(v) => old(self)@.dom().contains(name@) && v == old(self)@[name@],
                None => !old(self)@.dom().contains(name@),
            },
    {
        let ghost before = *self;
        match self.find(name) {
            Some(i) => {
                self.names.remove(i);
                let v = self.values.remove(i);
                proof {
                    let at = i as int;
                    assert forall|a: int, b: int| 0 <= a < b < self.names@.len() implies #[trigger] self.names@[a]@
                        != #[trigger] self.names@[b]@ by {
                        let a0 = if a < at { a } else { a + 1 };
                        let b0 = if b < at { b } else { b + 1 };
                        assert(self.names@[a]@ == before.names@[a0]@);
                        assert(self.names@[b]@ == before.names@[b0]@);
                    }
                    assert forall|k: Seq<char>| #[trigger]
                        self@.dom().contains(k) == before@.remove(name@).dom().contains(k) by {
                        if before.holds(k) && k != name@ {
                            let p = before.position(k);
                            let q = if p < at { p } else { p - 1 };
                            assert(self.names@[q]@ == k);
                        }
                        if self.holds(k) {
                            let p = self.position(k);
                            let q = if p < at { p } else { p + 1 };
                            assert(before.names@[q]@ == k);
                            assert(before.names@[at]@ == name@);
                        }
                    }
                    assert forall|k: Seq<char>| #[trigger] self@.dom().contains(k) implies self@[k]
                        == before@.remove(name@)[k] by {
                        let p = self.position(k);
                        let q = if p < at { p } else { p + 1 };
                        self.lemma_entry(p);
                        assert(before.names@[q]@ == k);
                        before.lemma_entry(q);
                    }
                    assert(self@ =~= before@.remove(name@));
                }
                Some(v)
            },
            None => {
                assert(self@ =~= before@.remove(name@));
                None
            },
        }
    }

    /// How many names there are.
    pub fn len(&self) -> (r: usize)
        requires
            self.wf(),
        ensures
            r == self@.len(),
            self@.dom().finite(),
    {
        proof {
            self.lemma_size();
        }
        self.names.len()
    }

    proof fn lemma_size(self)
        requires
            self.wf(),
        ensures
            self@.dom().finite(),
            self@.len() == self.names@.len(),
    {
        let keys = self.names@.map_values(|s: String| s@);
        assert(keys.no_duplicates()) by {
            assert forall|i: int, j: int|
                0 <= i < keys.len() && 0 <= j < keys.len() && i != j implies keys[i] != keys[j] by {
                if i < j {
                    assert(self.names@[i]@ != self.names@[j]@);
                } else {
                    assert(self.names@[j]@ != self.names@[i]@);
                }
            }
        }
        keys.unique_seq_to_set();
        assert(self@.dom() =~= keys.to_set()) by {
            assert forall|k: Seq<char>| #[trigger]
                self@.dom().contains(k) == keys.to_set().contains(k) by {
                if self.holds(k) {
                    let p = self.position(k);
                    assert(keys[p] == k);
                }
                if keys.contains(k) {
                    let p = keys.index_of(k);
                    assert(self.names@[p]@ == k);
                }
            }
        }
    }

    /// The name at place `i`, in order of first insertion.
    pub closed spec fn name_at(self, i: int) -> Seq<char> {
        self.names@[i]@
    }

    /// The entry at place `i`.
    pub fn entry(&self, i: usize) -> (r: (&str, &V))
        requires
            self.wf(),
            i < self@.len(),
        ensures
            r.0@ == self.name_at(i as int),
            self@.dom().contains(r.0@),
            *r.1 == self@[r.0@],
    {
        proof {
            self.lemma_size();
            self.lemma_entry(i as int);
        }
        (self.names[i].as_str(), &self.values[i])
    }

    /// Takes the given names and their values out.
    pub fn remove_all(&mut self, names: &Vec<String>)
        requires
            old(self).wf(),
        ensures
            final(self).wf(),
            final(self)@ == old(self)@.remove_keys(text_set(names@)),
    {
        let ghost before = self@;
        assert(before.remove_keys(text_set(names@.take(0))) =~= before);
        let mut i: usize = 0;
        while i < names.len()
            invariant
                self.wf(),
                i <= names@.len(),
                self@ == before.remove_keys(text_set(names@.take(i as int))),
            decreases names@.len() - i,
        {
            self.remove(names[i].as_str());
            i = i + 1;
            proof {
                let done = names@.take(i as int);
                let earlier = names@.take(i - 1);
                assert(text_set(done) =~= text_set(earlier).insert(names@[i - 1]@)) by {
                    assert forall|t: Seq<char>| #[trigger]
                        text_set(done).contains(t) == text_set(earlier).insert(
                            names@[i - 1]@,
                        ).contains(t) by {
                        if text_set(earlier).contains(t) {
                            let k = choose|k: int|
                                0 <= k < earlier.len() && (#[trigger] earlier[k])@ == t;
                            assert(done[k]@ == t);
                        }
                        assert(done[i - 1]@ == names@[i - 1]@);
                        if text_set(done).contains(t) {
                            let k = choose|k: int| 0 <= k < done.len() && (#[trigger] done[k])@ == t;
                            if k < i - 1 {
                                assert(earlier[k]@ == t);
                            }
                        }
                    }
                }
                assert(self@ =~= before.remove_keys(text_set(done)));
            }
        }
        assert(names@.take(i as int) =~= names@);
    }

    /// The places below the size hold each name exactly once.
    pub proof fn lemma_places(self)
        requires
            self.wf(),
        ensures
            self@.dom().finite(),
            forall|i: int, j: int|
                0 <= i < j < self@.len() ==> #[trigger] self.name_at(i) != #[trigger] self.name_at(
                    j,
                ),
            forall|i: int| 0 <= i < self@.len() ==> self@.dom().contains(#[trigger] self.name_at(i)),
            forall|k: Seq<char>| #[trigger]
                self@.dom().contains(k) ==> exists|i: int|
                    0 <= i < self@.len() && #[trigger] self.name_at(i) == k,
    {
        self.lemma_size();
        assert forall|i: int| 0 <= i < self@.len() implies self@.dom().contains(
            #[trigger] self.name_at(i),
        ) by {
            self.lemma_entry(i);
        }
        assert forall|k: Seq<char>| #[trigger] self@.dom().contains(k) implies exists|i: int|
            0 <= i < self@.len() && #[trigger] self.name_at(i) == k by {
            let p = self.position(k);
            assert(self.name_at(p) == k);
        }
    }
}

proof fn lemma_updated<V>(m: NameMap<V>, i: int)
    requires
        m.wf(),
        0 <= i < m.names@.len(),
    ensures
        forall|n: NameMap<V>, v: V|
            #![trigger n@, m.values@.update(i, v)]
            n.names == m.names && n.values@ == m.values@.update(i, v) ==> n.wf() && n@ == m@.insert(
                m.names@[i]@,
                v,
            ),
{
    assert forall|n: NameMap<V>, v: V|
        #![trigger n@, m.values@.update(i, v)]
        n.names == m.names && n.values@ == m.values@.update(i, v) implies n.wf() && n@ == m@.insert(
        m.names@[i]@,
        v,
    ) by {
        assert(n.wf());
        assert forall|k: Seq<char>| #[trigger]
            n@.dom().contains(k) == m@.insert(m.names@[i]@, v).dom().contains(k) by {
            m.lemma_entry(i);
            assert(n.holds(k) == m.holds(k));
        }
        assert forall|k: Seq<char>| #[trigger] n@.dom().contains(k) implies n@[k] == m@.insert(
            m.names@[i]@,
            v,
        )[k] by {
            let p = n.position(k);
            n.lemma_entry(p);
            m.lemma_entry(p);
        }
        assert(n@ =~= m@.insert(m.names@[i]@, v));
    }
}

} // verus!
