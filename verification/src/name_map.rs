//! A map from names to values that keeps the order of insertion.

use vstd::prelude::*;
use vstd::string::*;
use crate::text::str_eq;

verus! {

/// No name occurs twice.
pub open spec fn distinct_names<V>(s: Seq<(Seq<char>, V)>) -> bool {
    forall|i: int, j: int| 0 <= i < j < s.len() ==> (#[trigger] s[i]).0 != (#[trigger] s[j]).0
}

/// Name `k` stands at position `i`.
pub open spec fn stands_at<V>(s: Seq<(Seq<char>, V)>, k: Seq<char>, i: int) -> bool {
    0 <= i < s.len() && s[i].0 == k
}

/// The map that a list of pairs stands for.
pub open spec fn map_of<V>(s: Seq<(Seq<char>, V)>) -> Map<Seq<char>, V> {
    Map::new(
        |k: Seq<char>| exists|i: int| stands_at(s, k, i),
        |k: Seq<char>| s[choose|i: int| stands_at(s, k, i)].1,
    )
}

/// In a list without repeated names, each pair is in the map.
pub proof fn lemma_pair_in_map<V>(s: Seq<(Seq<char>, V)>, i: int)
    requires
        distinct_names(s),
        0 <= i < s.len(),
    ensures
        map_of(s).dom().contains(s[i].0),
        map_of(s)[s[i].0] == s[i].1,
{
    assert(stands_at(s, s[i].0, i));
    let j = choose|j: int| stands_at(s, s[i].0, j);
    assert(stands_at(s, s[i].0, j));
}

proof fn lemma_absent<V>(s: Seq<(Seq<char>, V)>, k: Seq<char>)
    requires
        forall|i: int| 0 <= i < s.len() ==> (#[trigger] s[i]).0 != k,
    ensures
        !map_of(s).dom().contains(k),
{
}

/// A name at position `i` keeps its place; its value is replaced.
proof fn lemma_update<V>(s: Seq<(Seq<char>, V)>, i: int, v: V)
    requires
        distinct_names(s),
        0 <= i < s.len(),
    ensures
        distinct_names(s.update(i, (s[i].0, v))),
        map_of(s.update(i, (s[i].0, v))) == map_of(s).insert(s[i].0, v),
{
    let t = s.update(i, (s[i].0, v));
    assert forall|a: int, b: int| 0 <= a < b < t.len() implies (#[trigger] t[a]).0 != (
    #[trigger] t[b]).0 by {
        assert(s[a].0 != s[b].0);
    }
    assert forall|k: Seq<char>|
        map_of(t).dom().contains(k) == map_of(s).insert(s[i].0, v).dom().contains(k) by {
        if exists|a: int| stands_at(t, k, a) {
            let a = choose|a: int| stands_at(t, k, a);
            assert(stands_at(s, k, a));
        }
        if exists|a: int| stands_at(s, k, a) {
            let a = choose|a: int| stands_at(s, k, a);
            assert(stands_at(t, k, a));
        }
        if k == s[i].0 {
            assert(stands_at(t, k, i));
        }
    }
    assert forall|k: Seq<char>| #[trigger] map_of(t).dom().contains(k) implies map_of(t)[k]
        == map_of(s).insert(s[i].0, v)[k] by {
        let a = choose|a: int| stands_at(t, k, a);
        assert(stands_at(t, k, a));
        lemma_pair_in_map(t, a);
        lemma_pair_in_map(s, a);
    }
    assert(map_of(t) =~= map_of(s).insert(s[i].0, v));
}

/// A new name is put at the end.
proof fn lemma_append<V>(s: Seq<(Seq<char>, V)>, k: Seq<char>, v: V)
    requires
        distinct_names(s),
        forall|i: int| 0 <= i < s.len() ==> (#[trigger] s[i]).0 != k,
    ensures
        distinct_names(s.push((k, v))),
        map_of(s.push((k, v))) == map_of(s).insert(k, v),
{
    let t = s.push((k, v));
    assert forall|x: Seq<char>|
        map_of(t).dom().contains(x) == map_of(s).insert(k, v).dom().contains(x) by {
        if exists|a: int| stands_at(t, x, a) {
            let a = choose|a: int| stands_at(t, x, a);
            if a < s.len() {
                assert(stands_at(s, x, a));
            }
        }
        if exists|a: int| stands_at(s, x, a) {
            let a = choose|a: int| stands_at(s, x, a);
            assert(stands_at(t, x, a));
        }
        if x == k {
            assert(stands_at(t, x, s.len() as int));
        }
    }
    assert forall|x: Seq<char>| #[trigger] map_of(t).dom().contains(x) implies map_of(t)[x]
        == map_of(s).insert(k, v)[x] by {
        let a = choose|a: int| stands_at(t, x, a);
        assert(stands_at(t, x, a));
        lemma_pair_in_map(t, a);
        if a < s.len() {
            lemma_pair_in_map(s, a);
        }
    }
    assert(map_of(t) =~= map_of(s).insert(k, v));
}

/// A name and its value are taken out.
proof fn lemma_remove<V>(s: Seq<(Seq<char>, V)>, i: int)
    requires
        distinct_names(s),
        0 <= i < s.len(),
    ensures
        distinct_names(s.remove(i)),
        map_of(s.remove(i)) == map_of(s).remove(s[i].0),
{
    let t = s.remove(i);
    let k = s[i].0;
    assert forall|a: int, b: int| 0 <= a < b < t.len() implies (#[trigger] t[a]).0 != (
    #[trigger] t[b]).0 by {
        let a2 = if a < i { a } else { a + 1 };
        let b2 = if b < i { b } else { b + 1 };
        assert(s[a2].0 != s[b2].0);
    }
    assert forall|x: Seq<char>|
        map_of(t).dom().contains(x) == map_of(s).remove(k).dom().contains(x) by {
        if exists|a: int| stands_at(t, x, a) {
            let a = choose|a: int| stands_at(t, x, a);
            let a2 = if a < i { a } else { a + 1 };
            assert(stands_at(s, x, a2));
            assert(x != k) by {
                if a2 < i {
                    assert(s[a2].0 != s[i].0);
                } else {
                    assert(s[i].0 != s[a2].0);
                }
            }
        }
        if x != k && exists|a: int| stands_at(s, x, a) {
            let a = choose|a: int| stands_at(s, x, a);
            let a2 = if a < i { a } else { a - 1 };
            assert(stands_at(t, x, a2));
        }
    }
    assert forall|x: Seq<char>| #[trigger] map_of(t).dom().contains(x) implies map_of(t)[x]
        == map_of(s).remove(k)[x] by {
        let a = choose|a: int| stands_at(t, x, a);
        assert(stands_at(t, x, a));
        lemma_pair_in_map(t, a);
        let a2 = if a < i { a } else { a + 1 };
        lemma_pair_in_map(s, a2);
    }
    assert(map_of(t) =~= map_of(s).remove(k));
}

/// A map from names to values.
#[derive(Debug)]
pub struct NameMap<T: View> {
    entries: Vec<(String, T)>,
}

spec fn pairs_of<T: View>(s: Seq<(String, T)>) -> Seq<(Seq<char>, T::V)> {
    s.map_values(|e: (String, T)| (e.0@, e.1@))
}

impl<T: View> View for NameMap<T> {
    type V = Map<Seq<char>, T::V>;

    open spec fn view(&self) -> Map<Seq<char>, T::V> {
        map_of(self.pairs())
    }
}

impl<T: View> NameMap<T> {
    /// Names and values in the order in which the names came in.
    pub closed spec fn pairs(&self) -> Seq<(Seq<char>, T::V)> {
        pairs_of(self.entries@)
    }

    #[verifier::type_invariant]
    spec fn well_formed(&self) -> bool {
        distinct_names(pairs_of(self.entries@))
    }

    /// An empty map.
    pub fn new() -> (r: NameMap<T>)
        ensures
            r@ == Map::<Seq<char>, T::V>::empty(),
            r.pairs().len() == 0,
    {
        let r: NameMap<T> = NameMap { entries: Vec::new() };
        assert(map_of(r.pairs()) =~= Map::<Seq<char>, T::V>::empty()) by {
            assert forall|k: Seq<char>| !map_of(r.pairs()).dom().contains(k) by {
                lemma_absent(r.pairs(), k);
            }
        }
        r
    }

    /// Number of names.
    pub fn len(&self) -> (r: usize)
        ensures
            r == self.pairs().len(),
            distinct_names(self.pairs()),
    {
        proof {
            use_type_invariant(self);
        }
        self.entries.len()
    }

    /// The name at a position.
    pub fn key_at(&self, i: usize) -> (r: &String)
        requires
            i < self.pairs().len(),
        ensures
            r@ == self.pairs()[i as int].0,
            self@.dom().contains(r@),
            self@[r@] == self.pairs()[i as int].1,
    {
        proof {
            use_type_invariant(self);
            lemma_pair_in_map(self.pairs(), i as int);
        }
        &self.entries[i].0
    }

    /// The value at a position.
    pub fn value_at(&self, i: usize) -> (r: &T)
        requires
            i < self.pairs().len(),
        ensures
            r@ == self.pairs()[i as int].1,
            self@[self.pairs()[i as int].0] == r@,
    {
        proof {
            use_type_invariant(self);
            lemma_pair_in_map(self.pairs(), i as int);
        }
        &self.entries[i].1
    }

    fn find(&self, name: &str) -> (r: Option<usize>)
        ensures
            match r {
                Some(i) => i < self.pairs().len() && self.pairs()[i as int].0 == name@,
                None => forall|i: int| 0 <= i < self.pairs().len() ==> (#[trigger] self.pairs()[i]).0 != name@,
            },
    {
        let mut i: usize = 0;
        while i < self.entries.len()
            invariant
                i <= self.entries@.len(),
                forall|j: int| 0 <= j < i ==> (#[trigger] self.pairs()[j]).0 != name@,
            decreases self.entries@.len() - i,
        {
            if str_eq(self.entries[i].0.as_str(), name) {
                return Some(i);
            }
            i = i + 1;
        }
        None
    }

    /// The value of a name.
    pub fn get(&self, name: &str) -> (r: Option<&T>)
        ensures
            match r {
                Some(v) => self@.dom().contains(name@) && v@ == self@[name@],
                None => !self@.dom().contains(name@),
            },
    {
        proof {
            use_type_invariant(self);
        }
        match self.find(name) {
            Some(i) => {
                proof {
                    lemma_pair_in_map(self.pairs(), i as int);
                }
                Some(&self.entries[i].1)
            },
            None => {
                proof {
                    lemma_absent(self.pairs(), name@);
                }
                None
            },
        }
    }

    /// Whether a name has a value.
    pub fn contains_key(&self, name: &str) -> (r: bool)
        ensures
            r == self@.dom().contains(name@),
    {
        self.get(name).is_some()
    }

    /// Give a name a value.
    pub fn insert(&mut self, name: String, value: T)
        ensures
            final(self)@ == old(self)@.insert(name@, value@),
            old(self)@.dom().contains(name@) ==> {
                &&& final(self).pairs().len() == old(self).pairs().len()
                &&& forall|i: int|
                    0 <= i < old(self).pairs().len() ==> (#[trigger] final(self).pairs()[i]).0
                        == old(self).pairs()[i].0
            },
            !old(self)@.dom().contains(name@) ==> final(self).pairs() == old(self).pairs().push(
                (name@, value@),
            ),
    {
        proof {
            use_type_invariant(&*self);
        }
        let ghost before = self.pairs();
        let at: Option<usize> = self.find(name.as_str());
        let mut entries: Vec<(String, T)> = Vec::new();
        std::mem::swap(&mut entries, &mut self.entries);
        match at {
            Some(i) => {
                proof {
                    lemma_update(before, i as int, value@);
                    lemma_pair_in_map(before, i as int);
                }
                let ghost k = name@;
                let ghost v = value@;
                entries.set(i, (name, value));
                proof {
                    assert(pairs_of(entries@) =~= before.update(i as int, (before[i as int].0, v)));
                }
            },
            None => {
                proof {
                    lemma_append(before, name@, value@);
                    lemma_absent(before, name@);
                }
                let ghost k = name@;
                let ghost v = value@;
                entries.push((name, value));
                proof {
                    assert(pairs_of(entries@) =~= before.push((k, v)));
                }
            },
        }
        self.entries = entries;
    }

    /// Take a name and its value out.
    pub fn remove(&mut self, name: &str) -> (r: Option<T>)
        ensures
            final(self)@ == old(self)@.remove(name@),
            match r {
                Some(v) => old(self)@.dom().contains(name@) && v@ == old(self)@[name@],
                None => !old(self)@.dom().contains(name@),
            },
            final(self).pairs().len() + (if r is Some { 1int } else { 0int }) == old(self).pairs().len(),
    {
        proof {
            use_type_invariant(&*self);
        }
        let ghost before = self.pairs();
        match self.find(name) {
            Some(i) => {
                proof {
                    lemma_remove(before, i as int);
                    lemma_pair_in_map(before, i as int);
                }
                let mut entries: Vec<(String, T)> = Vec::new();
                std::mem::swap(&mut entries, &mut self.entries);
                let e: (String, T) = entries.remove(i);
                assert(pairs_of(entries@) =~= before.remove(i as int));
                self.entries = entries;
                Some(e.1)
            },
            None => {
                proof {
                    lemma_absent(before, name@);
                    assert(map_of(before).remove(name@) =~= map_of(before));
                }
                None
            },
        }
    }
}

} // verus!
