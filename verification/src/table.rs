use vstd::prelude::*;

verus! {

/// A value with a mathematical model that can be copied.
pub trait Modeled: Sized {
    type Model;

    spec fn modeled(&self) -> Self::Model;

    fn duplicate_item(&self) -> (r: Self)
        ensures
            r.modeled() == self.modeled(),
    ;
}

/// A finite map from names to values, kept as a list of distinct names.
pub struct Table<T> {
    entries: Vec<(String, T)>,
}

/// Whether some entry of `s` is named `k`.
pub open spec fn has_key<T>(s: Seq<(String, T)>, k: Seq<char>) -> bool {
    exists|i: int| 0 <= i < s.len() && (#[trigger] s[i]).0@ == k
}

/// The position of the entry named `k`.
pub open spec fn key_index<T>(s: Seq<(String, T)>, k: Seq<char>) -> int {
    choose|i: int| 0 <= i < s.len() && (#[trigger] s[i]).0@ == k
}

/// No two entries have the same name.
pub open spec fn distinct_keys<T>(s: Seq<(String, T)>) -> bool {
    forall|i: int, j: int| 0 <= i < s.len() && 0 <= j < s.len() && i != j ==> (#[trigger] s[i]).0@
        != (#[trigger] s[j]).0@
}

/// The map that a list of entries with distinct names stands for.
pub open spec fn entries_model<T: Modeled>(s: Seq<(String, T)>) -> Map<Seq<char>, T::Model> {
    Map::new(|k: Seq<char>| has_key(s, k), |k: Seq<char>| s[key_index(s, k)].1.modeled())
}

proof fn lemma_entry<T: Modeled>(s: Seq<(String, T)>, i: int)
    requires
        distinct_keys(s),
        0 <= i < s.len(),
    ensures
        entries_model(s).contains_key(s[i].0@),
        entries_model(s)[s[i].0@] == s[i].1.modeled(),
        key_index(s, s[i].0@) == i,
{
    assert(has_key(s, s[i].0@));
    let j = key_index(s, s[i].0@);
    assert(0 <= j < s.len() && s[j].0@ == s[i].0@);
}

impl<T> Table<T> {
    #[verifier::type_invariant]
    spec fn inv(&self) -> bool {
        distinct_keys(self.entries@)
    }
}

impl<T: Modeled> Table<T> {
    /// The map from names to the models of their values.
    pub closed spec fn model(&self) -> Map<Seq<char>, T::Model> {
        entries_model(self.entries@)
    }

    /// An empty table.
    pub fn new() -> (t: Table<T>)
        ensures
            t.model() == Map::<Seq<char>, T::Model>::empty(),
    {
        let t = Table { entries: Vec::new() };
        assert(t.model() =~= Map::<Seq<char>, T::Model>::empty());
        t
    }

    /// The position of the entry named `key`.
    fn find(&self, key: &String) -> (r: Option<usize>)
        ensures
            r is None <==> !self.model().contains_key(key@),
            r matches Some(i) ==> i < self.entries@.len() && self.entries@[i as int].0@ == key@,
    {
        let mut i: usize = 0;
        while i < self.entries.len()
            invariant
                i <= self.entries@.len(),
                forall|j: int| 0 <= j < i ==> (#[trigger] self.entries@[j]).0@ != key@,
            decreases self.entries@.len() - i,
        {
            if self.entries[i].0 == *key {
                return Some(i);
            }
            i += 1;
        }
        None
    }

    /// The value named `key`, if there is one.
    pub fn get(&self, key: &String) -> (r: Option<&T>)
        ensures
            r is Some <==> self.model().contains_key(key@),
            r matches Some(v) ==> v.modeled() == self.model()[key@],
    {
        proof {
            use_type_invariant(self);
        }
        match self.find(key) {
            Some(i) => {
                proof {
                    lemma_entry(self.entries@, i as int);
                }
                Some(&self.entries[i].1)
            },
            None => None,
        }
    }

    /// Names `val` with `key`, replacing any value the name had.
    pub fn insert(&mut self, key: String, val: T)
        ensures
            final(self).model() == old(self).model().insert(key@, val.modeled()),
    {
        proof {
            use_type_invariant(&*self);
        }
        let ghost old_entries = self.entries@;
        let ghost k = key@;
        let ghost vm = val.modeled();
        match self.find(&key) {
            Some(i) => {
                let mut entries: Vec<(String, T)> = Vec::new();
                std::mem::swap(&mut entries, &mut self.entries);
                entries.set(i, (key, val));
                proof {
                    let s = entries@;
                    assert(distinct_keys(s)) by {
                        assert forall|a: int, b: int|
                            0 <= a < s.len() && 0 <= b < s.len() && a != b implies (#[trigger] s[a]).0@
                            != (#[trigger] s[b]).0@ by {
                            assert(old_entries[a].0@ != old_entries[b].0@);
                        }
                    }
                    assert forall|x: Seq<char>| has_key(s, x) == has_key(old_entries, x) by {
                        if has_key(s, x) {
                            let a = choose|a: int| 0 <= a < s.len() && (#[trigger] s[a]).0@ == x;
                            assert(old_entries[a].0@ == x);
                        }
                        if has_key(old_entries, x) {
                            let a = choose|a: int| 0 <= a < old_entries.len() && (#[trigger] old_entries[a]).0@ == x;
                            assert(s[a].0@ == x);
                        }
                    }
                    assert forall|x: Seq<char>| #[trigger] entries_model(s).contains_key(x) && x != k
                        implies entries_model(s)[x] == entries_model(old_entries)[x] by {
                        let a = key_index(s, x);
                        lemma_entry(s, a);
                        lemma_entry(old_entries, a);
                    }
                    lemma_entry(s, i as int);
                    assert(entries_model(s) =~= entries_model(old_entries).insert(k, vm));
                }
                self.entries = entries;
            },
            None => {
                let mut entries: Vec<(String, T)> = Vec::new();
                std::mem::swap(&mut entries, &mut self.entries);
                entries.push((key, val));
                proof {
                    let s = entries@;
                    assert(distinct_keys(s));
                    assert forall|x: Seq<char>| has_key(s, x) == (has_key(old_entries, x) || x == k) by {
                        if has_key(s, x) {
                            let a = choose|a: int| 0 <= a < s.len() && (#[trigger] s[a]).0@ == x;
                            if a < old_entries.len() {
                                assert(old_entries[a].0@ == x);
                            }
                        }
                        if has_key(old_entries, x) {
                            let a = choose|a: int| 0 <= a < old_entries.len() && (#[trigger] old_entries[a]).0@ == x;
                            assert(s[a].0@ == x);
                        }
                        if x == k {
                            assert(s[s.len() - 1].0@ == x);
                        }
                    }
                    assert forall|x: Seq<char>| #[trigger] entries_model(s).contains_key(x) && x != k
                        implies entries_model(s)[x] == entries_model(old_entries)[x] by {
                        let a = key_index(s, x);
                        lemma_entry(s, a);
                        lemma_entry(old_entries, a);
                    }
                    lemma_entry(s, s.len() - 1);
                    assert(entries_model(s) =~= entries_model(old_entries).insert(k, vm));
                }
                self.entries = entries;
            },
        }
    }

    /// Takes the value named `key` out of the table.
    pub fn take(&mut self, key: &String) -> (r: Option<T>)
        ensures
            r is Some <==> old(self).model().contains_key(key@),
            r matches Some(v) ==> v.modeled() == old(self).model()[key@],
            final(self).model() == old(self).model().remove(key@),
    {
        proof {
            use_type_invariant(&*self);
        }
        let ghost old_entries = self.entries@;
        let ghost k = key@;
        match self.find(key) {
            Some(i) => {
                proof {
                    lemma_entry(old_entries, i as int);
                }
                let mut entries: Vec<(String, T)> = Vec::new();
                std::mem::swap(&mut entries, &mut self.entries);
                let (_, v) = entries.remove(i);
                proof {
                    let s = entries@;
                    assert(forall|a: int| 0 <= a < s.len() ==> #[trigger] s[a] == old_entries[if a < i { a } else { a + 1 }]);
                    assert(distinct_keys(s)) by {
                        assert forall|a: int, b: int|
                            0 <= a < s.len() && 0 <= b < s.len() && a != b implies (#[trigger] s[a]).0@
                            != (#[trigger] s[b]).0@ by {
                            let a2 = if a < i { a } else { a + 1 };
                            let b2 = if b < i { b } else { b + 1 };
                            assert(old_entries[a2].0@ != old_entries[b2].0@);
                        }
                    }
                    assert forall|x: Seq<char>| has_key(s, x) == (has_key(old_entries, x) && x != k) by {
                        if has_key(s, x) {
                            let a = choose|a: int| 0 <= a < s.len() && (#[trigger] s[a]).0@ == x;
                            let a2 = if a < i { a } else { a + 1 };
                            assert(old_entries[a2].0@ == x);
                        }
                        if has_key(old_entries, x) && x != k {
                            let a = choose|a: int| 0 <= a < old_entries.len() && (#[trigger] old_entries[a]).0@ == x;
                            assert(a != i);
                            let a1 = if a < i { a } else { a - 1 };
                            assert(s[a1].0@ == x);
                        }
                    }
                    assert forall|x: Seq<char>| #[trigger] entries_model(s).contains_key(x)
                        implies entries_model(s)[x] == entries_model(old_entries)[x] by {
                        let a = key_index(s, x);
                        lemma_entry(s, a);
                        let a2 = if a < i { a } else { a + 1 };
                        lemma_entry(old_entries, a2);
                    }
                    assert(entries_model(s) =~= entries_model(old_entries).remove(k));
                }
                self.entries = entries;
                Some(v)
            },
            None => {
                assert(entries_model(old_entries) =~= entries_model(old_entries).remove(k));
                None
            },
        }
    }

    /// A copy of the table.
    pub fn duplicate(&self) -> (r: Table<T>)
        ensures
            r.model() == self.model(),
    {
        proof {
            use_type_invariant(self);
        }
        let mut entries: Vec<(String, T)> = Vec::new();
        let mut i: usize = 0;
        while i < self.entries.len()
            invariant
                i <= self.entries@.len(),
                entries@.len() == i,
                distinct_keys(self.entries@),
                forall|j: int| 0 <= j < i ==> (#[trigger] entries@[j]).0@ == self.entries@[j].0@
                    && entries@[j].1.modeled() == self.entries@[j].1.modeled(),
            decreases self.entries@.len() - i,
        {
            let k = self.entries[i].0.clone();
            let v = self.entries[i].1.duplicate_item();
            entries.push((k, v));
            i += 1;
        }
        proof {
            let s = entries@;
            let o = self.entries@;
            assert(distinct_keys(s)) by {
                assert forall|a: int, b: int|
                    0 <= a < s.len() && 0 <= b < s.len() && a != b implies (#[trigger] s[a]).0@
                    != (#[trigger] s[b]).0@ by {
                    assert(o[a].0@ != o[b].0@);
                }
            }
            assert forall|x: Seq<char>| has_key(s, x) == has_key(o, x) by {
                if has_key(s, x) {
                    let a = choose|a: int| 0 <= a < s.len() && (#[trigger] s[a]).0@ == x;
                    assert(o[a].0@ == x);
                }
                if has_key(o, x) {
                    let a = choose|a: int| 0 <= a < o.len() && (#[trigger] o[a]).0@ == x;
                    assert(s[a].0@ == x);
                }
            }
            assert forall|x: Seq<char>| #[trigger] entries_model(s).contains_key(x)
                implies entries_model(s)[x] == entries_model(o)[x] by {
                let a = key_index(s, x);
                lemma_entry(s, a);
                lemma_entry(o, a);
            }
            assert(entries_model(s) =~= entries_model(o));
        }
        Table { entries }
    }
}

} // verus!
