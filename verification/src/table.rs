//! A table of values by text key.
use vstd::prelude::*;

use crate::text::same_text;

verus! {

/// The keys of `entries` are pairwise different.
pub open spec fn keys_differ<V>(entries: Seq<(String, V)>) -> bool {
    forall|i: int, j: int|
        0 <= i < j < entries.len() ==> (#[trigger] entries[i]).0@ != (#[trigger] entries[j]).0@
}

/// Entry `i` of `entries` has the key `key`.
pub open spec fn has_key_at<V>(entries: Seq<(String, V)>, key: Seq<char>, i: int) -> bool {
    0 <= i < entries.len() && entries[i].0@ == key
}

/// The map that `entries` lists.
pub open spec fn listed<V>(entries: Seq<(String, V)>) -> Map<Seq<char>, V> {
    Map::new(
        |key: Seq<char>| exists|i: int| has_key_at(entries, key, i),
        |key: Seq<char>| entries[choose|i: int| has_key_at(entries, key, i)].1,
    )
}

/// Values by text key; each key has at most one value.
#[derive(Debug)]
pub struct Table<V> {
    entries: Vec<(String, V)>,
}

impl<V> View for Table<V> {
    type V = Map<Seq<char>, V>;

    closed spec fn view(&self) -> Map<Seq<char>, V> {
        listed(self.entries@)
    }
}

proof fn lemma_listed<V>(entries: Seq<(String, V)>, i: int)
    requires
        keys_differ(entries),
        0 <= i < entries.len(),
    ensures
        listed(entries).contains_key(entries[i].0@),
        listed(entries)[entries[i].0@] == entries[i].1,
{
    let key = entries[i].0@;
    assert(has_key_at(entries, key, i));
    let j = choose|j: int| has_key_at(entries, key, j);
    if i < j {
        assert(entries[i].0@ != entries[j].0@);
    }
    if j < i {
        assert(entries[j].0@ != entries[i].0@);
    }
}

/// A map is what `entries` lists once it has every entry and no other key.
proof fn lemma_listed_is<V>(entries: Seq<(String, V)>, m: Map<Seq<char>, V>)
    requires
        keys_differ(entries),
        forall|i: int|
            0 <= i < entries.len() ==> m.contains_key((#[trigger] entries[i]).0@)
                && m[entries[i].0@] == entries[i].1,
        forall|key: Seq<char>| #[trigger]
            m.contains_key(key) ==> exists|i: int| has_key_at(entries, key, i),
    ensures
        listed(entries) == m,
{
    let l = listed(entries);
    assert forall|key: Seq<char>| l.contains_key(key) == m.contains_key(key) by {
        if l.contains_key(key) {
            let i = choose|i: int| has_key_at(entries, key, i);
            assert(m.contains_key(entries[i].0@));
        }
    }
    assert forall|key: Seq<char>| l.contains_key(key) implies l[key] == m[key] by {
        let i = choose|i: int| has_key_at(entries, key, i);
        assert(m.contains_key(entries[i].0@));
    }
    assert(l =~= m);
}

impl<V> Table<V> {
    #[verifier::type_invariant]
    spec fn wf(self) -> bool {
        keys_differ(self.entries@)
    }

    /// A table without entries.
    pub fn new() -> (r: Self)
        ensures
            r@ == Map::<Seq<char>, V>::empty(),
    {
        let r = Table { entries: Vec::new() };
        assert(r@ =~= Map::<Seq<char>, V>::empty());
        r
    }

    /// The entries, in no particular order.
    pub fn entries(&self) -> (r: &Vec<(String, V)>)
        ensures
            keys_differ(r@),
            listed(r@) == self@,
            forall|i: int|
                0 <= i < r@.len() ==> self@.contains_key((#[trigger] r@[i]).0@)
                    && self@[r@[i].0@] == r@[i].1,
            forall|key: Seq<char>| #[trigger]
                self@.contains_key(key) ==> exists|i: int|
                    0 <= i < r@.len() && (#[trigger] r@[i]).0@ == key,
            forall|i: int, j: int|
                0 <= i < j < r@.len() ==> (#[trigger] r@[i]).0@ != (#[trigger] r@[j]).0@,
    {
        proof {
            use_type_invariant(self);
            assert forall|i: int| 0 <= i < self.entries@.len() implies self@.contains_key(
                (#[trigger] self.entries@[i]).0@,
            ) && self@[self.entries@[i].0@] == self.entries@[i].1 by {
                lemma_listed(self.entries@, i);
            }
            assert forall|key: Seq<char>| #[trigger] self@.contains_key(key) implies exists|i: int|
                0 <= i < self.entries@.len() && (#[trigger] self.entries@[i]).0@ == key by {
                let i = choose|i: int| has_key_at(self.entries@, key, i);
                assert(self.entries@[i].0@ == key);
            }
        }
        &self.entries
    }

    fn position(&self, key: &str) -> (r: Option<usize>)
        ensures
            match r {
                Some(i) => has_key_at(self.entries@, key@, i as int),
                None => forall|i: int| !has_key_at(self.entries@, key@, i),
            },
    {
        let n: usize = self.entries.len();
        let mut i: usize = 0;
        while i < n
            invariant
                n == self.entries@.len(),
                i <= n,
                forall|k: int| 0 <= k < i ==> self.entries@[k].0@ != key@,
            decreases n - i,
        {
            if same_text(self.entries[i].0.as_str(), key) {
                return Some(i);
            }
            i = i + 1;
        }
        None
    }

    /// The value of `key`, if it has one.
    pub fn get(&self, key: &str) -> (r: Option<&V>)
        ensures
            match r {
                Some(v) => self@.contains_key(key@) && *v == self@[key@],
                None => !self@.contains_key(key@),
            },
    {
        proof {
            use_type_invariant(self);
        }
        match self.position(key) {
            Some(i) => {
                proof {
                    lemma_listed(self.entries@, i as int);
                }
                Some(&self.entries[i].1)
            },
            None => None,
        }
    }

    /// Gives `key` the value `value`, in place of the one it had.
    pub fn insert(&mut self, key: String, value: V)
        ensures
            final(self)@ == old(self)@.insert(key@, value),
    {
        proof {
            use_type_invariant(&*self);
        }
        let at = self.position(key.as_str());
        let mut entries: Vec<(String, V)> = Vec::new();
        let ghost before = self.entries@;
        std::mem::swap(&mut entries, &mut self.entries);
        proof {
            assert forall|i: int| 0 <= i < before.len() implies listed(before).contains_key(
                (#[trigger] before[i]).0@,
            ) && listed(before)[before[i].0@] == before[i].1 by {
                lemma_listed(before, i);
            }
        }
        let ghost m = listed(before).insert(key@, value);
        match at {
            Some(i) => {
                let ghost entry = (key, value);
                entries.set(i, (key, value));
                proof {
                    let after = entries@;
                    assert forall|k: Seq<char>| #[trigger] m.contains_key(k) implies exists|j: int|
                        has_key_at(after, k, j) by {
                        if k == entry.0@ {
                            assert(has_key_at(after, k, i as int));
                        } else {
                            let j = choose|j: int| has_key_at(before, k, j);
                            assert(has_key_at(after, k, j));
                        }
                    }
                    assert forall|j: int| 0 <= j < after.len() implies m.contains_key(
                        (#[trigger] after[j]).0@,
                    ) && m[after[j].0@] == after[j].1 by {
                        if j != i {
                            assert(before[j].0@ != before[i as int].0@);
                        }
                    }
                    lemma_listed_is(after, m);
                }
            },
            None => {
                let ghost entry = (key, value);
                entries.push((key, value));
                proof {
                    let after = entries@;
                    let n = before.len() as int;
                    assert forall|i: int, j: int| 0 <= i < j < after.len() implies (
                    #[trigger] after[i]).0@ != (#[trigger] after[j]).0@ by {
                        assert(!has_key_at(before, entry.0@, i));
                    }
                    assert forall|k: Seq<char>| #[trigger] m.contains_key(k) implies exists|j: int|
                        has_key_at(after, k, j) by {
                        if k == entry.0@ {
                            assert(has_key_at(after, k, n));
                        } else {
                            let j = choose|j: int| has_key_at(before, k, j);
                            assert(has_key_at(after, k, j));
                        }
                    }
                    assert forall|j: int| 0 <= j < after.len() implies m.contains_key(
                        (#[trigger] after[j]).0@,
                    ) && m[after[j].0@] == after[j].1 by {
                        if j != n {
                            assert(before[j] == after[j]);
                            assert(!has_key_at(before, entry.0@, j));
                        }
                    }
                    lemma_listed_is(after, m);
                }
            },
        }
        self.entries = entries;
    }

    /// Takes `key` and its value out, if it is there.
    pub fn remove(&mut self, key: &str)
        ensures
            final(self)@ == old(self)@.remove(key@),
    {
        proof {
            use_type_invariant(&*self);
        }
        let at = self.position(key);
        let mut entries: Vec<(String, V)> = Vec::new();
        let ghost before = self.entries@;
        std::mem::swap(&mut entries, &mut self.entries);
        let ghost m = listed(before).remove(key@);
        if let Some(i) = at {
            let _ = entries.remove(i);
            proof {
                let after = entries@;
                let p = i as int;
                assert forall|j: int| 0 <= j < after.len() implies m.contains_key(
                    (#[trigger] after[j]).0@,
                ) && m[after[j].0@] == after[j].1 by {
                    let b = if j < p {
                        j
                    } else {
                        j + 1
                    };
                    assert(after[j] == before[b]);
                    lemma_listed(before, b);
                    assert(before[b].0@ != before[p].0@);
                }
                assert forall|k: Seq<char>| #[trigger] m.contains_key(k) implies exists|j: int|
                    has_key_at(after, k, j) by {
                    let b = choose|b: int| has_key_at(before, k, b);
                    assert(b != p);
                    let j = if b < p {
                        b
                    } else {
                        b - 1
                    };
                    assert(after[j] == before[b]);
                    assert(has_key_at(after, k, j));
                }
                lemma_listed_is(after, m);
            }
        } else {
            assert(m =~= listed(before));
        }
        self.entries = entries;
    }
}

impl<V: Clone> Clone for Table<V> {
    fn clone(&self) -> (r: Self)
        ensures
            r@.dom() == self@.dom(),
            forall|key: Seq<char>| #[trigger]
                r@.contains_key(key) ==> cloned::<V>(self@[key], r@[key]),
    {
        proof {
            use_type_invariant(self);
        }
        let n: usize = self.entries.len();
        let ghost from = self.entries@;
        let mut entries: Vec<(String, V)> = Vec::new();
        let mut i: usize = 0;
        while i < n
            invariant
                from == self.entries@,
                n == from.len(),
                i <= n,
                entries@.len() == i,
                forall|k: int|
                    0 <= k < i ==> (#[trigger] entries@[k]).0@ == from[k].0@ && cloned::<V>(
                        from[k].1,
                        entries@[k].1,
                    ),
            decreases n - i,
        {
            entries.push((self.entries[i].0.clone(), self.entries[i].1.clone()));
            i = i + 1;
        }
        proof {
            let to = entries@;
            assert forall|a: int, b: int| 0 <= a < b < to.len() implies (#[trigger] to[a]).0@ != (
            #[trigger] to[b]).0@ by {
                assert(from[a].0@ != from[b].0@);
            }
            assert forall|key: Seq<char>, k: int| has_key_at(to, key, k) == #[trigger] has_key_at(
                from,
                key,
                k,
            ) by {
                if 0 <= k < n {
                    assert(to[k].0@ == from[k].0@);
                }
            }
            assert forall|key: Seq<char>| listed(to).contains_key(key) == listed(from).contains_key(
                key,
            ) by {
                if listed(to).contains_key(key) {
                    let k = choose|k: int| has_key_at(to, key, k);
                    assert(has_key_at(from, key, k));
                }
                if listed(from).contains_key(key) {
                    let k = choose|k: int| has_key_at(from, key, k);
                    assert(has_key_at(to, key, k));
                }
            }
            assert(listed(to).dom() =~= listed(from).dom());
            assert forall|key: Seq<char>| #[trigger]
                listed(to).contains_key(key) implies cloned::<V>(listed(from)[key], listed(to)[key]) by {
                let k = choose|k: int| has_key_at(to, key, k);
                lemma_listed(to, k);
                lemma_listed(from, k);
            }
        }
        Table { entries }
    }
}

} // verus!
