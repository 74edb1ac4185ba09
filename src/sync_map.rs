//! A map from string keys to values, kept as a vector of distinct keys.
use vstd::prelude::*;

verus! {

/// The value stored under `k`: that of the last entry with the key.
pub open spec fn last_get<T>(s: Seq<(String, T)>, k: Seq<char>) -> Option<T>
    decreases s.len(),
{
    if s.len() == 0 {
        None
    } else if s.last().0@ == k {
        Some(s.last().1)
    } else {
        last_get(s.drop_last(), k)
    }
}

pub open spec fn distinct_keys<T>(s: Seq<(String, T)>) -> bool {
    forall|i: int, j: int| 0 <= i < j < s.len() ==> s[i].0@ != s[j].0@
}

proof fn lemma_get_at<T>(s: Seq<(String, T)>, i: int)
    requires
        distinct_keys(s),
        0 <= i < s.len(),
    ensures
        last_get(s, s[i].0@) == Some(s[i].1),
    decreases s.len(),
{
    if i < s.len() - 1 {
        assert(s.drop_last()[i] == s[i]);
        lemma_get_at(s.drop_last(), i);
    }
}

proof fn lemma_absent<T>(s: Seq<(String, T)>, k: Seq<char>)
    requires
        forall|i: int| 0 <= i < s.len() ==> s[i].0@ != k,
    ensures
        last_get(s, k) is None,
    decreases s.len(),
{
    if s.len() > 0 {
        lemma_absent(s.drop_last(), k);
    }
}

proof fn lemma_update<T>(s: Seq<(String, T)>, i: int, e: (String, T), k: Seq<char>)
    requires
        distinct_keys(s),
        0 <= i < s.len(),
        e.0@ == s[i].0@,
    ensures
        last_get(s.update(i, e), k) == if k == e.0@ {
            Some(e.1)
        } else {
            last_get(s, k)
        },
    decreases s.len(),
{
    let u = s.update(i, e);
    if i == s.len() - 1 {
        assert(u.drop_last() =~= s.drop_last());
    } else {
        assert(u.drop_last() =~= s.drop_last().update(i, e));
        lemma_update(s.drop_last(), i, e, k);
    }
}

proof fn lemma_remove<T>(s: Seq<(String, T)>, i: int, k: Seq<char>)
    requires
        distinct_keys(s),
        0 <= i < s.len(),
    ensures
        last_get(s.remove(i), k) == if k == s[i].0@ {
            None
        } else {
            last_get(s, k)
        },
    decreases s.len(),
{
    let r = s.remove(i);
    if i == s.len() - 1 {
        assert(r =~= s.drop_last());
        if k == s[i].0@ {
            assert forall|j: int| 0 <= j < r.len() implies r[j].0@ != k by {
                assert(r[j] == s[j]);
            }
            lemma_absent(r, k);
        }
    } else {
        assert(r.drop_last() =~= s.drop_last().remove(i));
        assert(r.last() == s.last());
        lemma_remove(s.drop_last(), i, k);
    }
}

/// A map from string keys to values.
pub struct SyncMap<T> {
    entries: Vec<(String, T)>,
}

impl<T> SyncMap<T> {
    pub closed spec fn wf(&self) -> bool {
        distinct_keys(self.entries@)
    }

    /// The value stored under `k`.
    pub closed spec fn lookup(&self, k: Seq<char>) -> Option<T> {
        last_get(self.entries@, k)
    }

    pub fn new() -> (r: SyncMap<T>)
        ensures
            r.wf(),
            forall|k: Seq<char>| #[trigger] r.lookup(k) is None,
    {
        SyncMap { entries: Vec::new() }
    }

    /// The position of the entry with key `key`.
    fn position(&self, key: &str) -> (r: Option<usize>)
        requires
            self.wf(),
        ensures
            match r {
                Some(i) => i < self.entries@.len() && self.entries@[i as int].0@ == key@,
                None => forall|i: int| 0 <= i < self.entries@.len() ==> self.entries@[i].0@ != key@,
            },
    {
        let k = String::from_str(key);
        let mut i: usize = 0;
        while i < self.entries.len()
            invariant
                k@ == key@,
                i <= self.entries@.len(),
                forall|j: int| 0 <= j < i ==> self.entries@[j].0@ != key@,
            decreases self.entries.len() - i,
        {
            let e: &(String, T) = &self.entries[i];
            if e.0 == k {
                return Some(i);
            }
            i = i + 1;
        }
        None
    }

    /// Stores `value` under `key`, replacing what was there.
    pub fn put(&mut self, key: &str, value: T)
        requires
            old(self).wf(),
        ensures
            final(self).wf(),
            final(self).lookup(key@) == Some(value),
            forall|k: Seq<char>| k != key@ ==> #[trigger] final(self).lookup(k) == old(self).lookup(k),
    {
        let k = String::from_str(key);
        match self.position(key) {
            Some(i) => {
                let ghost s = self.entries@;
                self.entries.set(i, (k, value));
                proof {
                    assert forall|q: Seq<char>| #[trigger] last_get(self.entries@, q) == (if q == key@ {
                        Some(value)
                    } else {
                        last_get(s, q)
                    }) by {
                        lemma_update(s, i as int, (k, value), q);
                    }
                    assert forall|a: int, b: int| 0 <= a < b < self.entries@.len() implies self.entries@[a].0@
                        != self.entries@[b].0@ by {
                        if a != i && b != i {
                            assert(s[a].0@ != s[b].0@);
                        }
                    }
                }
            },
            None => {
                let ghost s = self.entries@;
                self.entries.push((k, value));
                assert(self.entries@.drop_last() =~= s);
            },
        }
    }

    /// Removes and returns the value stored under `key`.
    pub fn pop(&mut self, key: &str) -> (r: Option<T>)
        requires
            old(self).wf(),
        ensures
            final(self).wf(),
            r == old(self).lookup(key@),
            final(self).lookup(key@) is None,
            forall|k: Seq<char>| k != key@ ==> #[trigger] final(self).lookup(k) == old(self).lookup(k),
    {
        match self.position(key) {
            Some(i) => {
                let ghost s = self.entries@;
                proof {
                    lemma_get_at(s, i as int);
                }
                let (_, v) = self.entries.remove(i);
                proof {
                    assert forall|q: Seq<char>| #[trigger] last_get(self.entries@, q) == (if q == key@ {
                        None
                    } else {
                        last_get(s, q)
                    }) by {
                        lemma_remove(s, i as int, q);
                    }
                    assert forall|a: int, b: int| 0 <= a < b < self.entries@.len() implies self.entries@[a].0@
                        != self.entries@[b].0@ by {
                        let a2 = if a < i { a } else { a + 1 };
                        let b2 = if b < i { b } else { b + 1 };
                        assert(self.entries@[a] == s[a2]);
                        assert(self.entries@[b] == s[b2]);
                    }
                }
                Some(v)
            },
            None => {
                proof {
                    lemma_absent(self.entries@, key@);
                }
                None
            },
        }
    }

    /// The value stored under `key`, by reference.
    pub fn get(&self, key: &str) -> (r: Option<&T>)
        requires
            self.wf(),
        ensures
            match self.lookup(key@) {
                Some(v) => r matches Some(x) && *x == v,
                None => r is None,
            },
    {
        match self.position(key) {
            Some(i) => {
                proof {
                    lemma_get_at(self.entries@, i as int);
                }
                Some(&self.entries[i].1)
            },
            None => {
                proof {
                    lemma_absent(self.entries@, key@);
                }
                None
            },
        }
    }
}

} // verus!
