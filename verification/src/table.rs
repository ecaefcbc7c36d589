//! A small map from strings to counters.

use vstd::prelude::*;

use crate::text::str_eq;

verus! {

/// The map that a list of (key, value) entries stands for: a later entry for
/// a key replaces an earlier one.
pub open spec fn table_map<V>(s: Seq<(String, V)>) -> Map<Seq<char>, V>
    decreases s.len(),
{
    if s.len() == 0 {
        Map::empty()
    } else {
        table_map(s.drop_last()).insert(s.last().0@, s.last().1)
    }
}

pub open spec fn distinct_keys<V>(s: Seq<(String, V)>) -> bool {
    forall|i: int, j: int| 0 <= i < j < s.len() ==> s[i].0@ != s[j].0@
}

pub proof fn lemma_table_map<V>(s: Seq<(String, V)>)
    requires
        distinct_keys(s),
    ensures
        forall|k: Seq<char>|
            #![trigger table_map(s).contains_key(k)]
            table_map(s).contains_key(k) <==> exists|i: int| 0 <= i < s.len() && s[i].0@ == k,
        forall|i: int| 0 <= i < s.len() ==> #[trigger] table_map(s)[s[i].0@] == s[i].1,
        table_map(s).dom().finite(),
        table_map(s).dom().len() == s.len(),
    decreases s.len(),
{
    if s.len() > 0 {
        let p = s.drop_last();
        assert(distinct_keys(p));
        lemma_table_map(p);
        assert forall|k: Seq<char>| table_map(s).contains_key(k) implies exists|i: int|
            0 <= i < s.len() && s[i].0@ == k by {
            if k != s.last().0@ {
                let i = choose|i: int| 0 <= i < p.len() && p[i].0@ == k;
                assert(s[i].0@ == k);
            } else {
                assert(s[s.len() - 1].0@ == k);
            }
        }
        assert forall|k: Seq<char>| (exists|i: int| 0 <= i < s.len() && s[i].0@ == k) implies table_map(
            s,
        ).contains_key(k) by {
            let i = choose|i: int| 0 <= i < s.len() && s[i].0@ == k;
            if i < s.len() - 1 {
                assert(p[i].0@ == k);
            }
        }
        assert forall|i: int| 0 <= i < s.len() implies #[trigger] table_map(s)[s[i].0@] == s[i].1 by {
            if i < s.len() - 1 {
                assert(p[i] == s[i]);
                assert(s[i].0@ != s.last().0@);
            }
        }
        assert(!table_map(p).contains_key(s.last().0@)) by {
            if table_map(p).contains_key(s.last().0@) {
                let i = choose|i: int| 0 <= i < p.len() && p[i].0@ == s.last().0@;
                assert(s[i].0@ == s[s.len() - 1].0@);
            }
        }
    }
}

/// Replacing the value of an entry updates the map at that key.
pub proof fn lemma_table_map_set<V>(s: Seq<(String, V)>, i: int, e: (String, V))
    requires
        distinct_keys(s),
        0 <= i < s.len(),
        s[i].0@ == e.0@,
    ensures
        distinct_keys(s.update(i, e)),
        table_map(s.update(i, e)) == table_map(s).insert(e.0@, e.1),
{
    let t = s.update(i, e);
    let k = e.0@;
    assert(distinct_keys(t)) by {
        assert forall|a: int, b: int| 0 <= a < b < t.len() implies t[a].0@ != t[b].0@ by {
            assert(s[a].0@ != s[b].0@);
        }
    }
    lemma_table_map(s);
    lemma_table_map(t);
    assert(table_map(t) =~= table_map(s).insert(k, e.1)) by {
        assert forall|x: Seq<char>| #[trigger]
            table_map(t).contains_key(x) == table_map(s).insert(k, e.1).contains_key(x) by {
            assert(t[i].0@ == k);
            if table_map(t).contains_key(x) {
                let j = choose|j: int| 0 <= j < t.len() && t[j].0@ == x;
                if j != i {
                    assert(s[j].0@ == x);
                }
            }
            if x != k && table_map(s).contains_key(x) {
                let j = choose|j: int| 0 <= j < s.len() && s[j].0@ == x;
                assert(t[j].0@ == x);
            }
        }
        assert forall|x: Seq<char>| #[trigger]
            table_map(t).contains_key(x) implies table_map(t)[x] == table_map(s).insert(k, e.1)[x] by {
            let j = choose|j: int| 0 <= j < t.len() && t[j].0@ == x;
            if j != i {
                assert(s[j] == t[j]);
                assert(table_map(s)[s[j].0@] == s[j].1);
            }
        }
    }
}

/// Inserting an entry with a new key anywhere adds that key to the map.
pub proof fn lemma_table_map_insert<V>(s: Seq<(String, V)>, i: int, e: (String, V))
    requires
        distinct_keys(s),
        0 <= i <= s.len(),
        forall|j: int| 0 <= j < s.len() ==> s[j].0@ != e.0@,
    ensures
        distinct_keys(s.insert(i, e)),
        table_map(s.insert(i, e)) == table_map(s).insert(e.0@, e.1),
{
    let t = s.insert(i, e);
    let k = e.0@;
    assert(distinct_keys(t)) by {
        assert forall|a: int, b: int| 0 <= a < b < t.len() implies t[a].0@ != t[b].0@ by {
            if a < i && b < i {
                assert(s[a].0@ != s[b].0@);
            } else if a < i && b > i {
                assert(s[a].0@ != s[b - 1].0@);
            } else if a > i {
                assert(s[a - 1].0@ != s[b - 1].0@);
            }
        }
    }
    lemma_table_map(s);
    lemma_table_map(t);
    assert(table_map(t) =~= table_map(s).insert(k, e.1)) by {
        assert forall|x: Seq<char>| #[trigger]
            table_map(t).contains_key(x) == table_map(s).insert(k, e.1).contains_key(x) by {
            assert(t[i].0@ == k);
            if table_map(t).contains_key(x) && x != k {
                let j = choose|j: int| 0 <= j < t.len() && t[j].0@ == x;
                if j < i {
                    assert(s[j].0@ == x);
                } else {
                    assert(s[j - 1].0@ == x);
                }
            }
            if x != k && table_map(s).contains_key(x) {
                let j = choose|j: int| 0 <= j < s.len() && s[j].0@ == x;
                if j < i {
                    assert(t[j].0@ == x);
                } else {
                    assert(t[j + 1].0@ == x);
                }
            }
        }
        assert forall|x: Seq<char>| #[trigger]
            table_map(t).contains_key(x) implies table_map(t)[x] == table_map(s).insert(k, e.1)[x] by {
            let j = choose|j: int| 0 <= j < t.len() && t[j].0@ == x;
            if j < i {
                assert(s[j] == t[j]);
                assert(table_map(s)[s[j].0@] == s[j].1);
            } else if j > i {
                assert(s[j - 1] == t[j]);
                assert(table_map(s)[s[j - 1].0@] == s[j - 1].1);
            }
        }
    }
}

/// A map from strings to counters. Lookups go through the entries in turn.
pub struct StrTable {
    entries: Vec<(String, u64)>,
}

impl View for StrTable {
    type V = Map<Seq<char>, u64>;

    closed spec fn view(&self) -> Map<Seq<char>, u64> {
        table_map(self.entries@)
    }
}

impl StrTable {
    #[verifier::type_invariant]
    closed spec fn keys_are_distinct(self) -> bool {
        distinct_keys(self.entries@)
    }

    /// An empty table.
    pub fn new() -> (t: StrTable)
        ensures
            t@ == Map::<Seq<char>, u64>::empty(),
    {
        StrTable { entries: Vec::new() }
    }

    fn find(&self, key: &str) -> (r: Option<usize>)
        ensures
            match r {
                Some(i) => i < self.entries@.len() && self.entries@[i as int].0@ == key@,
                None => forall|i: int|
                    0 <= i < self.entries@.len() ==> self.entries@[i].0@ != key@,
            },
    {
        let mut i: usize = 0;
        while i < self.entries.len()
            invariant
                i <= self.entries@.len(),
                forall|j: int| 0 <= j < i ==> self.entries@[j].0@ != key@,
            decreases self.entries@.len() - i,
        {
            if str_eq(self.entries[i].0.as_str(), key) {
                return Some(i);
            }
            i = i + 1;
        }
        None
    }

    /// The value stored for `key`, if any.
    pub fn get(&self, key: &str) -> (r: Option<u64>)
        ensures
            r == (if self@.contains_key(key@) {
                Some(self@[key@])
            } else {
                None::<u64>
            }),
    {
        proof {
            use_type_invariant(self);
            lemma_table_map(self.entries@);
        }
        match self.find(key) {
            Some(i) => Some(self.entries[i].1),
            None => None,
        }
    }

    /// Whether `key` has a value.
    pub fn contains_key(&self, key: &str) -> (r: bool)
        ensures
            r == self@.contains_key(key@),
    {
        proof {
            use_type_invariant(self);
            lemma_table_map(self.entries@);
        }
        self.find(key).is_some()
    }

    /// Stores `value` for `key`, replacing any earlier value.
    pub fn insert(&mut self, key: String, value: u64)
        ensures
            final(self)@ == old(self)@.insert(key@, value),
    {
        proof {
            use_type_invariant(&*self);
            lemma_table_map(self.entries@);
        }
        let ghost old_entries = self.entries@;
        let found = self.find(key.as_str());
        let mut entries: Vec<(String, u64)> = Vec::new();
        std::mem::swap(&mut entries, &mut self.entries);
        match found {
            Some(i) => {
                proof {
                    lemma_table_map_set(old_entries, i as int, (key, value));
                }
                entries.set(i, (key, value));
            },
            None => {
                proof {
                    lemma_table_map_insert(old_entries, old_entries.len() as int, (key, value));
                    assert(old_entries.insert(old_entries.len() as int, (key, value)) =~= old_entries.push((key, value)));
                }
                entries.push((key, value));
            },
        }
        self.entries = entries;
    }

    /// The number of keys.
    pub fn len(&self) -> (n: usize)
        ensures
            n == self@.dom().len(),
    {
        proof {
            use_type_invariant(self);
            lemma_table_map(self.entries@);
        }
        self.entries.len()
    }

    /// Whether the table has no key.
    pub fn is_empty(&self) -> (b: bool)
        ensures
            b == (self@.dom().len() == 0),
    {
        proof {
            use_type_invariant(self);
            lemma_table_map(self.entries@);
        }
        self.entries.len() == 0
    }

    /// Removes every key.
    pub fn clear(&mut self)
        ensures
            final(self)@ == Map::<Seq<char>, u64>::empty(),
    {
        self.entries = Vec::new();
    }

    /// The (key, value) pairs, each key once.
    pub fn entries(&self) -> (r: Vec<(String, u64)>)
        ensures
            r@.len() == self@.dom().len(),
            distinct_keys(r@),
            forall|i: int|
                0 <= i < r@.len() ==> self@.contains_key(#[trigger] r@[i].0@) && self@[r@[i].0@]
                    == r@[i].1,
            table_map(r@) == self@,
    {
        proof {
            use_type_invariant(self);
            lemma_table_map(self.entries@);
        }
        let mut r: Vec<(String, u64)> = Vec::new();
        let mut i: usize = 0;
        while i < self.entries.len()
            invariant
                i <= self.entries@.len(),
                r@.len() == i,
                forall|j: int| 0 <= j < i ==> r@[j].0@ == self.entries@[j].0@ && r@[j].1
                    == self.entries@[j].1,
            decreases self.entries@.len() - i,
        {
            let k = self.entries[i].0.clone();
            r.push((k, self.entries[i].1));
            i = i + 1;
        }
        proof {
            assert(distinct_keys(r@));
            lemma_table_map(r@);
            assert forall|j: int| 0 <= j < r@.len() implies self@.contains_key(#[trigger] r@[j].0@)
                && self@[r@[j].0@] == r@[j].1 by {
                assert(table_map(self.entries@)[self.entries@[j].0@] == self.entries@[j].1);
            }
            assert(table_map(r@) =~= self@) by {
                assert forall|x: Seq<char>| #[trigger]
                    table_map(r@).contains_key(x) == self@.contains_key(x) by {
                    if self@.contains_key(x) {
                        let j = choose|j: int|
                            0 <= j < self.entries@.len() && self.entries@[j].0@ == x;
                        assert(r@[j].0@ == x);
                    }
                }
                assert forall|x: Seq<char>| #[trigger]
                    table_map(r@).contains_key(x) implies table_map(r@)[x] == self@[x] by {
                    let j = choose|j: int| 0 <= j < r@.len() && r@[j].0@ == x;
                    assert(table_map(r@)[r@[j].0@] == r@[j].1);
                }
            }
        }
        r
    }

    /// A table with the same keys and values.
    pub fn copy(&self) -> (t: StrTable)
        ensures
            t@ == self@,
    {
        StrTable { entries: self.entries() }
    }
}

} // verus!
