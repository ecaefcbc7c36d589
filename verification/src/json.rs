//! JSON values, as far as their structure goes.

use vstd::prelude::*;

use crate::text::{compare_str, KeyOrder};

verus! {

/// A JSON value. Numbers keep their text; nothing in this library reads it.
#[derive(Debug)]
pub enum JsonValue {
    Null,
    Bool(bool),
    Number(String),
    String(String),
    Array(Vec<JsonValue>),
    Object(JsonMap),
}

/// The members of a JSON object, each key once, in increasing byte order of
/// the keys.
#[derive(Debug)]
pub struct JsonMap {
    pub(crate) entries: Vec<(String, JsonValue)>,
}

/// Keys strictly increasing in the byte order of their UTF-8 encoding.
pub open spec fn sorted_keys(s: Seq<(String, JsonValue)>) -> bool {
    forall|i: int, j: int| 0 <= i < j < s.len() ==> crate::text::bytes_lt(crate::text::utf8(s[i].0@), crate::text::utf8(s[j].0@))
}

/// Sorted keys are distinct.
pub proof fn lemma_sorted_distinct(s: Seq<(String, JsonValue)>)
    requires
        sorted_keys(s),
    ensures
        crate::table::distinct_keys(s),
{
    assert forall|i: int, j: int| 0 <= i < j < s.len() implies s[i].0@ != s[j].0@ by {
        if s[i].0@ == s[j].0@ {
            crate::text::lemma_bytes_lt_irreflexive(crate::text::utf8(s[i].0@));
        }
    }
}

impl JsonMap {
    #[verifier::type_invariant]
    closed spec fn keys_sorted(self) -> bool {
        sorted_keys(self.entries@)
    }

    /// The members, in order.
    pub closed spec fn members(self) -> Seq<(String, JsonValue)> {
        self.entries@
    }

    /// The map from keys to values.
    pub open spec fn to_map(self) -> Map<Seq<char>, JsonValue> {
        crate::table::table_map(self.members())
    }

    /// The members, in order of their keys.
    pub fn members_vec(&self) -> (r: &Vec<(String, JsonValue)>)
        ensures
            r@ == self.members(),
            sorted_keys(self.members()),
    {
        proof {
            use_type_invariant(self);
        }
        &self.entries
    }

    /// The number of members.
    pub fn len(&self) -> (n: usize)
        ensures
            n == self.members().len(),
    {
        self.entries.len()
    }

    /// Where `key` is, or would go.
    fn position(&self, key: &str) -> (r: (usize, bool))
        ensures
            r.0 <= self.members().len(),
            forall|j: int|
                0 <= j < r.0 ==> crate::text::bytes_lt(
                    crate::text::utf8(#[trigger] self.members()[j].0@),
                    crate::text::utf8(key@),
                ),
            r.1 ==> r.0 < self.members().len() && self.members()[r.0 as int].0@ == key@,
            !r.1 ==> r.0 == self.members().len() || crate::text::bytes_lt(
                crate::text::utf8(key@),
                crate::text::utf8(self.members()[r.0 as int].0@),
            ),
    {
        let n = self.entries.len();
        let mut i: usize = 0;
        while i < n
            invariant
                n == self.entries@.len(),
                i <= n,
                forall|j: int|
                    0 <= j < i ==> crate::text::bytes_lt(
                        crate::text::utf8(#[trigger] self.entries@[j].0@),
                        crate::text::utf8(key@),
                    ),
            decreases n - i,
        {
            match compare_str(self.entries[i].0.as_str(), key) {
                KeyOrder::Less => {
                    i = i + 1;
                },
                KeyOrder::Equal => {
                    return (i, true);
                },
                KeyOrder::Greater => {
                    return (i, false);
                },
            }
        }
        (i, false)
    }

    /// Sets the value for `key`; a key already present gets the new value.
    pub fn insert(&mut self, key: String, value: JsonValue)
        ensures
            final(self).to_map() == old(self).to_map().insert(key@, value),
    {
        proof {
            use_type_invariant(&*self);
        }
        let ghost s = self.entries@;
        let ghost k = key@;
        let (i, found) = self.position(key.as_str());
        let mut entries: Vec<(String, JsonValue)> = Vec::new();
        std::mem::swap(&mut entries, &mut self.entries);
        proof {
            lemma_sorted_distinct(s);
        }
        if found {
            proof {
                crate::table::lemma_table_map_set(s, i as int, (key, value));
                let t = s.update(i as int, (key, value));
                assert forall|a: int, b: int| 0 <= a < b < t.len() implies crate::text::bytes_lt(
                    crate::text::utf8(t[a].0@),
                    crate::text::utf8(t[b].0@),
                ) by {
                    assert(crate::text::bytes_lt(crate::text::utf8(s[a].0@), crate::text::utf8(s[b].0@)));
                }
            }
            entries.set(i, (key, value));
        } else {
            proof {
                assert forall|j: int| 0 <= j < s.len() implies s[j].0@ != k by {
                    if j < i {
                        crate::text::lemma_bytes_lt_total(crate::text::utf8(s[j].0@), crate::text::utf8(k));
                    } else {
                        if j > i {
                            assert(crate::text::bytes_lt(crate::text::utf8(s[i as int].0@), crate::text::utf8(s[j].0@)));
                            crate::text::lemma_bytes_lt_transitive(
                                crate::text::utf8(k),
                                crate::text::utf8(s[i as int].0@),
                                crate::text::utf8(s[j].0@),
                            );
                        }
                        crate::text::lemma_bytes_lt_irreflexive(crate::text::utf8(k));
                    }
                }
                crate::table::lemma_table_map_insert(s, i as int, (key, value));
                let t = s.insert(i as int, (key, value));
                assert forall|a: int, b: int| 0 <= a < b < t.len() implies crate::text::bytes_lt(
                    crate::text::utf8(t[a].0@),
                    crate::text::utf8(t[b].0@),
                ) by {
                    if b < i {
                        assert(crate::text::bytes_lt(crate::text::utf8(s[a].0@), crate::text::utf8(s[b].0@)));
                    } else if b == i {
                    } else if a < i {
                        assert(crate::text::bytes_lt(crate::text::utf8(s[a].0@), crate::text::utf8(s[b - 1].0@)));
                    } else if a == i {
                        if b - 1 > i {
                            assert(crate::text::bytes_lt(crate::text::utf8(s[i as int].0@), crate::text::utf8(s[b - 1].0@)));
                            crate::text::lemma_bytes_lt_transitive(
                                crate::text::utf8(k),
                                crate::text::utf8(s[i as int].0@),
                                crate::text::utf8(s[b - 1].0@),
                            );
                        }
                    } else {
                        assert(crate::text::bytes_lt(crate::text::utf8(s[a - 1].0@), crate::text::utf8(s[b - 1].0@)));
                    }
                }
            }
            entries.insert(i, (key, value));
        }
        self.entries = entries;
    }

    /// An object with no members.
    pub fn new() -> (m: JsonMap)
        ensures
            m.members() == Seq::<(String, JsonValue)>::empty(),
            m.to_map() == Map::<Seq<char>, JsonValue>::empty(),
    {
        JsonMap { entries: Vec::new() }
    }
}

impl JsonValue {
    /// An object with the given members, in the way a JSON text is read: a
    /// key given twice keeps its last value.
    pub fn object(members: Vec<(String, JsonValue)>) -> (v: JsonValue)
        ensures
            v matches JsonValue::Object(m) && m.to_map() == crate::table::table_map(members@),
    {
        let mut m = JsonMap::new();
        let mut rest = members;
        let ghost all = rest@;
        let n = rest.len();
        let mut i: usize = 0;
        proof {
            assert(all.take(0) =~= Seq::<(String, JsonValue)>::empty());
        }
        while rest.len() > 0
            invariant
                all.len() == n,
                i <= all.len(),
                rest@ == all.skip(i as int),
                m.to_map() == crate::table::table_map(all.take(i as int)),
            decreases rest@.len(),
        {
            assert(i < all.len());
            let (k, v) = rest.remove(0);
            proof {
                assert(all.take(i + 1).drop_last() =~= all.take(i as int));
                assert(all.skip(i as int).drop_first() =~= all.skip(i + 1));
            }
            m.insert(k, v);
            i = i + 1;
        }
        proof {
            assert(all.take(i as int) =~= all);
        }
        JsonValue::Object(m)
    }
}

/// An object's members are smaller than the object, for recursion.
pub proof fn lemma_members_decrease(m: JsonMap)
    ensures
        decreases_to!(JsonValue::Object(m) => m.members()),
{
    let v = JsonValue::Object(m);
    assert(decreases_to!(v => v->Object_0));
    assert(decreases_to!(m => m.entries));
    assert(decreases_to!(m.entries => m.entries@));
}

} // verus!
