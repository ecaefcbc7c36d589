//! The level sums keyed by level, as the hasher keeps them, and how they
//! agree with the walk over a list of levels.

use vstd::prelude::*;

use crate::genome::{
    add_at, add_key, add_key_times, enter_level, index_key, key_bit, length_key, shape_key,
    spec_effective_type_bit, walk, walk_items, walk_members, walk_shapes, GenomeConfig, Trace,
};
use crate::json::JsonValue;

verus! {

/// How deeply a value nests: 0 for a scalar, one more than its deepest
/// child for a container (1 for an empty one).
pub open spec fn nesting(v: JsonValue) -> nat
    decreases v, 0int,
{
    match v {
        JsonValue::Object(m) => {
            proof {
                crate::json::lemma_members_decrease(m);
            }
            1 + nesting_members(m.members(), 0)
        },
        JsonValue::Array(x) => 1 + nesting_items(x@, 0),
        _ => 0,
    }
}

pub open spec fn nesting_members(s: Seq<(String, JsonValue)>, i: int) -> nat
    decreases s, s.len() - i,
{
    if 0 <= i < s.len() {
        let a = nesting(s[i].1);
        let b = nesting_members(s, i + 1);
        if a >= b {
            a
        } else {
            b
        }
    } else {
        0
    }
}

pub open spec fn nesting_items(s: Seq<JsonValue>, i: int) -> nat
    decreases s, s.len() - i,
{
    if 0 <= i < s.len() {
        let a = nesting(s[i]);
        let b = nesting_items(s, i + 1);
        if a >= b {
            a
        } else {
            b
        }
    } else {
        0
    }
}

proof fn lemma_nesting_members_at(s: Seq<(String, JsonValue)>, i: int, k: int)
    requires
        0 <= i <= k < s.len(),
    ensures
        nesting(s[k].1) <= nesting_members(s, i),
        nesting_members(s, k + 1) <= nesting_members(s, i),
    decreases k - i,
{
    if i < k {
        lemma_nesting_members_at(s, i + 1, k);
    }
}

proof fn lemma_nesting_items_at(s: Seq<JsonValue>, i: int, k: int)
    requires
        0 <= i <= k < s.len(),
    ensures
        nesting(s[k]) <= nesting_items(s, i),
        nesting_items(s, k + 1) <= nesting_items(s, i),
    decreases k - i,
{
    if i < k {
        lemma_nesting_items_at(s, i + 1, k);
    }
}

/// Level sums keyed by level, and the key strings whose bits were asked for.
pub type Sums = (Map<usize, u64>, Set<Seq<char>>);

/// The sum that a level starts from: `1 << level`, the shift taken modulo 64.
pub open spec fn level_base(lvl: usize) -> u64 {
    1u64.wrapping_shl(lvl as u32)
}

/// The level below `lvl`; after `usize::MAX` the count wraps to 0.
pub open spec fn next_level(lvl: usize) -> usize {
    if lvl < usize::MAX {
        (lvl + 1) as usize
    } else {
        0
    }
}

/// Starts the sum of level `lvl` where it has none yet.
pub open spec fn start_sum(t: Sums, lvl: usize) -> Sums {
    if t.0.contains_key(lvl) {
        t
    } else {
        (t.0.insert(lvl, level_base(lvl)), t.1)
    }
}

pub open spec fn add_sum(t: Sums, lvl: usize, x: u64) -> Sums {
    (t.0.insert(lvl, t.0[lvl].wrapping_add(x)), t.1)
}

pub open spec fn add_key_sum(t: Sums, lvl: usize, key: Seq<char>) -> Sums {
    (t.0.insert(lvl, t.0[lvl].wrapping_add(key_bit(key))), t.1.insert(key))
}

pub open spec fn add_key_times_sum(t: Sums, lvl: usize, key: Seq<char>, m: u64) -> Sums {
    (t.0.insert(lvl, t.0[lvl].wrapping_add(key_bit(key).wrapping_mul(m))), t.1.insert(key))
}

/// The walk over `v` at level `lvl`, reached along `path`, adding to the
/// sums `t`, whatever levels they hold already.
pub open spec fn walk_sums(v: JsonValue, cfg: GenomeConfig, lvl: usize, path: Seq<Seq<char>>, t: Sums) -> Sums
    decreases v, 0int,
{
    let t1 = add_sum(start_sum(t, lvl), lvl, spec_effective_type_bit(v, cfg.ignore_value_types));
    match v {
        JsonValue::Object(m) => {
            proof {
                crate::json::lemma_members_decrease(m);
            }
            walk_sums_members(m.members(), 0, cfg, lvl, path, add_key_sum(t1, lvl, "type:object"@))
        },
        JsonValue::Array(items) => {
            let t2 = add_key_sum(t1, lvl, "type:array"@);
            if !cfg.ignore_array_length {
                walk_sums_items(items@, 0, cfg, lvl, path, add_key_sum(t2, lvl, length_key(items@.len())))
            } else {
                add_key_sum(
                    walk_sums_shapes(items@, 0, Set::empty(), cfg, lvl, path, t2),
                    lvl,
                    "array:variadic"@,
                )
            }
        },
        _ => t1,
    }
}

pub open spec fn walk_sums_members(
    s: Seq<(String, JsonValue)>,
    i: int,
    cfg: GenomeConfig,
    lvl: usize,
    path: Seq<Seq<char>>,
    t: Sums,
) -> Sums
    decreases s, s.len() - i,
{
    if 0 <= i < s.len() {
        let m = (i + 1) as u64;
        let t1 = add_key_times_sum(t, lvl, s[i].0@, m);
        let t2 = add_sum(t1, lvl, spec_effective_type_bit(s[i].1, cfg.ignore_value_types).wrapping_mul(m));
        walk_sums_members(s, i + 1, cfg, lvl, path, walk_sums(s[i].1, cfg, next_level(lvl), path.push(s[i].0@), t2))
    } else {
        t
    }
}

pub open spec fn walk_sums_items(
    s: Seq<JsonValue>,
    i: int,
    cfg: GenomeConfig,
    lvl: usize,
    path: Seq<Seq<char>>,
    t: Sums,
) -> Sums
    decreases s, s.len() - i,
{
    if 0 <= i < s.len() {
        let m = (i + 1) as u64;
        let t1 = add_key_times_sum(t, lvl, index_key(i as nat), m);
        let t2 = add_sum(t1, lvl, spec_effective_type_bit(s[i], cfg.ignore_value_types).wrapping_mul(m));
        walk_sums_items(s, i + 1, cfg, lvl, path, walk_sums(s[i], cfg, next_level(lvl), path.push("[*]"@), t2))
    } else {
        t
    }
}

pub open spec fn walk_sums_shapes(
    s: Seq<JsonValue>,
    i: int,
    seen: Set<Seq<char>>,
    cfg: GenomeConfig,
    lvl: usize,
    path: Seq<Seq<char>>,
    t: Sums,
) -> Sums
    decreases s, s.len() - i,
{
    if 0 <= i < s.len() {
        let k = shape_key(s[i], path, cfg);
        if seen.contains(k) {
            walk_sums_shapes(s, i + 1, seen, cfg, lvl, path, t)
        } else {
            walk_sums_shapes(
                s,
                i + 1,
                seen.insert(k),
                cfg,
                lvl,
                path,
                walk_sums(s[i], cfg, next_level(lvl), path.push("[*]"@), add_key_sum(t, lvl, k)),
            )
        }
    } else {
        t
    }
}

/// The sums of a list of levels, keyed by level.
pub open spec fn seq_sums(s: Seq<u64>) -> Map<usize, u64> {
    Map::new(|l: usize| (l as int) < s.len(), |l: usize| s[l as int])
}

pub open spec fn as_sums(t: Trace) -> Sums {
    (seq_sums(t.0), t.1)
}

/// The sums of the levels `l`, `l + 1`, ... as long as each is present.
pub open spec fn sums_from(m: Map<usize, u64>, l: nat) -> Seq<u64>
    decreases usize::MAX + 1 - l,
{
    if l <= usize::MAX && m.contains_key(l as usize) {
        seq![m[l as usize]] + sums_from(m, l + 1)
    } else {
        Seq::empty()
    }
}

proof fn lemma_as_sums_enter(t: Trace, lvl: usize)
    requires
        lvl <= t.0.len(),
    ensures
        as_sums(enter_level(t, lvl as nat)) == start_sum(as_sums(t), lvl),
        enter_level(t, lvl as nat).0.len() == if lvl == t.0.len() {
            t.0.len() + 1int
        } else {
            t.0.len() as int
        },
{
    if lvl == t.0.len() {
        assert(seq_sums(t.0.push(level_base(lvl))) =~= seq_sums(t.0).insert(lvl, level_base(lvl)));
    }
}

proof fn lemma_as_sums_add(t: Trace, lvl: usize, x: u64)
    requires
        lvl < t.0.len(),
    ensures
        as_sums(add_at(t, lvl as nat, x)) == add_sum(as_sums(t), lvl, x),
{
    assert(seq_sums(add_at(t, lvl as nat, x).0) =~= add_sum(as_sums(t), lvl, x).0);
}

proof fn lemma_as_sums_key(t: Trace, lvl: usize, k: Seq<char>)
    requires
        lvl < t.0.len(),
    ensures
        as_sums(add_key(t, lvl as nat, k)) == add_key_sum(as_sums(t), lvl, k),
{
    assert(seq_sums(add_key(t, lvl as nat, k).0) =~= add_key_sum(as_sums(t), lvl, k).0);
}

proof fn lemma_as_sums_key_times(t: Trace, lvl: usize, k: Seq<char>, m: u64)
    requires
        lvl < t.0.len(),
    ensures
        as_sums(add_key_times(t, lvl as nat, k, m)) == add_key_times_sum(as_sums(t), lvl, k, m),
{
    assert(seq_sums(add_key_times(t, lvl as nat, k, m).0) =~= add_key_times_sum(as_sums(t), lvl, k, m).0);
}

/// Where no level wraps, walking the sums keyed by level is walking the
/// list of levels, and the walk reaches no level below `lvl + nesting(v)`.
pub proof fn lemma_walk_sums(v: JsonValue, cfg: GenomeConfig, lvl: usize, path: Seq<Seq<char>>, t: Trace)
    requires
        lvl <= t.0.len(),
        lvl + nesting(v) <= usize::MAX,
    ensures
        walk_sums(v, cfg, lvl, path, as_sums(t)) == as_sums(walk(v, cfg, lvl as nat, path, t)),
        walk(v, cfg, lvl as nat, path, t).0.len() <= if t.0.len() >= lvl + 1 + nesting(v) {
            t.0.len() as int
        } else {
            lvl + 1 + nesting(v)
        },
    decreases v, 0int,
{
    let b = spec_effective_type_bit(v, cfg.ignore_value_types);
    let t0 = enter_level(t, lvl as nat);
    lemma_as_sums_enter(t, lvl);
    let t1 = add_at(t0, lvl as nat, b);
    lemma_as_sums_add(t0, lvl, b);
    match v {
        JsonValue::Object(m) => {
            crate::json::lemma_members_decrease(m);
            lemma_as_sums_key(t1, lvl, "type:object"@);
            lemma_walk_sums_members(m.members(), 0, cfg, lvl, path, add_key(t1, lvl as nat, "type:object"@));
        },
        JsonValue::Array(items) => {
            lemma_as_sums_key(t1, lvl, "type:array"@);
            let t2 = add_key(t1, lvl as nat, "type:array"@);
            if !cfg.ignore_array_length {
                lemma_as_sums_key(t2, lvl, length_key(items@.len()));
                lemma_walk_sums_items(items@, 0, cfg, lvl, path, add_key(t2, lvl as nat, length_key(items@.len())));
            } else {
                lemma_walk_sums_shapes(items@, 0, Set::empty(), cfg, lvl, path, t2);
                let t3 = walk_shapes(items@, 0, Set::empty(), cfg, lvl as nat, path, t2);
                lemma_as_sums_key(t3, lvl, "array:variadic"@);
            }
        },
        _ => {},
    }
}

proof fn lemma_walk_sums_members(
    s: Seq<(String, JsonValue)>,
    i: int,
    cfg: GenomeConfig,
    lvl: usize,
    path: Seq<Seq<char>>,
    t: Trace,
)
    requires
        lvl < t.0.len(),
        0 <= i,
        i < s.len() ==> lvl + 1 + nesting_members(s, i) <= usize::MAX,
    ensures
        walk_sums_members(s, i, cfg, lvl, path, as_sums(t)) == as_sums(walk_members(s, i, cfg, lvl as nat, path, t)),
        walk_members(s, i, cfg, lvl as nat, path, t).0.len() >= t.0.len(),
        i < s.len() ==> walk_members(s, i, cfg, lvl as nat, path, t).0.len() <= if t.0.len() >= lvl + 2
            + nesting_members(s, i) {
            t.0.len() as int
        } else {
            lvl + 2 + nesting_members(s, i)
        },
        i >= s.len() ==> walk_members(s, i, cfg, lvl as nat, path, t).0.len() == t.0.len(),
    decreases s, s.len() - i,
{
    if i < s.len() {
        let m = (i + 1) as u64;
        let ta = add_key_times(t, lvl as nat, s[i].0@, m);
        lemma_as_sums_key_times(t, lvl, s[i].0@, m);
        let x = spec_effective_type_bit(s[i].1, cfg.ignore_value_types).wrapping_mul(m);
        let t2 = add_at(ta, lvl as nat, x);
        lemma_as_sums_add(ta, lvl, x);
        lemma_nesting_members_at(s, i, i);
        assert(next_level(lvl) == lvl + 1);
        lemma_walk_sums(s[i].1, cfg, (lvl + 1) as usize, path.push(s[i].0@), t2);
        let t3 = walk(s[i].1, cfg, lvl as nat + 1, path.push(s[i].0@), t2);
        crate::laws::lemma_walk_len(s[i].1, cfg, lvl as nat + 1, path.push(s[i].0@), t2);
        lemma_walk_sums_members(s, i + 1, cfg, lvl, path, t3);
    }
}

proof fn lemma_walk_sums_items(
    s: Seq<JsonValue>,
    i: int,
    cfg: GenomeConfig,
    lvl: usize,
    path: Seq<Seq<char>>,
    t: Trace,
)
    requires
        lvl < t.0.len(),
        0 <= i,
        i < s.len() ==> lvl + 1 + nesting_items(s, i) <= usize::MAX,
    ensures
        walk_sums_items(s, i, cfg, lvl, path, as_sums(t)) == as_sums(walk_items(s, i, cfg, lvl as nat, path, t)),
        walk_items(s, i, cfg, lvl as nat, path, t).0.len() >= t.0.len(),
        i < s.len() ==> walk_items(s, i, cfg, lvl as nat, path, t).0.len() <= if t.0.len() >= lvl + 2
            + nesting_items(s, i) {
            t.0.len() as int
        } else {
            lvl + 2 + nesting_items(s, i)
        },
        i >= s.len() ==> walk_items(s, i, cfg, lvl as nat, path, t).0.len() == t.0.len(),
    decreases s, s.len() - i,
{
    if i < s.len() {
        let m = (i + 1) as u64;
        let ta = add_key_times(t, lvl as nat, index_key(i as nat), m);
        lemma_as_sums_key_times(t, lvl, index_key(i as nat), m);
        let x = spec_effective_type_bit(s[i], cfg.ignore_value_types).wrapping_mul(m);
        let t2 = add_at(ta, lvl as nat, x);
        lemma_as_sums_add(ta, lvl, x);
        lemma_nesting_items_at(s, i, i);
        assert(next_level(lvl) == lvl + 1);
        lemma_walk_sums(s[i], cfg, (lvl + 1) as usize, path.push("[*]"@), t2);
        let t3 = walk(s[i], cfg, lvl as nat + 1, path.push("[*]"@), t2);
        crate::laws::lemma_walk_len(s[i], cfg, lvl as nat + 1, path.push("[*]"@), t2);
        lemma_walk_sums_items(s, i + 1, cfg, lvl, path, t3);
    }
}

proof fn lemma_walk_sums_shapes(
    s: Seq<JsonValue>,
    i: int,
    seen: Set<Seq<char>>,
    cfg: GenomeConfig,
    lvl: usize,
    path: Seq<Seq<char>>,
    t: Trace,
)
    requires
        lvl < t.0.len(),
        0 <= i,
        i < s.len() ==> lvl + 1 + nesting_items(s, i) <= usize::MAX,
    ensures
        walk_sums_shapes(s, i, seen, cfg, lvl, path, as_sums(t)) == as_sums(
            walk_shapes(s, i, seen, cfg, lvl as nat, path, t),
        ),
        walk_shapes(s, i, seen, cfg, lvl as nat, path, t).0.len() >= t.0.len(),
        i < s.len() ==> walk_shapes(s, i, seen, cfg, lvl as nat, path, t).0.len() <= if t.0.len() >= lvl
            + 2 + nesting_items(s, i) {
            t.0.len() as int
        } else {
            lvl + 2 + nesting_items(s, i)
        },
        i >= s.len() ==> walk_shapes(s, i, seen, cfg, lvl as nat, path, t).0.len() == t.0.len(),
    decreases s, s.len() - i,
{
    if i < s.len() {
        lemma_nesting_items_at(s, i, i);
        let k = shape_key(s[i], path, cfg);
        if seen.contains(k) {
            lemma_walk_sums_shapes(s, i + 1, seen, cfg, lvl, path, t);
        } else {
            let t2 = add_key(t, lvl as nat, k);
            lemma_as_sums_key(t, lvl, k);
            assert(next_level(lvl) == lvl + 1);
            lemma_walk_sums(s[i], cfg, (lvl + 1) as usize, path.push("[*]"@), t2);
            let t3 = walk(s[i], cfg, lvl as nat + 1, path.push("[*]"@), t2);
            crate::laws::lemma_walk_len(s[i], cfg, lvl as nat + 1, path.push("[*]"@), t2);
            lemma_walk_sums_shapes(s, i + 1, seen.insert(k), cfg, lvl, path, t3);
        }
    }
}

/// Read back from 0 on, the sums of a list of levels give the list.
pub proof fn lemma_sums_from(s: Seq<u64>, l: nat)
    requires
        s.len() <= usize::MAX + 1,
        l <= s.len(),
    ensures
        sums_from(seq_sums(s), l) == s.skip(l as int),
    decreases usize::MAX + 1 - l,
{
    if l < s.len() {
        lemma_sums_from(s, l + 1);
        assert(s.skip(l as int) =~= seq![s[l as int]] + s.skip(l + 1int));
    } else {
        assert(s.skip(l as int) =~= Seq::<u64>::empty());
    }
}

/// What `sums_from` reads: the sums of the levels from `a` on, up to the
/// first level without one.
pub proof fn lemma_sums_from_at(m: Map<usize, u64>, a: nat, l: nat)
    ensures
        sums_from(m, a).len() <= if a <= usize::MAX + 1 {
            usize::MAX + 1 - a
        } else {
            0
        },
        l < sums_from(m, a).len() ==> a + l <= usize::MAX && m.contains_key((a + l) as usize)
            && m[(a + l) as usize] == sums_from(m, a)[l as int],
        l == sums_from(m, a).len() && a + l <= usize::MAX ==> !m.contains_key((a + l) as usize),
    decreases usize::MAX + 1 - a,
{
    if a <= usize::MAX && m.contains_key(a as usize) {
        if l > 0 {
            lemma_sums_from_at(m, a + 1, (l - 1) as nat);
            assert(a + 1 + (l - 1) == a + l);
        } else {
            lemma_sums_from_at(m, a + 1, 0);
        }
    }
}

/// The sums of a walk do not depend on which key strings were asked for
/// before it.
pub proof fn lemma_walk_sums_levels(
    v: JsonValue,
    cfg: GenomeConfig,
    lvl: usize,
    path: Seq<Seq<char>>,
    l: Map<usize, u64>,
    s1: Set<Seq<char>>,
    s2: Set<Seq<char>>,
)
    ensures
        walk_sums(v, cfg, lvl, path, (l, s1)).0 == walk_sums(v, cfg, lvl, path, (l, s2)).0,
    decreases v, 0int,
{
    let t1 = add_sum(start_sum((l, s1), lvl), lvl, spec_effective_type_bit(v, cfg.ignore_value_types));
    let t2 = add_sum(start_sum((l, s2), lvl), lvl, spec_effective_type_bit(v, cfg.ignore_value_types));
    match v {
        JsonValue::Object(m) => {
            crate::json::lemma_members_decrease(m);
            let a = add_key_sum(t1, lvl, "type:object"@);
            let b = add_key_sum(t2, lvl, "type:object"@);
            lemma_walk_sums_members_levels(m.members(), 0, cfg, lvl, path, a.0, a.1, b.1);
        },
        JsonValue::Array(items) => {
            let a = add_key_sum(t1, lvl, "type:array"@);
            let b = add_key_sum(t2, lvl, "type:array"@);
            if !cfg.ignore_array_length {
                let a2 = add_key_sum(a, lvl, length_key(items@.len()));
                let b2 = add_key_sum(b, lvl, length_key(items@.len()));
                lemma_walk_sums_items_levels(items@, 0, cfg, lvl, path, a2.0, a2.1, b2.1);
            } else {
                lemma_walk_sums_shapes_levels(items@, 0, Set::empty(), cfg, lvl, path, a.0, a.1, b.1);
            }
        },
        _ => {},
    }
}

proof fn lemma_walk_sums_members_levels(
    s: Seq<(String, JsonValue)>,
    i: int,
    cfg: GenomeConfig,
    lvl: usize,
    path: Seq<Seq<char>>,
    l: Map<usize, u64>,
    s1: Set<Seq<char>>,
    s2: Set<Seq<char>>,
)
    ensures
        walk_sums_members(s, i, cfg, lvl, path, (l, s1)).0 == walk_sums_members(s, i, cfg, lvl, path, (l, s2)).0,
    decreases s, s.len() - i,
{
    if 0 <= i < s.len() {
        let m = (i + 1) as u64;
        let x = spec_effective_type_bit(s[i].1, cfg.ignore_value_types).wrapping_mul(m);
        let a = add_sum(add_key_times_sum((l, s1), lvl, s[i].0@, m), lvl, x);
        let b = add_sum(add_key_times_sum((l, s2), lvl, s[i].0@, m), lvl, x);
        let q = path.push(s[i].0@);
        lemma_walk_sums_levels(s[i].1, cfg, next_level(lvl), q, a.0, a.1, b.1);
        let a2 = walk_sums(s[i].1, cfg, next_level(lvl), q, a);
        let b2 = walk_sums(s[i].1, cfg, next_level(lvl), q, b);
        lemma_walk_sums_members_levels(s, i + 1, cfg, lvl, path, a2.0, a2.1, b2.1);
    }
}

proof fn lemma_walk_sums_items_levels(
    s: Seq<JsonValue>,
    i: int,
    cfg: GenomeConfig,
    lvl: usize,
    path: Seq<Seq<char>>,
    l: Map<usize, u64>,
    s1: Set<Seq<char>>,
    s2: Set<Seq<char>>,
)
    ensures
        walk_sums_items(s, i, cfg, lvl, path, (l, s1)).0 == walk_sums_items(s, i, cfg, lvl, path, (l, s2)).0,
    decreases s, s.len() - i,
{
    if 0 <= i < s.len() {
        let m = (i + 1) as u64;
        let x = spec_effective_type_bit(s[i], cfg.ignore_value_types).wrapping_mul(m);
        let a = add_sum(add_key_times_sum((l, s1), lvl, index_key(i as nat), m), lvl, x);
        let b = add_sum(add_key_times_sum((l, s2), lvl, index_key(i as nat), m), lvl, x);
        let q = path.push("[*]"@);
        lemma_walk_sums_levels(s[i], cfg, next_level(lvl), q, a.0, a.1, b.1);
        let a2 = walk_sums(s[i], cfg, next_level(lvl), q, a);
        let b2 = walk_sums(s[i], cfg, next_level(lvl), q, b);
        lemma_walk_sums_items_levels(s, i + 1, cfg, lvl, path, a2.0, a2.1, b2.1);
    }
}

proof fn lemma_walk_sums_shapes_levels(
    s: Seq<JsonValue>,
    i: int,
    seen: Set<Seq<char>>,
    cfg: GenomeConfig,
    lvl: usize,
    path: Seq<Seq<char>>,
    l: Map<usize, u64>,
    s1: Set<Seq<char>>,
    s2: Set<Seq<char>>,
)
    ensures
        walk_sums_shapes(s, i, seen, cfg, lvl, path, (l, s1)).0 == walk_sums_shapes(
            s,
            i,
            seen,
            cfg,
            lvl,
            path,
            (l, s2),
        ).0,
    decreases s, s.len() - i,
{
    if 0 <= i < s.len() {
        let k = shape_key(s[i], path, cfg);
        if seen.contains(k) {
            lemma_walk_sums_shapes_levels(s, i + 1, seen, cfg, lvl, path, l, s1, s2);
        } else {
            let a = add_key_sum((l, s1), lvl, k);
            let b = add_key_sum((l, s2), lvl, k);
            let q = path.push("[*]"@);
            lemma_walk_sums_levels(s[i], cfg, next_level(lvl), q, a.0, a.1, b.1);
            let a2 = walk_sums(s[i], cfg, next_level(lvl), q, a);
            let b2 = walk_sums(s[i], cfg, next_level(lvl), q, b);
            lemma_walk_sums_shapes_levels(s, i + 1, seen.insert(k), cfg, lvl, path, a2.0, a2.1, b2.1);
        }
    }
}

/// Going from the sums `t` to `r` at level `lvl`: every level kept, those
/// above `lvl` unchanged, and new levels only from `lvl` to `top`.
pub open spec fn frames(t: Map<usize, u64>, r: Map<usize, u64>, lvl: usize, top: int) -> bool {
    &&& forall|k: usize| #[trigger] t.contains_key(k) ==> r.contains_key(k)
    &&& forall|k: usize|
        k < lvl ==> (#[trigger] r.contains_key(k) == t.contains_key(k)) && (t.contains_key(k) ==> r[k]
            == t[k])
    &&& forall|k: usize| #[trigger] r.contains_key(k) && !t.contains_key(k) ==> lvl <= k <= top
}

proof fn lemma_frames_trans(t: Map<usize, u64>, u: Map<usize, u64>, r: Map<usize, u64>, lvl: usize, top: int)
    requires
        frames(t, u, lvl, top),
        frames(u, r, lvl, top),
    ensures
        frames(t, r, lvl, top),
{
    assert forall|k: usize| k < lvl implies (#[trigger] r.contains_key(k) == t.contains_key(k)) && (t.contains_key(k)
        ==> r[k] == t[k]) by {
        assert(u.contains_key(k) == t.contains_key(k));
    }
    assert forall|k: usize| #[trigger] r.contains_key(k) && !t.contains_key(k) implies lvl <= k <= top by {
        if u.contains_key(k) {
        } else {
        }
    }
}

proof fn lemma_frames_insert(t: Map<usize, u64>, lvl: usize, x: u64, top: int)
    requires
        lvl <= top,
    ensures
        frames(t, t.insert(lvl, x), lvl, top),
{
}

proof fn lemma_frames_weaken(t: Map<usize, u64>, r: Map<usize, u64>, lvl: usize, top: int, top2: int)
    requires
        lvl < usize::MAX,
        frames(t, r, (lvl + 1) as usize, top),
        top <= top2,
    ensures
        frames(t, r, lvl, top2),
{
}

/// A walk at level `lvl` keeps every level it is given and the sums of the
/// levels above `lvl`, has a sum for `lvl`, and adds levels only from
/// `lvl` to `lvl + nesting(v)`: whatever sums it starts from.
pub proof fn law_walk_sums_frame(v: JsonValue, cfg: GenomeConfig, lvl: usize, path: Seq<Seq<char>>, t: Sums)
    requires
        lvl + nesting(v) <= usize::MAX,
    ensures
        frames(t.0, walk_sums(v, cfg, lvl, path, t).0, lvl, lvl + nesting(v)),
        walk_sums(v, cfg, lvl, path, t).0.contains_key(lvl),
    decreases v, 0int,
{
    let t0 = start_sum(t, lvl);
    let t1 = add_sum(t0, lvl, spec_effective_type_bit(v, cfg.ignore_value_types));
    let top = lvl + nesting(v);
    lemma_frames_insert(t.0, lvl, level_base(lvl), top);
    lemma_frames_insert(t0.0, lvl, t0.0[lvl].wrapping_add(spec_effective_type_bit(v, cfg.ignore_value_types)), top);
    lemma_frames_trans(t.0, t0.0, t1.0, lvl, top);
    match v {
        JsonValue::Object(m) => {
            crate::json::lemma_members_decrease(m);
            let t2 = add_key_sum(t1, lvl, "type:object"@);
            lemma_frames_insert(t1.0, lvl, t1.0[lvl].wrapping_add(key_bit("type:object"@)), top);
            lemma_frames_trans(t.0, t1.0, t2.0, lvl, top);
            lemma_walk_sums_members_frame(m.members(), 0, cfg, lvl, path, t2);
            lemma_frames_trans(t.0, t2.0, walk_sums(v, cfg, lvl, path, t).0, lvl, top);
        },
        JsonValue::Array(items) => {
            let t2 = add_key_sum(t1, lvl, "type:array"@);
            lemma_frames_insert(t1.0, lvl, t1.0[lvl].wrapping_add(key_bit("type:array"@)), top);
            lemma_frames_trans(t.0, t1.0, t2.0, lvl, top);
            if !cfg.ignore_array_length {
                let k = length_key(items@.len());
                let t3 = add_key_sum(t2, lvl, k);
                lemma_frames_insert(t2.0, lvl, t2.0[lvl].wrapping_add(key_bit(k)), top);
                lemma_frames_trans(t.0, t2.0, t3.0, lvl, top);
                lemma_walk_sums_items_frame(items@, 0, cfg, lvl, path, t3);
                lemma_frames_trans(t.0, t3.0, walk_sums(v, cfg, lvl, path, t).0, lvl, top);
            } else {
                lemma_walk_sums_shapes_frame(items@, 0, Set::empty(), cfg, lvl, path, t2);
                let t4 = walk_sums_shapes(items@, 0, Set::empty(), cfg, lvl, path, t2);
                lemma_frames_trans(t.0, t2.0, t4.0, lvl, top);
                lemma_frames_insert(t4.0, lvl, t4.0[lvl].wrapping_add(key_bit("array:variadic"@)), top);
                lemma_frames_trans(t.0, t4.0, walk_sums(v, cfg, lvl, path, t).0, lvl, top);
            }
        },
        _ => {},
    }
}

proof fn lemma_walk_sums_members_frame(
    s: Seq<(String, JsonValue)>,
    i: int,
    cfg: GenomeConfig,
    lvl: usize,
    path: Seq<Seq<char>>,
    t: Sums,
)
    requires
        t.0.contains_key(lvl),
        0 <= i,
        lvl + 1 + nesting_members(s, i) <= usize::MAX,
    ensures
        frames(t.0, walk_sums_members(s, i, cfg, lvl, path, t).0, lvl, lvl + 1 + nesting_members(s, i)),
        walk_sums_members(s, i, cfg, lvl, path, t).0.contains_key(lvl),
    decreases s, s.len() - i,
{
    let top = lvl + 1 + nesting_members(s, i);
    if i < s.len() {
        lemma_nesting_members_at(s, i, i);
        let m = (i + 1) as u64;
        let ta = add_key_times_sum(t, lvl, s[i].0@, m);
        let x = spec_effective_type_bit(s[i].1, cfg.ignore_value_types).wrapping_mul(m);
        let t2 = add_sum(ta, lvl, x);
        lemma_frames_insert(t.0, lvl, ta.0[lvl], top);
        lemma_frames_insert(ta.0, lvl, t2.0[lvl], top);
        lemma_frames_trans(t.0, ta.0, t2.0, lvl, top);
        let q = path.push(s[i].0@);
        law_walk_sums_frame(s[i].1, cfg, (lvl + 1) as usize, q, t2);
        let t3 = walk_sums(s[i].1, cfg, next_level(lvl), q, t2);
        lemma_frames_weaken(t2.0, t3.0, lvl, lvl + 1 + nesting(s[i].1), top);
        lemma_frames_trans(t.0, t2.0, t3.0, lvl, top);
        lemma_walk_sums_members_frame(s, i + 1, cfg, lvl, path, t3);
        lemma_frames_weaken_top(t3.0, walk_sums_members(s, i + 1, cfg, lvl, path, t3).0, lvl, lvl + 1 + nesting_members(s, i + 1), top);
        lemma_frames_trans(t.0, t3.0, walk_sums_members(s, i, cfg, lvl, path, t).0, lvl, top);
    }
}

proof fn lemma_frames_weaken_top(t: Map<usize, u64>, r: Map<usize, u64>, lvl: usize, top: int, top2: int)
    requires
        frames(t, r, lvl, top),
        top <= top2,
    ensures
        frames(t, r, lvl, top2),
{
}

proof fn lemma_walk_sums_items_frame(
    s: Seq<JsonValue>,
    i: int,
    cfg: GenomeConfig,
    lvl: usize,
    path: Seq<Seq<char>>,
    t: Sums,
)
    requires
        t.0.contains_key(lvl),
        0 <= i,
        lvl + 1 + nesting_items(s, i) <= usize::MAX,
    ensures
        frames(t.0, walk_sums_items(s, i, cfg, lvl, path, t).0, lvl, lvl + 1 + nesting_items(s, i)),
        walk_sums_items(s, i, cfg, lvl, path, t).0.contains_key(lvl),
    decreases s, s.len() - i,
{
    let top = lvl + 1 + nesting_items(s, i);
    if i < s.len() {
        lemma_nesting_items_at(s, i, i);
        let m = (i + 1) as u64;
        let ta = add_key_times_sum(t, lvl, index_key(i as nat), m);
        let x = spec_effective_type_bit(s[i], cfg.ignore_value_types).wrapping_mul(m);
        let t2 = add_sum(ta, lvl, x);
        lemma_frames_insert(t.0, lvl, ta.0[lvl], top);
        lemma_frames_insert(ta.0, lvl, t2.0[lvl], top);
        lemma_frames_trans(t.0, ta.0, t2.0, lvl, top);
        let q = path.push("[*]"@);
        law_walk_sums_frame(s[i], cfg, (lvl + 1) as usize, q, t2);
        let t3 = walk_sums(s[i], cfg, next_level(lvl), q, t2);
        lemma_frames_weaken(t2.0, t3.0, lvl, lvl + 1 + nesting(s[i]), top);
        lemma_frames_trans(t.0, t2.0, t3.0, lvl, top);
        lemma_walk_sums_items_frame(s, i + 1, cfg, lvl, path, t3);
        lemma_frames_weaken_top(t3.0, walk_sums_items(s, i + 1, cfg, lvl, path, t3).0, lvl, lvl + 1 + nesting_items(s, i + 1), top);
        lemma_frames_trans(t.0, t3.0, walk_sums_items(s, i, cfg, lvl, path, t).0, lvl, top);
    }
}

proof fn lemma_walk_sums_shapes_frame(
    s: Seq<JsonValue>,
    i: int,
    seen: Set<Seq<char>>,
    cfg: GenomeConfig,
    lvl: usize,
    path: Seq<Seq<char>>,
    t: Sums,
)
    requires
        t.0.contains_key(lvl),
        0 <= i,
        lvl + 1 + nesting_items(s, i) <= usize::MAX,
    ensures
        frames(t.0, walk_sums_shapes(s, i, seen, cfg, lvl, path, t).0, lvl, lvl + 1 + nesting_items(s, i)),
        walk_sums_shapes(s, i, seen, cfg, lvl, path, t).0.contains_key(lvl),
    decreases s, s.len() - i,
{
    let top = lvl + 1 + nesting_items(s, i);
    if i < s.len() {
        lemma_nesting_items_at(s, i, i);
        let k = shape_key(s[i], path, cfg);
        if seen.contains(k) {
            lemma_walk_sums_shapes_frame(s, i + 1, seen, cfg, lvl, path, t);
            lemma_frames_weaken_top(t.0, walk_sums_shapes(s, i + 1, seen, cfg, lvl, path, t).0, lvl, lvl + 1 + nesting_items(s, i + 1), top);
        } else {
            let t2 = add_key_sum(t, lvl, k);
            lemma_frames_insert(t.0, lvl, t2.0[lvl], top);
            let q = path.push("[*]"@);
            law_walk_sums_frame(s[i], cfg, (lvl + 1) as usize, q, t2);
            let t3 = walk_sums(s[i], cfg, next_level(lvl), q, t2);
            lemma_frames_weaken(t2.0, t3.0, lvl, lvl + 1 + nesting(s[i]), top);
            lemma_frames_trans(t.0, t2.0, t3.0, lvl, top);
            lemma_walk_sums_shapes_frame(s, i + 1, seen.insert(k), cfg, lvl, path, t3);
            let t4 = walk_sums_shapes(s, i + 1, seen.insert(k), cfg, lvl, path, t3);
            lemma_frames_weaken_top(t3.0, t4.0, lvl, lvl + 1 + nesting_items(s, i + 1), top);
            lemma_frames_trans(t.0, t3.0, t4.0, lvl, top);
        }
    }
}

} // verus!
