//! What holds of the hasher as a whole.

use vstd::prelude::*;

use crate::genome::{
    spec_type_bit, add_at, add_key, add_key_times, counter_of, early_id, enter_level, hash_cache_keys, index_key,
    is_container, length_key, level_part, level_parts, levels_id, member_descs, shape_key, kind_index, has_kind,
    shape_signature, signature_of_id, spec_effective_type_bit, spec_hash, structure_levels, walk,
    walk_items, walk_members, walk_shapes, GenomeConfig, Trace,
};
use crate::json::{JsonMap, JsonValue};
use crate::sums::nesting;
use crate::similarity::{
    exact_count, is_comparison, level_score, lookup, strictly_increasing, LevelScore, Similarity,
};

verus! {

/// Two values have the same structure: the same kinds, the same keys in the
/// same objects, the same array lengths, recursively; scalar values may
/// differ.
pub open spec fn same_shape(a: JsonValue, b: JsonValue) -> bool
    decreases a, 0int,
{
    match a {
        JsonValue::Object(m) => match b {
            JsonValue::Object(n) => {
                proof {
                    crate::json::lemma_members_decrease(m);
                }
                m.members().len() == n.members().len() && same_shape_members(
                    m.members(),
                    n.members(),
                    0,
                )
            },
            _ => false,
        },
        JsonValue::Array(x) => match b {
            JsonValue::Array(y) => x@.len() == y@.len() && same_shape_items(x@, y@, 0),
            _ => false,
        },
        JsonValue::Null => b is Null,
        JsonValue::Bool(_) => b is Bool,
        JsonValue::Number(_) => b is Number,
        JsonValue::String(_) => b is String,
    }
}

pub open spec fn same_shape_members(
    s: Seq<(String, JsonValue)>,
    r: Seq<(String, JsonValue)>,
    i: int,
) -> bool
    decreases s, s.len() - i,
{
    if 0 <= i < s.len() {
        &&& i < r.len()
        &&& s[i].0@ == r[i].0@
        &&& same_shape(s[i].1, r[i].1)
        &&& same_shape_members(s, r, i + 1)
    } else {
        true
    }
}

pub open spec fn same_shape_items(s: Seq<JsonValue>, r: Seq<JsonValue>, i: int) -> bool
    decreases s, s.len() - i,
{
    if 0 <= i < s.len() {
        &&& i < r.len()
        &&& same_shape(s[i], r[i])
        &&& same_shape_items(s, r, i + 1)
    } else {
        true
    }
}

proof fn lemma_same_shape_members_at(s: Seq<(String, JsonValue)>, r: Seq<(String, JsonValue)>, i: int, k: int)
    requires
        same_shape_members(s, r, i),
        0 <= i <= k < s.len(),
    ensures
        k < r.len(),
        s[k].0@ == r[k].0@,
        same_shape(s[k].1, r[k].1),
    decreases k - i,
{
    if i < k {
        lemma_same_shape_members_at(s, r, i + 1, k);
    }
}

proof fn lemma_same_shape_items_at(s: Seq<JsonValue>, r: Seq<JsonValue>, i: int, k: int)
    requires
        same_shape_items(s, r, i),
        0 <= i <= k < s.len(),
    ensures
        k < r.len(),
        same_shape(s[k], r[k]),
    decreases k - i,
{
    if i < k {
        lemma_same_shape_items_at(s, r, i + 1, k);
    }
}

/// Values of one structure have the same kind bit and the same shape key.
proof fn lemma_same_shape_keys(a: JsonValue, b: JsonValue, cfg: GenomeConfig, path: Seq<Seq<char>>)
    requires
        same_shape(a, b),
    ensures
        spec_effective_type_bit(a, cfg.ignore_value_types) == spec_effective_type_bit(b, cfg.ignore_value_types),
        kind_index(a, cfg.ignore_value_types) == kind_index(b, cfg.ignore_value_types),
        shape_key(a, path, cfg) == shape_key(b, path, cfg),
        is_container(a) == is_container(b),
        early_id(a, cfg) == early_id(b, cfg),
    decreases a, 1int,
{
    let ig = cfg.ignore_value_types;
    match a {
        JsonValue::Object(m) => {
            let n = b->Object_0;
            crate::json::lemma_members_decrease(m);
            assert forall|k: int| 0 <= k < m.members().len() implies #[trigger] member_descs(m.members(), ig)[k]
                == member_descs(n.members(), ig)[k] by {
                lemma_same_shape_members_at(m.members(), n.members(), 0, k);
                lemma_same_shape_kind(m.members()[k].1, n.members()[k].1, ig);
            }
            assert(member_descs(m.members(), ig) =~= member_descs(n.members(), ig));
        },
        JsonValue::Array(x) => {
            let y = b->Array_0;
            assert forall|c: nat| has_kind(x@, c, ig) == has_kind(y@, c, ig) by {
                if has_kind(x@, c, ig) {
                    let j = choose|j: int| 0 <= j < x@.len() && #[trigger] kind_index(x@[j], ig) == c;
                    lemma_same_shape_items_at(x@, y@, 0, j);
                    lemma_same_shape_kind(x@[j], y@[j], ig);
                }
                if has_kind(y@, c, ig) {
                    let j = choose|j: int| 0 <= j < y@.len() && #[trigger] kind_index(y@[j], ig) == c;
                    lemma_same_shape_items_at(x@, y@, 0, j);
                    lemma_same_shape_kind(x@[j], y@[j], ig);
                }
            }
            lemma_element_kinds_same(x@, y@, ig, 6);
        },
        _ => {},
    }
}

proof fn lemma_same_shape_kind(a: JsonValue, b: JsonValue, ig: bool)
    requires
        same_shape(a, b),
    ensures
        kind_index(a, ig) == kind_index(b, ig),
{
}

proof fn lemma_element_kinds_same(x: Seq<JsonValue>, y: Seq<JsonValue>, ig: bool, k: nat)
    requires
        forall|c: nat| has_kind(x, c, ig) == has_kind(y, c, ig),
    ensures
        crate::genome::element_kinds(x, ig, k) == crate::genome::element_kinds(y, ig, k),
    decreases k,
{
    if k > 0 {
        lemma_element_kinds_same(x, y, ig, (k - 1) as nat);
        assert(has_kind(x, (k - 1) as nat, ig) == has_kind(y, (k - 1) as nat, ig));
    }
}

/// Walks over values of one structure build the same sums and ask for the
/// same keys.
pub proof fn lemma_same_shape_walk(
    a: JsonValue,
    b: JsonValue,
    cfg: GenomeConfig,
    lvl: nat,
    path: Seq<Seq<char>>,
    t: Trace,
)
    requires
        same_shape(a, b),
    ensures
        walk(a, cfg, lvl, path, t) == walk(b, cfg, lvl, path, t),
    decreases a, 0int,
{
    lemma_same_shape_keys(a, b, cfg, path);
    let t1 = add_at(enter_level(t, lvl), lvl, spec_effective_type_bit(a, cfg.ignore_value_types));
    match a {
        JsonValue::Object(m) => {
            let n = b->Object_0;
            crate::json::lemma_members_decrease(m);
            lemma_same_shape_walk_members(m.members(), n.members(), 0, cfg, lvl, path, add_key(t1, lvl, "type:object"@));
        },
        JsonValue::Array(x) => {
            let y = b->Array_0;
            let t2 = add_key(t1, lvl, "type:array"@);
            if !cfg.ignore_array_length {
                lemma_same_shape_walk_items(x@, y@, 0, cfg, lvl, path, add_key(t2, lvl, length_key(x@.len())));
            } else {
                lemma_same_shape_walk_shapes(x@, y@, 0, Set::empty(), cfg, lvl, path, t2);
            }
        },
        _ => {},
    }
}

proof fn lemma_same_shape_walk_members(
    s: Seq<(String, JsonValue)>,
    r: Seq<(String, JsonValue)>,
    i: int,
    cfg: GenomeConfig,
    lvl: nat,
    path: Seq<Seq<char>>,
    t: Trace,
)
    requires
        same_shape_members(s, r, i),
        s.len() == r.len(),
    ensures
        walk_members(s, i, cfg, lvl, path, t) == walk_members(r, i, cfg, lvl, path, t),
    decreases s, s.len() - i,
{
    if 0 <= i < s.len() {
        lemma_same_shape_keys(s[i].1, r[i].1, cfg, path);
        let m = (i + 1) as u64;
        let t1 = add_key_times(t, lvl, s[i].0@, m);
        let t2 = add_at(t1, lvl, spec_effective_type_bit(s[i].1, cfg.ignore_value_types).wrapping_mul(m));
        lemma_same_shape_walk(s[i].1, r[i].1, cfg, lvl + 1, path.push(s[i].0@), t2);
        lemma_same_shape_walk_members(s, r, i + 1, cfg, lvl, path, walk(s[i].1, cfg, lvl + 1, path.push(s[i].0@), t2));
    }
}

proof fn lemma_same_shape_walk_items(
    s: Seq<JsonValue>,
    r: Seq<JsonValue>,
    i: int,
    cfg: GenomeConfig,
    lvl: nat,
    path: Seq<Seq<char>>,
    t: Trace,
)
    requires
        same_shape_items(s, r, i),
        s.len() == r.len(),
    ensures
        walk_items(s, i, cfg, lvl, path, t) == walk_items(r, i, cfg, lvl, path, t),
    decreases s, s.len() - i,
{
    if 0 <= i < s.len() {
        lemma_same_shape_keys(s[i], r[i], cfg, path);
        let m = (i + 1) as u64;
        let t1 = add_key_times(t, lvl, index_key(i as nat), m);
        let t2 = add_at(t1, lvl, spec_effective_type_bit(s[i], cfg.ignore_value_types).wrapping_mul(m));
        lemma_same_shape_walk(s[i], r[i], cfg, lvl + 1, path.push("[*]"@), t2);
        lemma_same_shape_walk_items(s, r, i + 1, cfg, lvl, path, walk(s[i], cfg, lvl + 1, path.push("[*]"@), t2));
    }
}

proof fn lemma_same_shape_walk_shapes(
    s: Seq<JsonValue>,
    r: Seq<JsonValue>,
    i: int,
    seen: Set<Seq<char>>,
    cfg: GenomeConfig,
    lvl: nat,
    path: Seq<Seq<char>>,
    t: Trace,
)
    requires
        same_shape_items(s, r, i),
        s.len() == r.len(),
    ensures
        walk_shapes(s, i, seen, cfg, lvl, path, t) == walk_shapes(r, i, seen, cfg, lvl, path, t),
    decreases s, s.len() - i,
{
    if 0 <= i < s.len() {
        lemma_same_shape_keys(s[i], r[i], cfg, path);
        let k = shape_key(s[i], path, cfg);
        if seen.contains(k) {
            lemma_same_shape_walk_shapes(s, r, i + 1, seen, cfg, lvl, path, t);
        } else {
            lemma_same_shape_walk(s[i], r[i], cfg, lvl + 1, path.push("[*]"@), add_key(t, lvl, k));
            lemma_same_shape_walk_shapes(
                s,
                r,
                i + 1,
                seen.insert(k),
                cfg,
                lvl,
                path,
                walk(s[i], cfg, lvl + 1, path.push("[*]"@), add_key(t, lvl, k)),
            );
        }
    }
}

/// Same structure, same ID: two values that differ only in their scalar
/// values get the same ID, and leave the same counters and cached keys
/// behind, in every configuration.
pub proof fn law_same_structure_same_id(
    a: JsonValue,
    b: JsonValue,
    cfg: GenomeConfig,
    counters: Map<Seq<char>, u64>,
    cached: Set<Seq<char>>,
)
    requires
        nesting(a) <= usize::MAX,
        nesting(b) <= usize::MAX,
        same_shape(a, b),
    ensures
        spec_hash(a, cfg, counters) == spec_hash(b, cfg, counters),
        hash_cache_keys(a, cfg, cached) == hash_cache_keys(b, cfg, cached),
{
    lemma_same_shape_keys(a, b, cfg, Seq::empty());
    lemma_same_shape_walk(a, b, cfg, 0, Seq::empty(), (Seq::empty(), Set::empty()));
    lemma_same_shape_walk(a, b, cfg, 0, Seq::empty(), (Seq::empty(), cached));
}

/// A walk keeps the levels it was given, has the level it is at, and a
/// walk over a non-empty container reaches one level further.
pub proof fn lemma_walk_len(v: JsonValue, cfg: GenomeConfig, lvl: nat, path: Seq<Seq<char>>, t: Trace)
    requires
        lvl <= t.0.len(),
    ensures
        walk(v, cfg, lvl, path, t).0.len() >= t.0.len(),
        walk(v, cfg, lvl, path, t).0.len() > lvl,
        early_id(v, cfg) is None ==> walk(v, cfg, lvl, path, t).0.len() > lvl + 1,
    decreases v, 0int,
{
    let t1 = add_at(enter_level(t, lvl), lvl, spec_effective_type_bit(v, cfg.ignore_value_types));
    match v {
        JsonValue::Object(m) => {
            crate::json::lemma_members_decrease(m);
            lemma_walk_members_len(m.members(), 0, cfg, lvl, path, add_key(t1, lvl, "type:object"@));
        },
        JsonValue::Array(x) => {
            let t2 = add_key(t1, lvl, "type:array"@);
            if !cfg.ignore_array_length {
                lemma_walk_items_len(x@, 0, cfg, lvl, path, add_key(t2, lvl, length_key(x@.len())));
            } else {
                lemma_walk_shapes_len(x@, 0, Set::empty(), cfg, lvl, path, t2);
            }
        },
        _ => {},
    }
}

proof fn lemma_walk_members_len(
    s: Seq<(String, JsonValue)>,
    i: int,
    cfg: GenomeConfig,
    lvl: nat,
    path: Seq<Seq<char>>,
    t: Trace,
)
    requires
        lvl < t.0.len(),
    ensures
        walk_members(s, i, cfg, lvl, path, t).0.len() >= t.0.len(),
        0 <= i < s.len() ==> walk_members(s, i, cfg, lvl, path, t).0.len() > lvl + 1,
    decreases s, s.len() - i,
{
    if 0 <= i < s.len() {
        let m = (i + 1) as u64;
        let t2 = add_at(add_key_times(t, lvl, s[i].0@, m), lvl, spec_effective_type_bit(s[i].1, cfg.ignore_value_types).wrapping_mul(m));
        lemma_walk_len(s[i].1, cfg, lvl + 1, path.push(s[i].0@), t2);
        lemma_walk_members_len(s, i + 1, cfg, lvl, path, walk(s[i].1, cfg, lvl + 1, path.push(s[i].0@), t2));
    }
}

proof fn lemma_walk_items_len(
    s: Seq<JsonValue>,
    i: int,
    cfg: GenomeConfig,
    lvl: nat,
    path: Seq<Seq<char>>,
    t: Trace,
)
    requires
        lvl < t.0.len(),
    ensures
        walk_items(s, i, cfg, lvl, path, t).0.len() >= t.0.len(),
        0 <= i < s.len() ==> walk_items(s, i, cfg, lvl, path, t).0.len() > lvl + 1,
    decreases s, s.len() - i,
{
    if 0 <= i < s.len() {
        let m = (i + 1) as u64;
        let t2 = add_at(add_key_times(t, lvl, index_key(i as nat), m), lvl, spec_effective_type_bit(s[i], cfg.ignore_value_types).wrapping_mul(m));
        lemma_walk_len(s[i], cfg, lvl + 1, path.push("[*]"@), t2);
        lemma_walk_items_len(s, i + 1, cfg, lvl, path, walk(s[i], cfg, lvl + 1, path.push("[*]"@), t2));
    }
}

proof fn lemma_walk_shapes_len(
    s: Seq<JsonValue>,
    i: int,
    seen: Set<Seq<char>>,
    cfg: GenomeConfig,
    lvl: nat,
    path: Seq<Seq<char>>,
    t: Trace,
)
    requires
        lvl < t.0.len(),
    ensures
        walk_shapes(s, i, seen, cfg, lvl, path, t).0.len() >= t.0.len(),
        0 <= i < s.len() && !seen.contains(shape_key(s[i], path, cfg)) ==> walk_shapes(
            s,
            i,
            seen,
            cfg,
            lvl,
            path,
            t,
        ).0.len() > lvl + 1,
    decreases s, s.len() - i,
{
    if 0 <= i < s.len() {
        let k = shape_key(s[i], path, cfg);
        if seen.contains(k) {
            lemma_walk_shapes_len(s, i + 1, seen, cfg, lvl, path, t);
        } else {
            lemma_walk_len(s[i], cfg, lvl + 1, path.push("[*]"@), add_key(t, lvl, k));
            lemma_walk_shapes_len(
                s,
                i + 1,
                seen.insert(k),
                cfg,
                lvl,
                path,
                walk(s[i], cfg, lvl + 1, path.push("[*]"@), add_key(t, lvl, k)),
            );
        }
    }
}

/// A value that is walked has at least two levels.
pub proof fn lemma_structure_levels_len(v: JsonValue, cfg: GenomeConfig)
    requires
        nesting(v) <= usize::MAX,
        early_id(v, cfg) is None,
    ensures
        structure_levels(v, cfg).len() >= 2,
{
    lemma_walk_len(v, cfg, 0, Seq::empty(), (Seq::empty(), Set::empty()));
}

/// No part of an identifier holds a `-`.
proof fn lemma_level_part_no_dash(i: nat, h: u64)
    ensures
        crate::text::after_first(level_part(i, h), '-') is None,
{
    reveal_strlit("L");
    reveal_strlit(":");
    let p = level_part(i, h);
    crate::text::lemma_dec_value(i);
    crate::text::lemma_dec_value(h as nat);
    assert forall|k: int| 0 <= k < p.len() implies p[k] != '-' by {
        let a = "L"@ + crate::text::dec(i);
        let b = a + ":"@;
        if k == 0 {
        } else if k < a.len() {
            assert(p[k] == crate::text::dec(i)[k - 1]);
        } else if k == a.len() {
        } else {
            assert(p[k] == crate::text::dec(h as nat)[k - b.len()]);
        }
    }
    lemma_after_first_none(p, '-');
}

proof fn lemma_after_first_none(s: Seq<char>, c: char)
    requires
        forall|k: int| 0 <= k < s.len() ==> s[k] != c,
    ensures
        crate::text::after_first(s, c) is None,
    decreases s.len(),
{
    if s.len() > 0 {
        assert(s[0] != c);
        lemma_after_first_none(s.drop_first(), c);
    }
}

proof fn lemma_after_first_concat(x: Seq<char>, c: char, y: Seq<char>)
    requires
        crate::text::after_first(x, c) is None,
    ensures
        crate::text::after_first(x + seq![c] + y, c) == Some(y),
    decreases x.len(),
{
    if x.len() == 0 {
        assert(x + seq![c] + y =~= seq![c] + y);
        assert((seq![c] + y).drop_first() =~= y);
    } else {
        assert((x + seq![c] + y).drop_first() =~= x.drop_first() + seq![c] + y);
        lemma_after_first_concat(x.drop_first(), c, y);
    }
}

/// In collision mode every value's ID is its count so far as L0, followed
/// by its signature; the signature's counter goes up by one; and the
/// signature of the ID is the value's shape signature.
pub proof fn law_collision_id(v: JsonValue, cfg: GenomeConfig, counters: Map<Seq<char>, u64>)
    requires
        nesting(v) <= usize::MAX,
        cfg.new_id_on_collision,
    ensures
        ({
            let sig = shape_signature(v, cfg);
            let n = counter_of(counters, sig);
            let (id, after) = spec_hash(v, cfg, counters);
            &&& id == level_part(0, n) + "-"@ + sig
            &&& after == counters.insert(sig, (n + 1) as u64)
            &&& signature_of_id(id, cfg) == sig
        }),
{
    reveal_strlit("-");
    let sig = shape_signature(v, cfg);
    let n = counter_of(counters, sig);
    lemma_level_part_no_dash(0, n);
    assert("-"@ == seq!['-']);
    lemma_after_first_concat(level_part(0, n), '-', sig);
    if early_id(v, cfg) is None {
        let levels = structure_levels(v, cfg);
        lemma_structure_levels_len(v, cfg);
        let l2 = levels.update(0, n);
        let parts = level_parts(l2, 0);
        crate::text::lemma_join_first(parts, "-"@);
        assert(parts.drop_first() =~= level_parts(levels, 1));
        assert(parts[0] == level_part(0, n));
    }
}

/// Hashed in turn in collision mode, two values of one structure get the
/// same signature and consecutive counts as L0, so different IDs.
pub proof fn law_collision_counts_up(a: JsonValue, b: JsonValue, cfg: GenomeConfig, counters: Map<Seq<char>, u64>)
    requires
        nesting(a) <= usize::MAX,
        nesting(b) <= usize::MAX,
        same_shape(a, b),
        cfg.new_id_on_collision,
        counter_of(counters, shape_signature(a, cfg)) < u64::MAX,
    ensures
        ({
            let sig = shape_signature(a, cfg);
            let n = counter_of(counters, sig);
            let (id_a, after_a) = spec_hash(a, cfg, counters);
            let (id_b, after_b) = spec_hash(b, cfg, after_a);
            &&& id_a == level_part(0, n) + "-"@ + sig
            &&& id_b == level_part(0, (n + 1) as u64) + "-"@ + sig
            &&& signature_of_id(id_a, cfg) == signature_of_id(id_b, cfg)
            &&& id_a != id_b
        }),
{
    lemma_same_shape_keys(a, b, cfg, Seq::empty());
    lemma_same_shape_walk(a, b, cfg, 0, Seq::empty(), (Seq::empty(), Set::empty()));
    law_collision_id(a, cfg, counters);
    let sig = shape_signature(a, cfg);
    let n = counter_of(counters, sig);
    let after_a = spec_hash(a, cfg, counters).1;
    law_collision_id(b, cfg, after_a);
    assert(counter_of(after_a, sig) == n + 1);
    let id_a = spec_hash(a, cfg, counters).0;
    let id_b = spec_hash(b, cfg, after_a).0;
    crate::text::lemma_dec_injective(n as nat, (n + 1) as nat);
    reveal_strlit("L");
    reveal_strlit("-");
    reveal_strlit(":");
    if id_a == id_b {
        let da = crate::text::dec(n as nat);
        let db = crate::text::dec((n + 1) as nat);
        crate::text::lemma_dec_value(n as nat);
        crate::text::lemma_dec_value((n + 1) as nat);
        let pre = "L"@ + crate::text::dec(0) + ":"@;
        let x = "-"@ + sig;
        assert(id_a =~= pre + (da + x));
        assert(id_b =~= pre + (db + x));
        assert((pre + (da + x)).skip(pre.len() as int) =~= da + x);
        assert((pre + (db + x)).skip(pre.len() as int) =~= db + x);
        lemma_digits_prefix(da, db, x, x);
        assert(false);
    }
}

/// A run of digits followed by a non-digit is determined by the text.
proof fn lemma_digits_prefix(d1: Seq<char>, d2: Seq<char>, x: Seq<char>, y: Seq<char>)
    requires
        forall|i: int| 0 <= i < d1.len() ==> 48 <= (#[trigger] d1[i] as int) <= 57,
        forall|i: int| 0 <= i < d2.len() ==> 48 <= (#[trigger] d2[i] as int) <= 57,
        x.len() > 0,
        !(48 <= (x[0] as int) <= 57),
        y.len() > 0,
        !(48 <= (y[0] as int) <= 57),
        d1 + x == d2 + y,
    ensures
        d1 == d2,
{
    if d1.len() < d2.len() {
        assert((d1 + x)[d1.len() as int] == x[0]);
        assert((d2 + y)[d1.len() as int] == d2[d1.len() as int]);
    } else if d1.len() > d2.len() {
        assert((d2 + y)[d2.len() as int] == y[0]);
        assert((d1 + x)[d2.len() as int] == d1[d2.len() as int]);
    } else {
        assert(d1 =~= (d1 + x).take(d1.len() as int));
        assert(d2 =~= (d2 + y).take(d2.len() as int));
    }
}

/// The bytes of an ASCII string, one per character.
pub open spec fn ascii_bytes(s: Seq<char>) -> Seq<u8> {
    s.map_values(|c: char| c as u8)
}

proof fn lemma_utf8_ascii(s: Seq<char>)
    requires
        crate::text::ascii(s),
    ensures
        crate::text::utf8(s) == ascii_bytes(s),
{
    vstd::utf8::is_ascii_chars_encode_utf8(s);
    assert(crate::text::utf8(s) =~= ascii_bytes(s));
}

proof fn lemma_split_shift(p: Seq<u8>, y: Seq<u8>, sep: u8, st: int, i: int)
    requires
        0 <= st <= i <= y.len(),
    ensures
        crate::similarity::split_from(p + y, sep, p.len() + st, p.len() + i)
            == crate::similarity::split_from(y, sep, st, i),
    decreases y.len() - i,
{
    let s = p + y;
    if i < y.len() {
        assert(s[p.len() + i] == y[i]);
        if y[i] == sep {
            lemma_split_shift(p, y, sep, i + 1, i + 1);
            assert(s.subrange(p.len() + st, p.len() + i) =~= y.subrange(st, i));
        } else {
            lemma_split_shift(p, y, sep, st, i + 1);
        }
    } else {
        assert(s.subrange(p.len() + st, s.len() as int) =~= y.subrange(st, y.len() as int));
    }
}

proof fn lemma_split_scan(x: Seq<u8>, y: Seq<u8>, sep: u8, i: int)
    requires
        forall|k: int| 0 <= k < x.len() ==> x[k] != sep,
        0 <= i <= x.len(),
    ensures
        crate::similarity::split_from(x + seq![sep] + y, sep, 0, i) == seq![x]
            + crate::similarity::split_from(x + seq![sep] + y, sep, x.len() + 1int, x.len() + 1int),
    decreases x.len() - i,
{
    let s = x + seq![sep] + y;
    if i < x.len() {
        assert(s[i] == x[i]);
        lemma_split_scan(x, y, sep, i + 1);
    } else {
        assert(s[i] == sep);
        assert(s.subrange(0, i) =~= x);
    }
}

/// Splitting at the first separator.
proof fn lemma_split_sep(x: Seq<u8>, y: Seq<u8>, sep: u8)
    requires
        forall|k: int| 0 <= k < x.len() ==> x[k] != sep,
    ensures
        crate::similarity::split(x + seq![sep] + y, sep) == seq![x] + crate::similarity::split(y, sep),
{
    lemma_split_scan(x, y, sep, 0);
    assert(x + seq![sep] + y =~= (x + seq![sep]) + y);
    lemma_split_shift(x + seq![sep], y, sep, 0, 0);
}

proof fn lemma_split_none_from(x: Seq<u8>, sep: u8, i: int)
    requires
        forall|k: int| 0 <= k < x.len() ==> x[k] != sep,
        0 <= i <= x.len(),
    ensures
        crate::similarity::split_from(x, sep, 0, i) == seq![x],
    decreases x.len() - i,
{
    if i < x.len() {
        lemma_split_none_from(x, sep, i + 1);
    } else {
        assert(x.subrange(0, x.len() as int) =~= x);
    }
}

proof fn lemma_dec_bytes(n: nat)
    ensures
        crate::text::all_digits(ascii_bytes(crate::text::dec(n))),
        crate::text::digits_value(ascii_bytes(crate::text::dec(n))) == n,
        ascii_bytes(crate::text::dec(n)).len() > 0,
        crate::text::ascii(crate::text::dec(n)),
{
    crate::text::lemma_dec_value(n);
    crate::text::lemma_numeral_ascii(n, 10);
    lemma_digit_chars_bytes(crate::text::dec(n));
}

proof fn lemma_digit_chars_bytes(s: Seq<char>)
    requires
        forall|i: int| 0 <= i < s.len() ==> 48 <= (#[trigger] s[i] as int) <= 57,
    ensures
        crate::text::all_digits(ascii_bytes(s)),
        crate::text::digits_value(ascii_bytes(s)) == crate::text::digit_chars_value(s),
    decreases s.len(),
{
    if s.len() > 0 {
        lemma_digit_chars_bytes(s.drop_last());
        assert(ascii_bytes(s).drop_last() =~= ascii_bytes(s.drop_last()));
        assert(ascii_bytes(s).last() == s.last() as u8);
        assert((s.last() as u8) as int == s.last() as int);
    }
}

proof fn lemma_first_index_at(x: Seq<u8>, c: u8, y: Seq<u8>)
    requires
        forall|k: int| 0 <= k < x.len() ==> x[k] != c,
    ensures
        crate::similarity::first_index(x + seq![c] + y, c) == Some(x.len() as int),
    decreases x.len(),
{
    if x.len() > 0 {
        assert((x + seq![c] + y).drop_first() =~= x.drop_first() + seq![c] + y);
        lemma_first_index_at(x.drop_first(), c, y);
    } else {
        assert((x + seq![c] + y)[0] == c);
    }
}

/// A part `L<i>:<h>` reads back as level `i` with hash `h`.
proof fn lemma_part_reads_back(i: nat, h: u64)
    requires
        i <= usize::MAX,
    ensures
        crate::similarity::part_level(ascii_bytes(level_part(i, h))) == Some((i as usize, h)),
{
    reveal_strlit("L");
    reveal_strlit(":");
    lemma_dec_bytes(i);
    lemma_dec_bytes(h as nat);
    let di = ascii_bytes(crate::text::dec(i));
    let dh = ascii_bytes(crate::text::dec(h as nat));
    let p = ascii_bytes(level_part(i, h));
    assert(p =~= seq![76u8] + (di + seq![58u8] + dh));
    let q = di + seq![58u8] + dh;
    assert(p.drop_first() =~= q);
    assert forall|k: int| 0 <= k < di.len() implies di[k] != 58u8 by {
        assert(crate::text::is_digit(di[k]));
    }
    lemma_first_index_at(di, 58u8, dh);
    assert(q.take(di.len() as int) =~= di);
    assert(q.skip(di.len() + 1int) =~= dh);
    assert(crate::text::is_digit(di[0]));
    assert(crate::text::is_digit(dh[0]));
    assert(crate::text::unsigned_digits(di) == di);
    assert(crate::text::unsigned_digits(dh) == dh);
}

/// The levels of the first `k` entries.
pub open spec fn levels_prefix_map(levels: Seq<u64>, k: int) -> Map<usize, u64> {
    Map::new(|l: usize| l < k, |l: usize| levels[l as int])
}

proof fn lemma_parts_map_levels(levels: Seq<u64>, k: int)
    requires
        0 <= k <= levels.len(),
        levels.len() <= usize::MAX + 1,
    ensures
        crate::similarity::parts_map(
            level_parts(levels, 0).skip(k).map_values(|p: Seq<char>| ascii_bytes(p)),
            levels_prefix_map(levels, k),
        ) == levels_prefix_map(levels, levels.len() as int),
    decreases levels.len() - k,
{
    let ps = level_parts(levels, 0).skip(k).map_values(|p: Seq<char>| ascii_bytes(p));
    if k < levels.len() {
        lemma_part_reads_back(k as nat, levels[k]);
        assert(ps[0] == ascii_bytes(level_part(k as nat, levels[k])));
        assert(ps.drop_first() =~= level_parts(levels, 0).skip(k + 1).map_values(|p: Seq<char>| ascii_bytes(p)));
        assert(levels_prefix_map(levels, k).insert(k as usize, levels[k]) =~= levels_prefix_map(levels, k + 1));
        lemma_parts_map_levels(levels, k + 1);
    } else {
        assert(ps.len() == 0);
    }
}

/// Split at `-`, the bytes of an ID give the bytes of its parts.
proof fn lemma_split_join(parts: Seq<Seq<char>>)
    requires
        parts.len() >= 1,
        forall|j: int| 0 <= j < parts.len() ==> crate::text::ascii(#[trigger] parts[j]),
        forall|j: int, k: int| 0 <= j < parts.len() && 0 <= k < parts[j].len() ==> parts[j][k] != '-',
    ensures
        crate::text::ascii(crate::text::join(parts, "-"@)),
        crate::similarity::split(ascii_bytes(crate::text::join(parts, "-"@)), 45u8)
            == parts.map_values(|p: Seq<char>| ascii_bytes(p)),
    decreases parts.len(),
{
    reveal_strlit("-");
    crate::text::lemma_join_ascii(parts, "-"@);
    let x = ascii_bytes(parts[0]);
    assert forall|k: int| 0 <= k < x.len() implies x[k] != 45u8 by {
        assert(parts[0][k] != '-');
        assert(crate::text::ascii(parts[0]));
        assert('\0' <= parts[0][k] <= '\u{7f}');
    }
    if parts.len() == 1 {
        assert(crate::text::join(parts, "-"@) == parts[0]);
        lemma_split_none_from(x, 45u8, 0);
        assert(parts.map_values(|p: Seq<char>| ascii_bytes(p)) =~= seq![x]);
    } else {
        let rest = parts.drop_first();
        lemma_split_join(rest);
        crate::text::lemma_join_first(parts, "-"@);
        let y = ascii_bytes(crate::text::join(rest, "-"@));
        assert(ascii_bytes(crate::text::join(parts, "-"@)) =~= x + seq![45u8] + y);
        lemma_split_sep(x, y, 45u8);
        assert(parts.map_values(|p: Seq<char>| ascii_bytes(p)) =~= seq![x] + rest.map_values(|p: Seq<char>| ascii_bytes(p)));
    }
}

/// What `compare` reads from an ID is what `hash` wrote into it: each level
/// with its hash.
pub proof fn law_ids_read_back(levels: Seq<u64>)
    requires
        1 <= levels.len() <= usize::MAX + 1,
    ensures
        crate::similarity::id_levels(crate::text::utf8(levels_id(levels, 0))) == levels_prefix_map(
            levels,
            levels.len() as int,
        ),
{
    reveal_strlit("L");
    reveal_strlit(":");
    let parts = level_parts(levels, 0);
    assert forall|j: int| 0 <= j < parts.len() implies crate::text::ascii(#[trigger] parts[j]) by {
        crate::genome::lemma_levels_id_ascii(levels, 0);
        crate::text::lemma_numeral_ascii(j as nat, 10);
        crate::text::lemma_numeral_ascii(levels[j] as nat, 10);
        crate::text::lemma_ascii_concat("L"@, crate::text::dec(j as nat));
        crate::text::lemma_ascii_concat("L"@ + crate::text::dec(j as nat), ":"@);
        crate::text::lemma_ascii_concat("L"@ + crate::text::dec(j as nat) + ":"@, crate::text::dec(levels[j] as nat));
    }
    assert forall|j: int, k: int| 0 <= j < parts.len() && 0 <= k < parts[j].len() implies parts[j][k] != '-' by {
        lemma_level_part_no_dash(j as nat, levels[j]);
        if parts[j][k] == '-' {
            lemma_after_first_some(parts[j], '-', k);
        }
    }
    lemma_split_join(parts);
    lemma_utf8_ascii(crate::text::join(parts, "-"@));
    assert(parts.skip(0) =~= parts);
    assert(levels_prefix_map(levels, 0) =~= Map::<usize, u64>::empty());
    lemma_parts_map_levels(levels, 0);
}

proof fn lemma_after_first_some(s: Seq<char>, c: char, k: int)
    requires
        0 <= k < s.len(),
        s[k] == c,
    ensures
        crate::text::after_first(s, c) is Some,
    decreases k,
{
    if s[0] != c {
        lemma_after_first_some(s.drop_first(), c, k - 1);
    }
}

/// Every value has the structure of itself.
pub proof fn lemma_same_shape_refl(v: JsonValue)
    ensures
        same_shape(v, v),
    decreases v, 0int,
{
    match v {
        JsonValue::Object(m) => {
            crate::json::lemma_members_decrease(m);
            lemma_same_shape_members_refl(m.members(), 0);
        },
        JsonValue::Array(x) => {
            lemma_same_shape_items_refl(x@, 0);
        },
        _ => {},
    }
}

proof fn lemma_same_shape_members_refl(s: Seq<(String, JsonValue)>, i: int)
    ensures
        same_shape_members(s, s, i),
    decreases s, s.len() - i,
{
    if 0 <= i < s.len() {
        lemma_same_shape_refl(s[i].1);
        lemma_same_shape_members_refl(s, i + 1);
    }
}

proof fn lemma_same_shape_items_refl(s: Seq<JsonValue>, i: int)
    ensures
        same_shape_items(s, s, i),
    decreases s, s.len() - i,
{
    if 0 <= i < s.len() {
        lemma_same_shape_refl(s[i]);
        lemma_same_shape_items_refl(s, i + 1);
    }
}

proof fn lemma_same_shape_members_from(s: Seq<(String, JsonValue)>, r: Seq<(String, JsonValue)>, i: int)
    requires
        s.len() == r.len(),
        0 <= i,
        forall|k: int| #![trigger s[k]] i <= k < s.len() ==> s[k].0@ == r[k].0@ && s[k].1 == r[k].1,
    ensures
        same_shape_members(s, r, i),
    decreases s.len() - i,
{
    if i < s.len() {
        lemma_same_shape_refl(s[i].1);
        lemma_same_shape_members_from(s, r, i + 1);
    }
}

/// An object's members are determined by its map: two lists of members in
/// key order that stand for the same map hold the same keys and values in
/// the same places.
pub proof fn law_members_canonical(s: Seq<(String, JsonValue)>, r: Seq<(String, JsonValue)>)
    requires
        crate::json::sorted_keys(s),
        crate::json::sorted_keys(r),
        crate::table::table_map(s) == crate::table::table_map(r),
    ensures
        s.len() == r.len(),
        forall|i: int| #![trigger s[i]] 0 <= i < s.len() ==> s[i].0@ == r[i].0@ && s[i].1 == r[i].1,
    decreases s.len(),
{
    crate::json::lemma_sorted_distinct(s);
    crate::json::lemma_sorted_distinct(r);
    crate::table::lemma_table_map(s);
    crate::table::lemma_table_map(r);
    if s.len() == 0 || r.len() == 0 {
        if s.len() > 0 {
            assert(crate::table::table_map(s).contains_key(s[0].0@));
        }
        if r.len() > 0 {
            assert(crate::table::table_map(r).contains_key(r[0].0@));
        }
    } else {
        let ls = s.len() - 1;
        let lr = r.len() - 1;
        let ks = s[ls].0@;
        let kr = r[lr].0@;
        assert(crate::table::table_map(r).contains_key(ks));
        assert(crate::table::table_map(s).contains_key(kr));
        if ks != kr {
            let j = choose|j: int| 0 <= j < r.len() && r[j].0@ == ks;
            let k = choose|k: int| 0 <= k < s.len() && s[k].0@ == kr;
            assert(crate::text::bytes_lt(crate::text::utf8(r[j].0@), crate::text::utf8(r[lr].0@)));
            assert(crate::text::bytes_lt(crate::text::utf8(s[k].0@), crate::text::utf8(s[ls].0@)));
            crate::text::lemma_bytes_lt_total(crate::text::utf8(ks), crate::text::utf8(kr));
        }
        assert(crate::table::table_map(s)[s[ls].0@] == s[ls].1);
        assert(crate::table::table_map(r)[r[lr].0@] == r[lr].1);
        let sp = s.drop_last();
        let rp = r.drop_last();
        crate::table::lemma_table_map(sp);
        crate::table::lemma_table_map(rp);
        assert(!crate::table::table_map(sp).contains_key(ks)) by {
            if crate::table::table_map(sp).contains_key(ks) {
                let j = choose|j: int| 0 <= j < sp.len() && sp[j].0@ == ks;
                assert(s[j].0@ == s[ls].0@);
            }
        }
        assert(!crate::table::table_map(rp).contains_key(ks)) by {
            if crate::table::table_map(rp).contains_key(ks) {
                let j = choose|j: int| 0 <= j < rp.len() && rp[j].0@ == ks;
                assert(r[j].0@ == r[lr].0@);
            }
        }
        assert(crate::table::table_map(sp) =~= crate::table::table_map(s).remove(ks));
        assert(crate::table::table_map(rp) =~= crate::table::table_map(r).remove(ks));
        law_members_canonical(sp, rp);
        assert forall|i: int| #![trigger s[i]] 0 <= i < s.len() implies s[i].0@ == r[i].0@ && s[i].1 == r[i].1 by {
            if i < ls {
                assert(sp[i] == s[i]);
                assert(rp[i] == r[i]);
            } else {
                assert(ks == kr);
            }
        }
    }
}

/// The order in which an object's members are given does not change its
/// ID: two objects with the same map from keys to values hash alike.
pub proof fn law_member_order_same_id(
    m: JsonMap,
    n: JsonMap,
    cfg: GenomeConfig,
    counters: Map<Seq<char>, u64>,
    cached: Set<Seq<char>>,
)
    requires
        nesting(JsonValue::Object(m)) <= usize::MAX,
        nesting(JsonValue::Object(n)) <= usize::MAX,
        crate::json::sorted_keys(m.members()),
        crate::json::sorted_keys(n.members()),
        m.to_map() == n.to_map(),
    ensures
        spec_hash(JsonValue::Object(m), cfg, counters) == spec_hash(JsonValue::Object(n), cfg, counters),
        hash_cache_keys(JsonValue::Object(m), cfg, cached) == hash_cache_keys(JsonValue::Object(n), cfg, cached),
{
    law_members_canonical(m.members(), n.members());
    lemma_same_shape_members_from(m.members(), n.members(), 0);
    law_same_structure_same_id(JsonValue::Object(m), JsonValue::Object(n), cfg, counters, cached);
}

/// Outside collision mode an ID depends on the value and the configuration
/// alone: not on the counters, nor on the cached keys, so neither on earlier
/// calls nor on a reset; and the counters are left as they were.
pub proof fn law_ids_ignore_state(v: JsonValue, cfg: GenomeConfig, c1: Map<Seq<char>, u64>, c2: Map<Seq<char>, u64>)
    requires
        !cfg.new_id_on_collision,
    ensures
        spec_hash(v, cfg, c1).0 == spec_hash(v, cfg, c2).0,
        spec_hash(v, cfg, c1).1 == c1,
{
}

/// Outside collision mode, comparing the IDs of two values of one
/// structure finds them identical, every level matching.
pub proof fn law_same_structure_compares_identical(
    a: JsonValue,
    b: JsonValue,
    cfg: GenomeConfig,
    counters: Map<Seq<char>, u64>,
    r: crate::similarity::Similarity,
)
    requires
        nesting(a) <= usize::MAX,
        nesting(b) <= usize::MAX,
        same_shape(a, b),
        !cfg.new_id_on_collision,
        crate::similarity::is_comparison(
            r,
            crate::text::utf8(spec_hash(a, cfg, counters).0),
            crate::text::utf8(spec_hash(b, cfg, spec_hash(a, cfg, counters).1).0),
        ),
    ensures
        r.identical,
        r.matched_levels == r.total_levels,
        forall|t: int| 0 <= t < r.level_scores@.len() ==> #[trigger] r.level_scores@[t] is Exact,
{
    law_same_structure_same_id(a, b, cfg, counters, Set::empty());
}

/// A level present in one ID only is compared as missing.
pub proof fn law_missing_level(r: crate::similarity::Similarity, a: Seq<u8>, b: Seq<u8>, l: usize)
    requires
        crate::similarity::is_comparison(r, a, b),
        !r.identical,
        crate::similarity::id_levels(a).contains_key(l) != crate::similarity::id_levels(b).contains_key(l),
    ensures
        exists|t: int| 0 <= t < r.levels@.len() && r.levels@[t] == l && #[trigger] r.level_scores@[t] is Missing,
{
    let t = choose|t: int| 0 <= t < r.levels@.len() && r.levels@[t] == l;
    assert(r.level_scores@[t] is Missing);
}

/// Hexadecimal numerals are never empty and use only `0-9a-f`.
pub proof fn law_hex_digits(n: nat)
    ensures
        crate::text::hex(n).len() > 0,
        forall|i: int|
            0 <= i < crate::text::hex(n).len() ==> {
                let c = #[trigger] crate::text::hex(n)[i];
                ('0' <= c <= '9') || ('a' <= c <= 'f')
            },
    decreases n,
{
    if n >= 16 {
        law_hex_digits(n / 16);
        let h = crate::text::hex(n);
        assert(h == crate::text::hex(n / 16).push(crate::text::digit_char(n % 16)));
        assert forall|i: int| 0 <= i < h.len() implies {
            let c = #[trigger] h[i];
            ('0' <= c <= '9') || ('a' <= c <= 'f')
        } by {
            if i < h.len() - 1 {
                assert(h[i] == crate::text::hex(n / 16)[i]);
            }
        }
    }
}

/// Two values found along `path` are alike for the configuration `cfg`:
/// the same keys and nesting; scalars of one kind, or of any kind when value
/// types are ignored; arrays of one length with alike elements, or, when
/// lengths are ignored, the same shapes of elements in order of first
/// appearance, with alike first elements of each shape.
pub open spec fn alike(a: JsonValue, b: JsonValue, cfg: GenomeConfig, path: Seq<Seq<char>>) -> bool
    decreases a, 0int,
{
    match a {
        JsonValue::Object(m) => match b {
            JsonValue::Object(n) => {
                proof {
                    crate::json::lemma_members_decrease(m);
                }
                m.members().len() == n.members().len() && alike_members(
                    m.members(),
                    n.members(),
                    0,
                    cfg,
                    path,
                )
            },
            _ => false,
        },
        JsonValue::Array(x) => match b {
            JsonValue::Array(y) => if !cfg.ignore_array_length {
                x@.len() == y@.len() && alike_items(x@, y@, 0, cfg, path)
            } else {
                alike_shapes(x@, 0, y@, 0, Set::empty(), cfg, path)
            },
            _ => false,
        },
        _ => !is_container(b) && (cfg.ignore_value_types || spec_type_bit(a) == spec_type_bit(b)),
    }
}

pub open spec fn alike_members(
    s: Seq<(String, JsonValue)>,
    r: Seq<(String, JsonValue)>,
    i: int,
    cfg: GenomeConfig,
    path: Seq<Seq<char>>,
) -> bool
    decreases s, s.len() - i,
{
    if 0 <= i < s.len() {
        &&& i < r.len()
        &&& s[i].0@ == r[i].0@
        &&& alike(s[i].1, r[i].1, cfg, path.push(s[i].0@))
        &&& alike_members(s, r, i + 1, cfg, path)
    } else {
        true
    }
}

pub open spec fn alike_items(
    s: Seq<JsonValue>,
    r: Seq<JsonValue>,
    i: int,
    cfg: GenomeConfig,
    path: Seq<Seq<char>>,
) -> bool
    decreases s, s.len() - i,
{
    if 0 <= i < s.len() {
        &&& i < r.len()
        &&& alike(s[i], r[i], cfg, path.push("[*]"@))
        &&& alike_items(s, r, i + 1, cfg, path)
    } else {
        true
    }
}

/// The elements of two arrays from `i` and `j` on, skipping elements whose
/// shape was seen, are alike one for one.
pub open spec fn alike_shapes(
    x: Seq<JsonValue>,
    i: int,
    y: Seq<JsonValue>,
    j: int,
    seen: Set<Seq<char>>,
    cfg: GenomeConfig,
    path: Seq<Seq<char>>,
) -> bool
    decreases x, (x.len() - i) + (y.len() - j),
{
    if !(0 <= i <= x.len() && 0 <= j <= y.len()) {
        false
    } else if i < x.len() && seen.contains(shape_key(x[i], path, cfg)) {
        alike_shapes(x, i + 1, y, j, seen, cfg, path)
    } else if 0 <= j < y.len() && seen.contains(shape_key(y[j], path, cfg)) {
        alike_shapes(x, i, y, j + 1, seen, cfg, path)
    } else if 0 <= i < x.len() && 0 <= j < y.len() {
        let k = shape_key(x[i], path, cfg);
        &&& k == shape_key(y[j], path, cfg)
        &&& alike(x[i], y[j], cfg, path.push("[*]"@))
        &&& alike_shapes(x, i + 1, y, j + 1, seen.insert(k), cfg, path)
    } else {
        !(0 <= i < x.len()) && !(0 <= j < y.len())
    }
}

proof fn lemma_alike_bits(a: JsonValue, b: JsonValue, cfg: GenomeConfig, path: Seq<Seq<char>>)
    requires
        alike(a, b, cfg, path),
    ensures
        spec_effective_type_bit(a, cfg.ignore_value_types) == spec_effective_type_bit(b, cfg.ignore_value_types),
        is_container(a) == is_container(b),
{
}

proof fn lemma_alike_shapes_empty(x: Seq<JsonValue>, i: int, y: Seq<JsonValue>, j: int, seen: Set<Seq<char>>, cfg: GenomeConfig, path: Seq<Seq<char>>)
    requires
        alike_shapes(x, i, y, j, seen, cfg, path),
        seen.len() == 0,
        seen.finite(),
        i == 0,
        j == 0,
    ensures
        (x.len() == 0) == (y.len() == 0),
{
    if x.len() == 0 && y.len() > 0 {
        assert(!seen.contains(shape_key(y[0], path, cfg)));
    }
    if y.len() == 0 && x.len() > 0 {
        assert(!seen.contains(shape_key(x[0], path, cfg)));
    }
}

/// Alike values walk alike.
pub proof fn lemma_alike_walk(
    a: JsonValue,
    b: JsonValue,
    cfg: GenomeConfig,
    lvl: nat,
    path: Seq<Seq<char>>,
    t: Trace,
)
    requires
        alike(a, b, cfg, path),
    ensures
        walk(a, cfg, lvl, path, t) == walk(b, cfg, lvl, path, t),
    decreases a, 0int,
{
    lemma_alike_bits(a, b, cfg, path);
    let t1 = add_at(enter_level(t, lvl), lvl, spec_effective_type_bit(a, cfg.ignore_value_types));
    match a {
        JsonValue::Object(m) => {
            let n = b->Object_0;
            crate::json::lemma_members_decrease(m);
            lemma_alike_walk_members(m.members(), n.members(), 0, cfg, lvl, path, add_key(t1, lvl, "type:object"@));
        },
        JsonValue::Array(x) => {
            let y = b->Array_0;
            let t2 = add_key(t1, lvl, "type:array"@);
            if !cfg.ignore_array_length {
                lemma_alike_walk_items(x@, y@, 0, cfg, lvl, path, add_key(t2, lvl, length_key(x@.len())));
            } else {
                lemma_alike_walk_shapes(x@, 0, y@, 0, Set::empty(), cfg, lvl, path, t2);
            }
        },
        _ => {},
    }
}

proof fn lemma_alike_walk_members(
    s: Seq<(String, JsonValue)>,
    r: Seq<(String, JsonValue)>,
    i: int,
    cfg: GenomeConfig,
    lvl: nat,
    path: Seq<Seq<char>>,
    t: Trace,
)
    requires
        alike_members(s, r, i, cfg, path),
        s.len() == r.len(),
    ensures
        walk_members(s, i, cfg, lvl, path, t) == walk_members(r, i, cfg, lvl, path, t),
    decreases s, s.len() - i,
{
    if 0 <= i < s.len() {
        lemma_alike_bits(s[i].1, r[i].1, cfg, path.push(s[i].0@));
        let m = (i + 1) as u64;
        let t2 = add_at(add_key_times(t, lvl, s[i].0@, m), lvl, spec_effective_type_bit(s[i].1, cfg.ignore_value_types).wrapping_mul(m));
        lemma_alike_walk(s[i].1, r[i].1, cfg, lvl + 1, path.push(s[i].0@), t2);
        lemma_alike_walk_members(s, r, i + 1, cfg, lvl, path, walk(s[i].1, cfg, lvl + 1, path.push(s[i].0@), t2));
    }
}

proof fn lemma_alike_walk_items(
    s: Seq<JsonValue>,
    r: Seq<JsonValue>,
    i: int,
    cfg: GenomeConfig,
    lvl: nat,
    path: Seq<Seq<char>>,
    t: Trace,
)
    requires
        alike_items(s, r, i, cfg, path),
        s.len() == r.len(),
    ensures
        walk_items(s, i, cfg, lvl, path, t) == walk_items(r, i, cfg, lvl, path, t),
    decreases s, s.len() - i,
{
    if 0 <= i < s.len() {
        lemma_alike_bits(s[i], r[i], cfg, path.push("[*]"@));
        let m = (i + 1) as u64;
        let t2 = add_at(add_key_times(t, lvl, index_key(i as nat), m), lvl, spec_effective_type_bit(s[i], cfg.ignore_value_types).wrapping_mul(m));
        lemma_alike_walk(s[i], r[i], cfg, lvl + 1, path.push("[*]"@), t2);
        lemma_alike_walk_items(s, r, i + 1, cfg, lvl, path, walk(s[i], cfg, lvl + 1, path.push("[*]"@), t2));
    }
}

proof fn lemma_alike_walk_shapes(
    x: Seq<JsonValue>,
    i: int,
    y: Seq<JsonValue>,
    j: int,
    seen: Set<Seq<char>>,
    cfg: GenomeConfig,
    lvl: nat,
    path: Seq<Seq<char>>,
    t: Trace,
)
    requires
        alike_shapes(x, i, y, j, seen, cfg, path),
    ensures
        walk_shapes(x, i, seen, cfg, lvl, path, t) == walk_shapes(y, j, seen, cfg, lvl, path, t),
    decreases x, (x.len() - i) + (y.len() - j),
{
    if i < x.len() && seen.contains(shape_key(x[i], path, cfg)) {
        lemma_alike_walk_shapes(x, i + 1, y, j, seen, cfg, lvl, path, t);
    } else if 0 <= j < y.len() && seen.contains(shape_key(y[j], path, cfg)) {
        lemma_alike_walk_shapes(x, i, y, j + 1, seen, cfg, lvl, path, t);
    } else if 0 <= i < x.len() && 0 <= j < y.len() {
        let k = shape_key(x[i], path, cfg);
        lemma_alike_walk(x[i], y[j], cfg, lvl + 1, path.push("[*]"@), add_key(t, lvl, k));
        lemma_alike_walk_shapes(
            x,
            i + 1,
            y,
            j + 1,
            seen.insert(k),
            cfg,
            lvl,
            path,
            walk(x[i], cfg, lvl + 1, path.push("[*]"@), add_key(t, lvl, k)),
        );
    }
}

/// Alike values get the same ID, and leave the same counters and cached keys
/// behind.
pub proof fn law_alike_same_id(
    a: JsonValue,
    b: JsonValue,
    cfg: GenomeConfig,
    counters: Map<Seq<char>, u64>,
    cached: Set<Seq<char>>,
)
    requires
        nesting(a) <= usize::MAX,
        nesting(b) <= usize::MAX,
        alike(a, b, cfg, Seq::empty()),
    ensures
        spec_hash(a, cfg, counters) == spec_hash(b, cfg, counters),
        hash_cache_keys(a, cfg, cached) == hash_cache_keys(b, cfg, cached),
{
    lemma_alike_bits(a, b, cfg, Seq::empty());
    match a {
        JsonValue::Array(x) => {
            if cfg.ignore_array_length {
                lemma_alike_shapes_empty(x@, 0, b->Array_0@, 0, Set::empty(), cfg, Seq::empty());
            }
        },
        _ => {},
    }
    assert(early_id(a, cfg) == early_id(b, cfg));
    lemma_alike_walk(a, b, cfg, 0, Seq::empty(), (Seq::empty(), Set::empty()));
    lemma_alike_walk(a, b, cfg, 0, Seq::empty(), (Seq::empty(), cached));
}


/// Skipping an element of the second array whose shape was seen does not
/// change whether the rest is alike.
proof fn lemma_alike_shapes_skip_second(
    x: Seq<JsonValue>,
    i: int,
    y: Seq<JsonValue>,
    j: int,
    seen: Set<Seq<char>>,
    cfg: GenomeConfig,
    path: Seq<Seq<char>>,
)
    requires
        0 <= i <= x.len(),
        0 <= j < y.len(),
        seen.contains(shape_key(y[j], path, cfg)),
    ensures
        alike_shapes(x, i, y, j, seen, cfg, path) == alike_shapes(x, i, y, j + 1, seen, cfg, path),
    decreases x.len() - i,
{
    if i < x.len() && seen.contains(shape_key(x[i], path, cfg)) {
        lemma_alike_shapes_skip_second(x, i + 1, y, j, seen, cfg, path);
    }
}

/// Every value is alike to itself.
pub proof fn lemma_alike_refl(v: JsonValue, cfg: GenomeConfig, path: Seq<Seq<char>>)
    ensures
        alike(v, v, cfg, path),
    decreases v, 0int,
{
    match v {
        JsonValue::Object(m) => {
            crate::json::lemma_members_decrease(m);
            lemma_alike_members_refl(m.members(), 0, cfg, path);
        },
        JsonValue::Array(x) => {
            if !cfg.ignore_array_length {
                lemma_alike_items_refl(x@, 0, cfg, path);
            } else {
                lemma_alike_shapes_refl(x@, 0, Set::empty(), cfg, path);
            }
        },
        _ => {},
    }
}

proof fn lemma_alike_members_refl(s: Seq<(String, JsonValue)>, i: int, cfg: GenomeConfig, path: Seq<Seq<char>>)
    ensures
        alike_members(s, s, i, cfg, path),
    decreases s, s.len() - i,
{
    if 0 <= i < s.len() {
        lemma_alike_refl(s[i].1, cfg, path.push(s[i].0@));
        lemma_alike_members_refl(s, i + 1, cfg, path);
    }
}

proof fn lemma_alike_items_refl(s: Seq<JsonValue>, i: int, cfg: GenomeConfig, path: Seq<Seq<char>>)
    ensures
        alike_items(s, s, i, cfg, path),
    decreases s, s.len() - i,
{
    if 0 <= i < s.len() {
        lemma_alike_refl(s[i], cfg, path.push("[*]"@));
        lemma_alike_items_refl(s, i + 1, cfg, path);
    }
}

proof fn lemma_alike_shapes_refl(
    x: Seq<JsonValue>,
    i: int,
    seen: Set<Seq<char>>,
    cfg: GenomeConfig,
    path: Seq<Seq<char>>,
)
    requires
        0 <= i <= x.len(),
    ensures
        alike_shapes(x, i, x, i, seen, cfg, path),
    decreases x, x.len() - i,
{
    if i < x.len() {
        let k = shape_key(x[i], path, cfg);
        if seen.contains(k) {
            lemma_alike_shapes_skip_second(x, i + 1, x, i, seen, cfg, path);
            lemma_alike_shapes_refl(x, i + 1, seen, cfg, path);
        } else {
            lemma_alike_refl(x[i], cfg, path.push("[*]"@));
            lemma_alike_shapes_refl(x, i + 1, seen.insert(k), cfg, path);
        }
    }
}

proof fn lemma_alike_shapes_push(
    x: Seq<JsonValue>,
    e: JsonValue,
    i: int,
    seen: Set<Seq<char>>,
    cfg: GenomeConfig,
    path: Seq<Seq<char>>,
)
    requires
        0 <= i <= x.len(),
        forall|j: int| 0 <= j < i ==> seen.contains(#[trigger] shape_key(x[j], path, cfg)),
        exists|k: int| 0 <= k < x.len() && shape_key(x[k], path, cfg) == shape_key(e, path, cfg),
    ensures
        alike_shapes(x, i, x.push(e), i, seen, cfg, path),
    decreases x.len() - i,
{
    let y = x.push(e);
    if i < x.len() {
        assert(y[i] == x[i]);
        let k = shape_key(x[i], path, cfg);
        if seen.contains(k) {
            lemma_alike_shapes_skip_second(x, i + 1, y, i, seen, cfg, path);
            lemma_alike_shapes_push(x, e, i + 1, seen, cfg, path);
        } else {
            lemma_alike_refl(x[i], cfg, path.push("[*]"@));
            assert forall|j: int| 0 <= j < i + 1 implies seen.insert(k).contains(#[trigger] shape_key(x[j], path, cfg)) by {}
            lemma_alike_shapes_push(x, e, i + 1, seen.insert(k), cfg, path);
        }
    } else {
        let k = choose|k: int| 0 <= k < x.len() && shape_key(x[k], path, cfg) == shape_key(e, path, cfg);
        assert(seen.contains(shape_key(x[k], path, cfg)));
        assert(y[i] == e);
        assert(alike_shapes(x, i, y, i + 1, seen, cfg, path));
    }
}

/// When array lengths are ignored, an array is alike to itself with one more
/// element of a shape that it already holds.
pub proof fn lemma_alike_repeated_shape(
    a: JsonValue,
    b: JsonValue,
    e: JsonValue,
    cfg: GenomeConfig,
    path: Seq<Seq<char>>,
)
    requires
        cfg.ignore_array_length,
        a is Array,
        b is Array,
        b->Array_0@ == a->Array_0@.push(e),
        exists|k: int|
            0 <= k < a->Array_0@.len() && shape_key(a->Array_0@[k], path, cfg) == shape_key(e, path, cfg),
    ensures
        alike(a, b, cfg, path),
{
    lemma_alike_shapes_push(a->Array_0@, e, 0, Set::empty(), cfg, path);
}

/// When array lengths are ignored, appending to an array an element of a
/// shape that it already holds does not change its ID.
pub proof fn law_repeated_shape_same_id(
    a: JsonValue,
    b: JsonValue,
    e: JsonValue,
    cfg: GenomeConfig,
    counters: Map<Seq<char>, u64>,
    cached: Set<Seq<char>>,
)
    requires
        nesting(a) <= usize::MAX,
        nesting(b) <= usize::MAX,
        cfg.ignore_array_length,
        a is Array,
        b is Array,
        b->Array_0@ == a->Array_0@.push(e),
        exists|k: int|
            0 <= k < a->Array_0@.len() && shape_key(a->Array_0@[k], Seq::empty(), cfg)
                == shape_key(e, Seq::empty(), cfg),
    ensures
        spec_hash(a, cfg, counters) == spec_hash(b, cfg, counters),
        hash_cache_keys(a, cfg, cached) == hash_cache_keys(b, cfg, cached),
{
    lemma_alike_repeated_shape(a, b, e, cfg, Seq::empty());
    law_alike_same_id(a, b, cfg, counters, cached);
}


/// A level's outcome seen from the other side.
pub open spec fn swapped(s: LevelScore) -> LevelScore {
    match s {
        LevelScore::Partial { a, b } => LevelScore::Partial { a: b, b: a },
        _ => s,
    }
}

/// Two strictly increasing lists with the same members are the same list.
proof fn lemma_increasing_same_members(s: Seq<usize>, t: Seq<usize>)
    requires
        strictly_increasing(s),
        strictly_increasing(t),
        forall|l: usize| s.contains(l) <==> t.contains(l),
    ensures
        s == t,
    decreases s.len(),
{
    if s.len() == 0 {
        if t.len() > 0 {
            assert(t.contains(t[0]));
        }
        assert(t =~= s);
    } else {
        assert(s.contains(s[0]));
        let k = choose|k: int| 0 <= k < t.len() && t[k] == s[0];
        assert(t.contains(t[0]));
        let m = choose|m: int| 0 <= m < s.len() && s[m] == t[0];
        assert(k == 0) by {
            if k > 0 {
                assert(t[0] < t[k]);
                if m > 0 {
                    assert(s[0] < s[m]);
                }
            }
        }
        let s1 = s.drop_first();
        let t1 = t.drop_first();
        assert forall|l: usize| s1.contains(l) <==> t1.contains(l) by {
            if s1.contains(l) {
                let i = choose|i: int| 0 <= i < s1.len() && s1[i] == l;
                assert(s[i + 1] == l);
                assert(s.contains(l));
                let j = choose|j: int| 0 <= j < t.len() && t[j] == l;
                assert(s[0] < s[i + 1]);
                assert(j != 0);
                assert(t1[j - 1] == l);
            }
            if t1.contains(l) {
                let i = choose|i: int| 0 <= i < t1.len() && t1[i] == l;
                assert(t[i + 1] == l);
                assert(t.contains(l));
                let j = choose|j: int| 0 <= j < s.len() && s[j] == l;
                assert(t[0] < t[i + 1]);
                assert(j != 0);
                assert(s1[j - 1] == l);
            }
        }
        lemma_increasing_same_members(s1, t1);
        assert(s =~= seq![s[0]] + s1);
        assert(t =~= seq![t[0]] + t1);
    }
}

/// Lists with exact outcomes in the same places count as many matches.
proof fn lemma_exact_count_swapped(s: Seq<LevelScore>, t: Seq<LevelScore>)
    requires
        s.len() == t.len(),
        forall|i: int| 0 <= i < s.len() ==> #[trigger] t[i] == swapped(s[i]),
    ensures
        exact_count(s) == exact_count(t),
    decreases s.len(),
{
    if s.len() > 0 {
        lemma_exact_count_swapped(s.drop_last(), t.drop_last());
        assert(t.last() == swapped(s.last()));
    }
}

/// Comparing two IDs the other way round finds the same levels, the same
/// number of matches and each level's outcome seen from the other side, so
/// the same score.
pub proof fn law_compare_symmetric(r1: Similarity, r2: Similarity, a: Seq<u8>, b: Seq<u8>)
    requires
        is_comparison(r1, a, b),
        is_comparison(r2, b, a),
    ensures
        r1.identical == r2.identical,
        r1.total_levels == r2.total_levels,
        r1.matched_levels == r2.matched_levels,
        r1.levels@ == r2.levels@,
        r1.level_scores@.len() == r2.level_scores@.len(),
        forall|t: int| 0 <= t < r1.level_scores@.len() ==> #[trigger] r2.level_scores@[t] == swapped(r1.level_scores@[t]),
{
    if !r1.identical {
        let ma = crate::similarity::id_levels(a);
        let mb = crate::similarity::id_levels(b);
        assert forall|l: usize| r1.levels@.contains(l) <==> r2.levels@.contains(l) by {
            if r1.levels@.contains(l) {
                assert(ma.contains_key(l) || mb.contains_key(l));
            }
            if r2.levels@.contains(l) {
                assert(ma.contains_key(l) || mb.contains_key(l));
            }
        }
        lemma_increasing_same_members(r1.levels@, r2.levels@);
        assert forall|t: int| 0 <= t < r1.level_scores@.len() implies #[trigger] r2.level_scores@[t] == swapped(r1.level_scores@[t]) by {
            let l = r1.levels@[t];
            assert(r1.level_scores@[t] == level_score(lookup(ma, l), lookup(mb, l)));
            assert(r2.level_scores@[t] == level_score(lookup(mb, l), lookup(ma, l)));
        }
        lemma_exact_count_swapped(r1.level_scores@, r2.level_scores@);
    }
}


pub open spec fn max_nat(a: nat, b: nat) -> nat {
    if a >= b {
        a
    } else {
        b
    }
}

/// How many levels below its own a value reaches when walked along `path`:
/// 0 for a scalar or an empty container, else one more than its deepest
/// walked child. When array lengths are ignored, only the first element of
/// each shape is walked.
pub open spec fn height(v: JsonValue, cfg: GenomeConfig, path: Seq<Seq<char>>) -> nat
    decreases v, 0int,
{
    match v {
        JsonValue::Object(m) => {
            proof {
                crate::json::lemma_members_decrease(m);
            }
            if m.members().len() == 0 {
                0
            } else {
                1 + height_members(m.members(), 0, cfg, path)
            }
        },
        JsonValue::Array(x) => if x@.len() == 0 {
            0
        } else if !cfg.ignore_array_length {
            1 + height_items(x@, 0, cfg, path)
        } else {
            1 + height_shapes(x@, 0, Set::empty(), cfg, path)
        },
        _ => 0,
    }
}

pub open spec fn height_members(s: Seq<(String, JsonValue)>, i: int, cfg: GenomeConfig, path: Seq<Seq<char>>) -> nat
    decreases s, s.len() - i,
{
    if 0 <= i < s.len() {
        max_nat(height(s[i].1, cfg, path.push(s[i].0@)), height_members(s, i + 1, cfg, path))
    } else {
        0
    }
}

pub open spec fn height_items(s: Seq<JsonValue>, i: int, cfg: GenomeConfig, path: Seq<Seq<char>>) -> nat
    decreases s, s.len() - i,
{
    if 0 <= i < s.len() {
        max_nat(height(s[i], cfg, path.push("[*]"@)), height_items(s, i + 1, cfg, path))
    } else {
        0
    }
}

pub open spec fn height_shapes(
    s: Seq<JsonValue>,
    i: int,
    seen: Set<Seq<char>>,
    cfg: GenomeConfig,
    path: Seq<Seq<char>>,
) -> nat
    decreases s, s.len() - i,
{
    if 0 <= i < s.len() {
        let k = shape_key(s[i], path, cfg);
        if seen.contains(k) {
            height_shapes(s, i + 1, seen, cfg, path)
        } else {
            max_nat(height(s[i], cfg, path.push("[*]"@)), height_shapes(s, i + 1, seen.insert(k), cfg, path))
        }
    } else {
        0
    }
}

/// A walk at depth `lvl` has exactly the levels it was given and those
/// down to the depth that the value reaches.
proof fn lemma_walk_len_exact(v: JsonValue, cfg: GenomeConfig, lvl: nat, path: Seq<Seq<char>>, t: Trace)
    requires
        lvl <= t.0.len(),
    ensures
        walk(v, cfg, lvl, path, t).0.len() == max_nat(t.0.len(), lvl + 1 + height(v, cfg, path)),
    decreases v, 0int,
{
    let t1 = add_at(enter_level(t, lvl), lvl, spec_effective_type_bit(v, cfg.ignore_value_types));
    assert(t1.0.len() == max_nat(t.0.len(), lvl + 1));
    match v {
        JsonValue::Object(m) => {
            crate::json::lemma_members_decrease(m);
            lemma_walk_members_len_exact(m.members(), 0, cfg, lvl, path, add_key(t1, lvl, "type:object"@));
        },
        JsonValue::Array(x) => {
            let t2 = add_key(t1, lvl, "type:array"@);
            if !cfg.ignore_array_length {
                lemma_walk_items_len_exact(x@, 0, cfg, lvl, path, add_key(t2, lvl, length_key(x@.len())));
            } else {
                lemma_walk_shapes_len_exact(x@, 0, Set::empty(), cfg, lvl, path, t2);
                if x@.len() > 0 {
                    assert(!Set::<Seq<char>>::empty().contains(shape_key(x@[0], path, cfg)));
                }
            }
        },
        _ => {},
    }
}

proof fn lemma_walk_members_len_exact(
    s: Seq<(String, JsonValue)>,
    i: int,
    cfg: GenomeConfig,
    lvl: nat,
    path: Seq<Seq<char>>,
    t: Trace,
)
    requires
        lvl < t.0.len(),
        0 <= i,
    ensures
        walk_members(s, i, cfg, lvl, path, t).0.len() == if i < s.len() {
            max_nat(t.0.len(), lvl + 2 + height_members(s, i, cfg, path))
        } else {
            t.0.len()
        },
    decreases s, s.len() - i,
{
    if i < s.len() {
        let m = (i + 1) as u64;
        let t2 = add_at(add_key_times(t, lvl, s[i].0@, m), lvl, spec_effective_type_bit(s[i].1, cfg.ignore_value_types).wrapping_mul(m));
        lemma_walk_len_exact(s[i].1, cfg, lvl + 1, path.push(s[i].0@), t2);
        lemma_walk_members_len_exact(s, i + 1, cfg, lvl, path, walk(s[i].1, cfg, lvl + 1, path.push(s[i].0@), t2));
    }
}

proof fn lemma_walk_items_len_exact(
    s: Seq<JsonValue>,
    i: int,
    cfg: GenomeConfig,
    lvl: nat,
    path: Seq<Seq<char>>,
    t: Trace,
)
    requires
        lvl < t.0.len(),
        0 <= i,
    ensures
        walk_items(s, i, cfg, lvl, path, t).0.len() == if i < s.len() {
            max_nat(t.0.len(), lvl + 2 + height_items(s, i, cfg, path))
        } else {
            t.0.len()
        },
    decreases s, s.len() - i,
{
    if i < s.len() {
        let m = (i + 1) as u64;
        let t2 = add_at(add_key_times(t, lvl, index_key(i as nat), m), lvl, spec_effective_type_bit(s[i], cfg.ignore_value_types).wrapping_mul(m));
        lemma_walk_len_exact(s[i], cfg, lvl + 1, path.push("[*]"@), t2);
        lemma_walk_items_len_exact(s, i + 1, cfg, lvl, path, walk(s[i], cfg, lvl + 1, path.push("[*]"@), t2));
    }
}

/// Whether an element from the `i`-th on has a shape not seen yet.
pub open spec fn unseen_from(s: Seq<JsonValue>, i: int, seen: Set<Seq<char>>, path: Seq<Seq<char>>, cfg: GenomeConfig) -> bool {
    exists|j: int| i <= j < s.len() && !seen.contains(#[trigger] shape_key(s[j], path, cfg))
}

proof fn lemma_walk_shapes_len_exact(
    s: Seq<JsonValue>,
    i: int,
    seen: Set<Seq<char>>,
    cfg: GenomeConfig,
    lvl: nat,
    path: Seq<Seq<char>>,
    t: Trace,
)
    requires
        lvl < t.0.len(),
        0 <= i,
    ensures
        walk_shapes(s, i, seen, cfg, lvl, path, t).0.len() == if unseen_from(s, i, seen, path, cfg) {
            max_nat(t.0.len(), lvl + 2 + height_shapes(s, i, seen, cfg, path))
        } else {
            t.0.len()
        },
    decreases s, s.len() - i,
{
    if i < s.len() {
        let k = shape_key(s[i], path, cfg);
        if seen.contains(k) {
            lemma_walk_shapes_len_exact(s, i + 1, seen, cfg, lvl, path, t);
            if unseen_from(s, i, seen, path, cfg) {
                let j = choose|j: int| i <= j < s.len() && !seen.contains(#[trigger] shape_key(s[j], path, cfg));
                assert(j != i);
                assert(unseen_from(s, i + 1, seen, path, cfg));
            }
            if unseen_from(s, i + 1, seen, path, cfg) {
                let j = choose|j: int| i + 1 <= j < s.len() && !seen.contains(#[trigger] shape_key(s[j], path, cfg));
                assert(unseen_from(s, i, seen, path, cfg));
            }
        } else {
            let t2 = add_key(t, lvl, k);
            lemma_walk_len_exact(s[i], cfg, lvl + 1, path.push("[*]"@), t2);
            lemma_walk_shapes_len_exact(s, i + 1, seen.insert(k), cfg, lvl, path, walk(s[i], cfg, lvl + 1, path.push("[*]"@), t2));
            assert(unseen_from(s, i, seen, path, cfg));
            if !unseen_from(s, i + 1, seen.insert(k), path, cfg) {
                assert(height_shapes(s, i + 1, seen.insert(k), cfg, path) == 0) by {
                    lemma_height_shapes_none(s, i + 1, seen.insert(k), cfg, path);
                }
            }
        }
    }
}

proof fn lemma_height_shapes_none(
    s: Seq<JsonValue>,
    i: int,
    seen: Set<Seq<char>>,
    cfg: GenomeConfig,
    path: Seq<Seq<char>>,
)
    requires
        !unseen_from(s, i, seen, path, cfg),
        0 <= i,
    ensures
        height_shapes(s, i, seen, cfg, path) == 0,
    decreases s.len() - i,
{
    if i < s.len() {
        assert(seen.contains(shape_key(s[i], path, cfg)));
        lemma_height_shapes_none(s, i + 1, seen, cfg, path);
    }
}

/// A walked value's ID has one level per depth that the value reaches:
/// reading the ID back gives the levels 0 to its height, and no other.
pub proof fn law_levels_are_depths(v: JsonValue, cfg: GenomeConfig, counters: Map<Seq<char>, u64>)
    requires
        nesting(v) <= usize::MAX,
        early_id(v, cfg) is None,
        height(v, cfg, Seq::empty()) < usize::MAX,
    ensures
        structure_levels(v, cfg).len() == height(v, cfg, Seq::empty()) + 1,
        forall|l: usize|
            #[trigger] crate::similarity::id_levels(crate::text::utf8(spec_hash(v, cfg, counters).0)).contains_key(l)
                <==> l <= height(v, cfg, Seq::empty()),
{
    lemma_walk_len_exact(v, cfg, 0, Seq::empty(), (Seq::empty(), Set::empty()));
    let levels = structure_levels(v, cfg);
    if cfg.new_id_on_collision {
        let c = counter_of(counters, levels_id(levels, 1));
        law_ids_read_back(levels.update(0, c));
    } else {
        law_ids_read_back(levels);
    }
}


proof fn lemma_exact_count_bound(s: Seq<LevelScore>)
    ensures
        exact_count(s) <= s.len(),
        exact_count(s) == s.len() <==> forall|i: int| 0 <= i < s.len() ==> #[trigger] s[i] is Exact,
    decreases s.len(),
{
    if s.len() > 0 {
        let p = s.drop_last();
        lemma_exact_count_bound(p);
        if exact_count(s) == s.len() {
            assert forall|i: int| 0 <= i < s.len() implies #[trigger] s[i] is Exact by {
                if i < s.len() - 1 {
                    assert(p[i] == s[i]);
                }
            }
        }
        if forall|i: int| 0 <= i < s.len() ==> #[trigger] s[i] is Exact {
            assert forall|i: int| 0 <= i < p.len() implies #[trigger] p[i] is Exact by {
                assert(s[i] is Exact);
            }
            assert(s[s.len() - 1] is Exact);
        }
    }
}

/// Every comparison has one outcome per level, and at most as many exact
/// matches as levels, all of them exactly when every level matches.
pub proof fn law_comparison_counts(r: Similarity, a: Seq<u8>, b: Seq<u8>)
    requires
        is_comparison(r, a, b),
    ensures
        r.level_scores@.len() == r.total_levels,
        r.matched_levels <= r.total_levels,
        r.matched_levels == r.total_levels <==> forall|t: int|
            0 <= t < r.level_scores@.len() ==> #[trigger] r.level_scores@[t] is Exact,
{
    if !r.identical {
        lemma_exact_count_bound(r.level_scores@);
    }
}

/// Outside collision mode a signature is the whole ID, whatever the other
/// flags: L0 holds structure there and is kept.
pub proof fn law_signature_is_id_outside_collision(id: Seq<char>, cfg: GenomeConfig)
    requires
        !cfg.new_id_on_collision,
    ensures
        signature_of_id(id, cfg) == id,
{
}

/// The shape key of a container element of the array reached along `path`
/// begins with the path: its keys joined by `.`, then `.[*]` (just `[*]`
/// for the top-level array).
pub proof fn law_shape_key_holds_path(item: JsonValue, path: Seq<Seq<char>>, cfg: GenomeConfig)
    requires
        is_container(item),
    ensures
        ({
            let pre = if path.len() == 0 {
                "[*]"@
            } else {
                crate::text::join(path, "."@) + ".[*]"@
            };
            &&& shape_key(item, path, cfg).len() >= pre.len()
            &&& shape_key(item, path, cfg).take(pre.len() as int) == pre
        }),
{
    crate::text::lemma_join_push(path, "."@, "[*]"@);
    let p = crate::text::join(path.push("[*]"@), "."@);
    let k = shape_key(item, path, cfg);
    if path.len() != 0 {
        assert(p =~= crate::text::join(path, "."@) + ".[*]"@) by {
            reveal_strlit(".");
            reveal_strlit("[*]");
            reveal_strlit(".[*]");
        }
    }
    match item {
        JsonValue::Object(m) => {
            let r = ".{"@ + crate::text::join(member_descs(m.members(), cfg.ignore_value_types), ","@) + "}"@;
            assert(k =~= p + r);
            assert((p + r).take(p.len() as int) =~= p);
        },
        JsonValue::Array(a) => {
            let r = ".["@ + crate::text::join(crate::genome::element_kinds(a@, cfg.ignore_value_types, 6), ","@)
                + "]"@;
            assert(k =~= p + r);
            assert((p + r).take(p.len() as int) =~= p);
        },
        _ => {},
    }
}

/// Outside ignored value types, a scalar element's shape key is `scalar:`
/// followed by its own JSON type name.
pub proof fn law_scalar_shape_key(item: JsonValue, path: Seq<Seq<char>>, cfg: GenomeConfig)
    requires
        !cfg.ignore_value_types,
        !is_container(item),
    ensures
        shape_key(item, path, cfg) == "scalar:"@ + match item {
            JsonValue::Null => "null"@,
            JsonValue::Bool(_) => "boolean"@,
            JsonValue::Number(_) => "number"@,
            _ => "string"@,
        },
{
}

/// Outside ignored value types, two values have the same kind exactly when
/// they are of the same JSON type; with value types ignored, every scalar
/// has one kind, and containers keep theirs.
pub proof fn law_kinds_tell_types_apart(a: JsonValue, b: JsonValue)
    ensures
        (kind_index(a, false) == kind_index(b, false)) <==> ((a is Null && b is Null) || (a is Bool && b is Bool)
            || (a is Number && b is Number) || (a is String && b is String) || (a is Array && b is Array) || (
        a is Object && b is Object)),
        (kind_index(a, true) == kind_index(b, true)) <==> ((!is_container(a) && !is_container(b)) || (a is Array
            && b is Array) || (a is Object && b is Object)),
{
}

} // verus!
