//! The structural hasher.

use vstd::prelude::*;

use crate::json::{JsonMap, JsonValue};
use crate::similarity::{compare_ids, Similarity};
use crate::table::StrTable;
use crate::text::push_dec;
use crate::xxhash::xx_hash32;
use crate::sums::{add_sum, next_level, start_sum, walk_sums, walk_sums_items, walk_sums_members, walk_sums_shapes};
use std::collections::HashMap;

verus! {

/// Configuration for the hasher.
#[derive(Debug, Clone)]
pub struct GenomeConfig {
    /// L0 is replaced with a counter, so that structurally identical values
    /// receive distinct IDs.
    pub new_id_on_collision: bool,
    /// Arrays with different lengths but the same element shapes produce the
    /// same ID.
    pub ignore_array_length: bool,
    /// All scalar types are treated alike: the kinds of scalar values no
    /// longer affect the ID, while key names, nesting depth and (unless
    /// array lengths are ignored) array lengths and positions still do.
    pub ignore_value_types: bool,
}

impl Default for GenomeConfig {
    fn default() -> (c: GenomeConfig)
        ensures
            !c.new_id_on_collision,
            !c.ignore_array_length,
            !c.ignore_value_types,
    {
        GenomeConfig {
            new_id_on_collision: false,
            ignore_array_length: false,
            ignore_value_types: false,
        }
    }
}

/// The bit that stands for the kind of a value.
pub open spec fn spec_type_bit(v: JsonValue) -> u64 {
    match v {
        JsonValue::Null => 16,
        JsonValue::Bool(_) => 4,
        JsonValue::Number(_) => 1,
        JsonValue::String(_) => 2,
        JsonValue::Array(_) => 256,
        JsonValue::Object(_) => 128,
    }
}

pub open spec fn is_container(v: JsonValue) -> bool {
    v is Object || v is Array
}

/// The kind bit, with every scalar counted as a string when value types are
/// ignored.
pub open spec fn spec_effective_type_bit(v: JsonValue, ignore_value_types: bool) -> u64 {
    if ignore_value_types && !is_container(v) {
        2
    } else {
        spec_type_bit(v)
    }
}

/// The index of a value's kind among `null`, `boolean`, `number`, `string`,
/// `array`, `object`; every scalar counts as a string when value types are
/// ignored.
pub open spec fn kind_index(v: JsonValue, ignore_value_types: bool) -> nat {
    if ignore_value_types && !is_container(v) {
        3
    } else {
        match v {
            JsonValue::Null => 0,
            JsonValue::Bool(_) => 1,
            JsonValue::Number(_) => 2,
            JsonValue::String(_) => 3,
            JsonValue::Array(_) => 4,
            JsonValue::Object(_) => 5,
        }
    }
}

/// The name of the kind with index `k`.
pub open spec fn kind_name(k: nat) -> Seq<char> {
    if k == 0 {
        "null"@
    } else if k == 1 {
        "boolean"@
    } else if k == 2 {
        "number"@
    } else if k == 3 {
        "string"@
    } else if k == 4 {
        "array"@
    } else {
        "object"@
    }
}

/// The name of a value's kind, as value types are or are not ignored.
pub open spec fn spec_kind_name(v: JsonValue, ignore_value_types: bool) -> Seq<char> {
    kind_name(kind_index(v, ignore_value_types))
}

/// The bit that a key string contributes: its xxHash32 with seed 0.
pub open spec fn key_bit(k: Seq<char>) -> u64 {
    crate::xxhash::xxh32(crate::text::utf8(k), 0) as u64
}

/// What a walk over a value has built so far: the sum for each level, and the
/// key strings whose bits it has asked for.
pub type Trace = (Seq<u64>, Set<Seq<char>>);

pub open spec fn enter_level(t: Trace, lvl: nat) -> Trace {
    if lvl == t.0.len() {
        (t.0.push(1u64.wrapping_shl(lvl as u32)), t.1)
    } else {
        t
    }
}

pub open spec fn add_at(t: Trace, lvl: nat, x: u64) -> Trace {
    (t.0.update(lvl as int, t.0[lvl as int].wrapping_add(x)), t.1)
}

pub open spec fn add_key(t: Trace, lvl: nat, key: Seq<char>) -> Trace {
    (t.0.update(lvl as int, t.0[lvl as int].wrapping_add(key_bit(key))), t.1.insert(key))
}

pub open spec fn add_key_times(t: Trace, lvl: nat, key: Seq<char>, m: u64) -> Trace {
    (t.0.update(lvl as int, t.0[lvl as int].wrapping_add(key_bit(key).wrapping_mul(m))), t.1.insert(key))
}

pub open spec fn str_views(p: Seq<String>) -> Seq<Seq<char>> {
    p.map_values(|s: String| s@)
}

/// Each member as `key:kind`.
pub open spec fn member_descs(s: Seq<(String, JsonValue)>, ignore_value_types: bool) -> Seq<Seq<char>> {
    s.map_values(|e: (String, JsonValue)| e.0@ + ":"@ + spec_kind_name(e.1, ignore_value_types))
}

/// Whether some element is of the kind with index `k`.
pub open spec fn has_kind(items: Seq<JsonValue>, k: nat, ignore_value_types: bool) -> bool {
    exists|j: int| 0 <= j < items.len() && #[trigger] kind_index(items[j], ignore_value_types) == k
}

/// The names of the kinds below index `k` that occur among the elements, in
/// the order of their indices.
pub open spec fn element_kinds(items: Seq<JsonValue>, ignore_value_types: bool, k: nat) -> Seq<Seq<char>>
    decreases k,
{
    if k == 0 {
        Seq::empty()
    } else {
        let p = element_kinds(items, ignore_value_types, (k - 1) as nat);
        if has_kind(items, (k - 1) as nat, ignore_value_types) {
            p.push(kind_name((k - 1) as nat))
        } else {
            p
        }
    }
}

/// The key under which an array element's shape is hashed when array
/// lengths are ignored: for an object, its keys with the kinds of their
/// values; for an array, the kinds of its elements, not its length; for a
/// scalar, its kind.
pub open spec fn shape_key(item: JsonValue, path: Seq<Seq<char>>, cfg: GenomeConfig) -> Seq<char> {
    let p = crate::text::join(path.push("[*]"@), "."@);
    match item {
        JsonValue::Object(m) => p + ".{"@ + crate::text::join(
            member_descs(m.members(), cfg.ignore_value_types),
            ","@,
        ) + "}"@,
        JsonValue::Array(a) => p + ".["@ + crate::text::join(
            element_kinds(a@, cfg.ignore_value_types, 6),
            ","@,
        ) + "]"@,
        _ => "scalar:"@ + spec_kind_name(item, cfg.ignore_value_types),
    }
}

pub open spec fn index_key(i: nat) -> Seq<char> {
    "["@ + crate::text::dec(i) + "]"@
}

pub open spec fn length_key(n: nat) -> Seq<char> {
    "length:"@ + crate::text::dec(n)
}

/// The walk over `v` at depth `lvl`, reached along `path`.
pub open spec fn walk(v: JsonValue, cfg: GenomeConfig, lvl: nat, path: Seq<Seq<char>>, t: Trace) -> Trace
    decreases v, 0int,
{
    let t1 = add_at(enter_level(t, lvl), lvl, spec_effective_type_bit(v, cfg.ignore_value_types));
    match v {
        JsonValue::Object(m) => {
            proof {
                crate::json::lemma_members_decrease(m);
            }
            walk_members(m.members(), 0, cfg, lvl, path, add_key(t1, lvl, "type:object"@))
        },
        JsonValue::Array(items) => {
            let t2 = add_key(t1, lvl, "type:array"@);
            if !cfg.ignore_array_length {
                walk_items(items@, 0, cfg, lvl, path, add_key(t2, lvl, length_key(items@.len())))
            } else {
                add_key(
                    walk_shapes(items@, 0, Set::empty(), cfg, lvl, path, t2),
                    lvl,
                    "array:variadic"@,
                )
            }
        },
        _ => t1,
    }
}

/// The walk over the members of an object from the `i`-th on.
pub open spec fn walk_members(
    s: Seq<(String, JsonValue)>,
    i: int,
    cfg: GenomeConfig,
    lvl: nat,
    path: Seq<Seq<char>>,
    t: Trace,
) -> Trace
    decreases s, s.len() - i,
{
    if 0 <= i < s.len() {
        let m = (i + 1) as u64;
        let t1 = add_key_times(t, lvl, s[i].0@, m);
        let t2 = add_at(t1, lvl, spec_effective_type_bit(s[i].1, cfg.ignore_value_types).wrapping_mul(m));
        walk_members(s, i + 1, cfg, lvl, path, walk(s[i].1, cfg, lvl + 1, path.push(s[i].0@), t2))
    } else {
        t
    }
}

/// The walk over the elements of an array from the `i`-th on.
pub open spec fn walk_items(
    s: Seq<JsonValue>,
    i: int,
    cfg: GenomeConfig,
    lvl: nat,
    path: Seq<Seq<char>>,
    t: Trace,
) -> Trace
    decreases s, s.len() - i,
{
    if 0 <= i < s.len() {
        let m = (i + 1) as u64;
        let t1 = add_key_times(t, lvl, index_key(i as nat), m);
        let t2 = add_at(t1, lvl, spec_effective_type_bit(s[i], cfg.ignore_value_types).wrapping_mul(m));
        walk_items(s, i + 1, cfg, lvl, path, walk(s[i], cfg, lvl + 1, path.push("[*]"@), t2))
    } else {
        t
    }
}

/// The walk over the elements of an array from the `i`-th on when lengths
/// are ignored: only the first element of each shape is walked.
pub open spec fn walk_shapes(
    s: Seq<JsonValue>,
    i: int,
    seen: Set<Seq<char>>,
    cfg: GenomeConfig,
    lvl: nat,
    path: Seq<Seq<char>>,
    t: Trace,
) -> Trace
    decreases s, s.len() - i,
{
    if 0 <= i < s.len() {
        let k = shape_key(s[i], path, cfg);
        if seen.contains(k) {
            walk_shapes(s, i + 1, seen, cfg, lvl, path, t)
        } else {
            walk_shapes(
                s,
                i + 1,
                seen.insert(k),
                cfg,
                lvl,
                path,
                walk(s[i], cfg, lvl + 1, path.push("[*]"@), add_key(t, lvl, k)),
            )
        }
    } else {
        t
    }
}

/// The levels of a walk do not depend on which key strings were asked for
/// before it.
pub proof fn lemma_walk_levels(
    v: JsonValue,
    cfg: GenomeConfig,
    lvl: nat,
    path: Seq<Seq<char>>,
    l: Seq<u64>,
    s1: Set<Seq<char>>,
    s2: Set<Seq<char>>,
)
    ensures
        walk(v, cfg, lvl, path, (l, s1)).0 == walk(v, cfg, lvl, path, (l, s2)).0,
    decreases v, 0int,
{
    let t1 = add_at(enter_level((l, s1), lvl), lvl, spec_effective_type_bit(v, cfg.ignore_value_types));
    let t2 = add_at(enter_level((l, s2), lvl), lvl, spec_effective_type_bit(v, cfg.ignore_value_types));
    match v {
        JsonValue::Object(m) => {
            crate::json::lemma_members_decrease(m);
            let a = add_key(t1, lvl, "type:object"@);
            let b = add_key(t2, lvl, "type:object"@);
            lemma_walk_members_levels(m.members(), 0, cfg, lvl, path, a.0, a.1, b.1);
        },
        JsonValue::Array(items) => {
            let a = add_key(t1, lvl, "type:array"@);
            let b = add_key(t2, lvl, "type:array"@);
            if !cfg.ignore_array_length {
                let a2 = add_key(a, lvl, length_key(items@.len()));
                let b2 = add_key(b, lvl, length_key(items@.len()));
                lemma_walk_items_levels(items@, 0, cfg, lvl, path, a2.0, a2.1, b2.1);
            } else {
                lemma_walk_shapes_levels(items@, 0, Set::empty(), cfg, lvl, path, a.0, a.1, b.1);
            }
        },
        _ => {},
    }
}

pub proof fn lemma_walk_members_levels(
    s: Seq<(String, JsonValue)>,
    i: int,
    cfg: GenomeConfig,
    lvl: nat,
    path: Seq<Seq<char>>,
    l: Seq<u64>,
    s1: Set<Seq<char>>,
    s2: Set<Seq<char>>,
)
    ensures
        walk_members(s, i, cfg, lvl, path, (l, s1)).0 == walk_members(s, i, cfg, lvl, path, (l, s2)).0,
    decreases s, s.len() - i,
{
    if 0 <= i < s.len() {
        let m = (i + 1) as u64;
        let a = add_at(add_key_times((l, s1), lvl, s[i].0@, m), lvl, spec_effective_type_bit(s[i].1, cfg.ignore_value_types).wrapping_mul(m));
        let b = add_at(add_key_times((l, s2), lvl, s[i].0@, m), lvl, spec_effective_type_bit(s[i].1, cfg.ignore_value_types).wrapping_mul(m));
        lemma_walk_levels(s[i].1, cfg, lvl + 1, path.push(s[i].0@), a.0, a.1, b.1);
        let a2 = walk(s[i].1, cfg, lvl + 1, path.push(s[i].0@), a);
        let b2 = walk(s[i].1, cfg, lvl + 1, path.push(s[i].0@), b);
        lemma_walk_members_levels(s, i + 1, cfg, lvl, path, a2.0, a2.1, b2.1);
    }
}

pub proof fn lemma_walk_items_levels(
    s: Seq<JsonValue>,
    i: int,
    cfg: GenomeConfig,
    lvl: nat,
    path: Seq<Seq<char>>,
    l: Seq<u64>,
    s1: Set<Seq<char>>,
    s2: Set<Seq<char>>,
)
    ensures
        walk_items(s, i, cfg, lvl, path, (l, s1)).0 == walk_items(s, i, cfg, lvl, path, (l, s2)).0,
    decreases s, s.len() - i,
{
    if 0 <= i < s.len() {
        let m = (i + 1) as u64;
        let a = add_at(add_key_times((l, s1), lvl, index_key(i as nat), m), lvl, spec_effective_type_bit(s[i], cfg.ignore_value_types).wrapping_mul(m));
        let b = add_at(add_key_times((l, s2), lvl, index_key(i as nat), m), lvl, spec_effective_type_bit(s[i], cfg.ignore_value_types).wrapping_mul(m));
        lemma_walk_levels(s[i], cfg, lvl + 1, path.push("[*]"@), a.0, a.1, b.1);
        let a2 = walk(s[i], cfg, lvl + 1, path.push("[*]"@), a);
        let b2 = walk(s[i], cfg, lvl + 1, path.push("[*]"@), b);
        lemma_walk_items_levels(s, i + 1, cfg, lvl, path, a2.0, a2.1, b2.1);
    }
}

pub proof fn lemma_walk_shapes_levels(
    s: Seq<JsonValue>,
    i: int,
    seen: Set<Seq<char>>,
    cfg: GenomeConfig,
    lvl: nat,
    path: Seq<Seq<char>>,
    l: Seq<u64>,
    s1: Set<Seq<char>>,
    s2: Set<Seq<char>>,
)
    ensures
        walk_shapes(s, i, seen, cfg, lvl, path, (l, s1)).0 == walk_shapes(s, i, seen, cfg, lvl, path, (l, s2)).0,
    decreases s, s.len() - i,
{
    if 0 <= i < s.len() {
        let k = shape_key(s[i], path, cfg);
        if seen.contains(k) {
            lemma_walk_shapes_levels(s, i + 1, seen, cfg, lvl, path, l, s1, s2);
        } else {
            let a = add_key((l, s1), lvl, k);
            let b = add_key((l, s2), lvl, k);
            lemma_walk_levels(s[i], cfg, lvl + 1, path.push("[*]"@), a.0, a.1, b.1);
            let a2 = walk(s[i], cfg, lvl + 1, path.push("[*]"@), a);
            let b2 = walk(s[i], cfg, lvl + 1, path.push("[*]"@), b);
            lemma_walk_shapes_levels(s, i + 1, seen.insert(k), cfg, lvl, path, a2.0, a2.1, b2.1);
        }
    }
}

/// The level sums of a value, from level 0 on: the walk from level 0 with
/// nothing before it. For a value nested deeper than `usize::MAX`, where
/// the levels of the sums keyed by level wrap around, they are read from
/// those sums directly; everywhere else the two agree
/// (`crate::sums::lemma_walk_sums`).
pub open spec fn structure_levels(v: JsonValue, cfg: GenomeConfig) -> Seq<u64> {
    if crate::sums::nesting(v) <= usize::MAX {
        walk(v, cfg, 0, Seq::empty(), (Seq::empty(), Set::empty())).0
    } else {
        crate::sums::sums_from(
            crate::sums::walk_sums(v, cfg, 0, Seq::empty(), (Map::empty(), Set::empty())).0,
            0,
        )
    }
}

/// One part of an identifier: `L<level>:<hash>`.
pub open spec fn level_part(i: nat, h: u64) -> Seq<char> {
    "L"@ + crate::text::dec(i) + ":"@ + crate::text::dec(h as nat)
}

/// The parts for the levels from `from` on.
pub open spec fn level_parts(levels: Seq<u64>, from: nat) -> Seq<Seq<char>> {
    Seq::new(
        (levels.len() - from) as nat,
        |j: int| level_part((from + j) as nat, levels[from + j]),
    )
}

/// The identifier made of the levels from `from` on, joined with `-`.
pub open spec fn levels_id(levels: Seq<u64>, from: nat) -> Seq<char> {
    crate::text::join(level_parts(levels, from), "-"@)
}

/// The identifier of a value that needs no walk: an empty container, or a
/// scalar.
pub open spec fn early_id(v: JsonValue, cfg: GenomeConfig) -> Option<Seq<char>> {
    match v {
        JsonValue::Object(m) => if m.members().len() == 0 {
            Some("{}"@)
        } else {
            None
        },
        JsonValue::Array(a) => if a@.len() == 0 {
            Some("[]"@)
        } else {
            None
        },
        _ => {
            let b = crate::text::dec(spec_effective_type_bit(v, cfg.ignore_value_types) as nat);
            Some("L0:"@ + b + "-L1:"@ + b)
        },
    }
}

/// The signature of a value that needs no walk: for a scalar, its L1 part;
/// for an empty container, its ID.
pub open spec fn early_signature(v: JsonValue, cfg: GenomeConfig) -> Seq<char> {
    match v {
        JsonValue::Object(_) => "{}"@,
        JsonValue::Array(_) => "[]"@,
        _ => "L1:"@ + crate::text::dec(spec_effective_type_bit(v, cfg.ignore_value_types) as nat),
    }
}

/// The stable shape fingerprint under which structurally identical values
/// are counted: the levels from 1 on, or for a value that needs no walk its
/// early signature.
pub open spec fn shape_signature(v: JsonValue, cfg: GenomeConfig) -> Seq<char> {
    match early_id(v, cfg) {
        Some(_) => early_signature(v, cfg),
        None => levels_id(structure_levels(v, cfg), 1),
    }
}

pub open spec fn counter_of(counters: Map<Seq<char>, u64>, sig: Seq<char>) -> u64 {
    if counters.contains_key(sig) {
        counters[sig]
    } else {
        0
    }
}

/// Whether hashing `v` counts it as a collision: every value does in
/// collision mode.
pub open spec fn counts_collision(v: JsonValue, cfg: GenomeConfig) -> bool {
    cfg.new_id_on_collision
}

/// The identifier of `v`, and the counters afterwards. In collision mode
/// every value is counted under its shape signature, and the count replaces
/// L0: `L0:<count>-<signature>`.
pub open spec fn spec_hash(v: JsonValue, cfg: GenomeConfig, counters: Map<Seq<char>, u64>) -> (
    Seq<char>,
    Map<Seq<char>, u64>,
) {
    if cfg.new_id_on_collision {
        let sig = shape_signature(v, cfg);
        let c = counter_of(counters, sig);
        let id = match early_id(v, cfg) {
            Some(_) => level_part(0, c) + "-"@ + sig,
            None => levels_id(structure_levels(v, cfg).update(0, c), 0),
        };
        (id, counters.insert(sig, (c + 1) as u64))
    } else {
        match early_id(v, cfg) {
            Some(id) => (id, counters),
            None => (levels_id(structure_levels(v, cfg), 0), counters),
        }
    }
}

/// The key strings cached after hashing `v` with `cached` cached before.
pub open spec fn hash_cache_keys(v: JsonValue, cfg: GenomeConfig, cached: Set<Seq<char>>) -> Set<
    Seq<char>,
> {
    if early_id(v, cfg) is Some {
        cached
    } else if crate::sums::nesting(v) <= usize::MAX {
        walk(v, cfg, 0, Seq::empty(), (Seq::empty(), cached)).1
    } else {
        crate::sums::walk_sums(v, cfg, 0, Seq::empty(), (Map::empty(), cached)).1
    }
}

pub proof fn lemma_levels_id_ascii(levels: Seq<u64>, from: nat)
    ensures
        crate::text::ascii(levels_id(levels, from)),
{
    reveal_strlit("L");
    reveal_strlit(":");
    reveal_strlit("-");
    let parts = level_parts(levels, from);
    assert forall|j: int| 0 <= j < parts.len() implies crate::text::ascii(#[trigger] parts[j]) by {
        let i = (from + j) as nat;
        crate::text::lemma_numeral_ascii(i, 10);
        crate::text::lemma_numeral_ascii(levels[from + j] as nat, 10);
        crate::text::lemma_ascii_concat("L"@, crate::text::dec(i));
        crate::text::lemma_ascii_concat("L"@ + crate::text::dec(i), ":"@);
        crate::text::lemma_ascii_concat("L"@ + crate::text::dec(i) + ":"@, crate::text::dec(levels[from + j] as nat));
    }
    crate::text::lemma_join_ascii(parts, "-"@);
}

/// Every identifier is ASCII.
pub proof fn lemma_hash_id_ascii(v: JsonValue, cfg: GenomeConfig, counters: Map<Seq<char>, u64>)
    ensures
        crate::text::ascii(spec_hash(v, cfg, counters).0),
{
    reveal_strlit("{}");
    reveal_strlit("[]");
    reveal_strlit("L0:");
    reveal_strlit("-L1:");
    reveal_strlit("L1:");
    reveal_strlit("L");
    reveal_strlit(":");
    reveal_strlit("-");
    let bit = spec_effective_type_bit(v, cfg.ignore_value_types) as nat;
    let b = crate::text::dec(bit);
    crate::text::lemma_numeral_ascii(bit, 10);
    match early_id(v, cfg) {
        Some(id) => {
            if cfg.new_id_on_collision {
                let c = counter_of(counters, shape_signature(v, cfg));
                crate::text::lemma_numeral_ascii(0, 10);
                crate::text::lemma_numeral_ascii(c as nat, 10);
                crate::text::lemma_ascii_concat("L"@, crate::text::dec(0));
                crate::text::lemma_ascii_concat("L"@ + crate::text::dec(0), ":"@);
                crate::text::lemma_ascii_concat("L"@ + crate::text::dec(0) + ":"@, crate::text::dec(c as nat));
                let lp = level_part(0, c);
                crate::text::lemma_ascii_concat(lp, "-"@);
                crate::text::lemma_ascii_concat("L1:"@, b);
                crate::text::lemma_ascii_concat(lp + "-"@, early_signature(v, cfg));
            } else {
                crate::text::lemma_ascii_concat("L0:"@, b);
                crate::text::lemma_ascii_concat("L0:"@ + b, "-L1:"@);
                crate::text::lemma_ascii_concat("L0:"@ + b + "-L1:"@, b);
            }
        },
        None => {
            let levels = structure_levels(v, cfg);
            if cfg.new_id_on_collision {
                lemma_levels_id_ascii(levels.update(0, counter_of(counters, levels_id(levels, 1))), 0);
            } else {
                lemma_levels_id_ascii(levels, 0);
            }
        },
    }
}

/// Whether `b` can be hashed after `a` was.
pub open spec fn can_hash_after(a: JsonValue, b: JsonValue, cfg: GenomeConfig, counters: Map<Seq<char>, u64>) -> bool {
    counts_collision(b, cfg) ==> counter_of(spec_hash(a, cfg, counters).1, shape_signature(b, cfg))
        < u64::MAX
}

/// Whether the IDs of `a` and then `b` are short enough to be compared.
pub open spec fn ids_fit(a: JsonValue, b: JsonValue, cfg: GenomeConfig, counters: Map<Seq<char>, u64>) -> bool {
    let (id_a, counters_a) = spec_hash(a, cfg, counters);
    &&& crate::text::utf8(id_a).len() < usize::MAX
    &&& crate::text::utf8(spec_hash(b, cfg, counters_a).0).len() < usize::MAX
}

/// The signature that goes with an identifier: in collision mode, what
/// follows L0; otherwise the whole identifier.
pub open spec fn signature_of_id(id: Seq<char>, cfg: GenomeConfig) -> Seq<char> {
    if cfg.new_id_on_collision {
        match crate::text::after_first(id, '-') {
            Some(t) => t,
            None => id,
        }
    } else {
        id
    }
}

/// The identifier of the levels from `from` on.
fn build_levels_id(levels: &Vec<u64>, from: usize) -> (s: String)
    requires
        from <= levels@.len(),
    ensures
        s@ == levels_id(levels@, from as nat),
{
    let mut s = String::new();
    let n = levels.len();
    let mut i: usize = from;
    let ghost parts = level_parts(levels@, from as nat);
    while i < n
        invariant
            n == levels@.len(),
            from <= i <= n,
            parts == level_parts(levels@, from as nat),
            s@ == crate::text::join(parts.take(i - from), "-"@),
        decreases n - i,
    {
        proof {
            crate::text::lemma_join_push(parts.take(i - from), "-"@, parts[i - from]);
            assert(parts.take(i - from + 1) =~= parts.take(i - from).push(parts[i - from]));
        }
        if i > from {
            s.append("-");
        }
        s.append("L");
        push_dec(&mut s, i as u64);
        s.append(":");
        push_dec(&mut s, levels[i]);
        i = i + 1;
    }
    proof {
        assert(parts.take(n - from) =~= parts);
    }
    s
}

fn type_bit(value: &JsonValue) -> (b: u64)
    ensures
        b == spec_type_bit(*value),
{
    match value {
        JsonValue::Null => 16,
        JsonValue::Bool(_) => 4,
        JsonValue::Number(_) => 1,
        JsonValue::String(_) => 2,
        JsonValue::Array(_) => 256,
        JsonValue::Object(_) => 128,
    }
}

fn effective_type_bit(value: &JsonValue, ignore_value_types: bool) -> (b: u64)
    ensures
        b == spec_effective_type_bit(*value, ignore_value_types),
{
    if ignore_value_types {
        match value {
            JsonValue::Object(_) | JsonValue::Array(_) => type_bit(value),
            _ => 2,
        }
    } else {
        type_bit(value)
    }
}

fn kind_index_of(value: &JsonValue, ignore_value_types: bool) -> (k: usize)
    ensures
        k == kind_index(*value, ignore_value_types),
        k < 6,
{
    match value {
        JsonValue::Object(_) => 5,
        JsonValue::Array(_) => 4,
        _ => if ignore_value_types {
            3
        } else {
            match value {
                JsonValue::Null => 0,
                JsonValue::Bool(_) => 1,
                JsonValue::Number(_) => 2,
                _ => 3,
            }
        },
    }
}

fn kind_name_of(k: usize) -> (s: &'static str)
    ensures
        s@ == kind_name(k as nat),
{
    if k == 0 {
        "null"
    } else if k == 1 {
        "boolean"
    } else if k == 2 {
        "number"
    } else if k == 3 {
        "string"
    } else if k == 4 {
        "array"
    } else {
        "object"
    }
}

fn join_path(path: &Vec<String>) -> (s: String)
    ensures
        s@ == crate::text::join(str_views(path@).push("[*]"@), "."@),
{
    let mut s = String::new();
    let n = path.len();
    let mut i: usize = 0;
    while i < n
        invariant
            n == path@.len(),
            i <= n,
            s@ == crate::text::join(str_views(path@).take(i as int), "."@),
        decreases n - i,
    {
        proof {
            crate::text::lemma_join_push(str_views(path@).take(i as int), "."@, path@[i as int]@);
            assert(str_views(path@).take(i + 1) =~= str_views(path@).take(i as int).push(
                path@[i as int]@,
            ));
        }
        if i > 0 {
            s.append(".");
        }
        s.append(path[i].as_str());
        i = i + 1;
    }
    proof {
        assert(str_views(path@).take(n as int) =~= str_views(path@));
        crate::text::lemma_join_push(str_views(path@), "."@, "[*]"@);
    }
    if n > 0 {
        s.append(".");
    }
    s.append("[*]");
    s
}

/// The key for an array element's shape, for the array reached along `path`.
fn shape_key_of(item: &JsonValue, path: &Vec<String>, cfg: &GenomeConfig) -> (k: String)
    ensures
        k@ == shape_key(*item, str_views(path@), *cfg),
{
    let ignore_value_types = cfg.ignore_value_types;
    match item {
        JsonValue::Object(m) => {
            let mut k = join_path(path);
            k.append(".{");
            let entries = m.members_vec();
            let ghost descs = member_descs(m.members(), ignore_value_types);
            let ghost prefix = k@;
            let n = entries.len();
            let mut i: usize = 0;
            while i < n
                invariant
                    n == entries@.len(),
                    entries@ == m.members(),
                    descs == member_descs(m.members(), ignore_value_types),
                    i <= n,
                    k@ == prefix + crate::text::join(descs.take(i as int), ","@),
                decreases n - i,
            {
                proof {
                    crate::text::lemma_join_push(descs.take(i as int), ","@, descs[i as int]);
                    assert(descs.take(i + 1) =~= descs.take(i as int).push(descs[i as int]));
                }
                if i > 0 {
                    k.append(",");
                }
                k.append(entries[i].0.as_str());
                k.append(":");
                k.append(kind_name_of(kind_index_of(&entries[i].1, ignore_value_types)));
                proof {
                    assert(descs[i as int] == entries@[i as int].0@ + ":"@ + spec_kind_name(
                        entries@[i as int].1,
                        ignore_value_types,
                    ));
                }
                i = i + 1;
            }
            proof {
                assert(descs.take(n as int) =~= descs);
            }
            k.append("}");
            k
        },
        JsonValue::Array(a) => {
            let mut k = join_path(path);
            k.append(".[");
            append_element_kinds(&mut k, a, ignore_value_types);
            k.append("]");
            k
        },
        _ => {
            let mut k = "scalar:".to_owned();
            k.append(kind_name_of(kind_index_of(item, ignore_value_types)));
            k
        },
    }
}

/// Appends the names of the kinds that occur among `items`, in the order of
/// their indices, separated by commas.
fn append_element_kinds(k: &mut String, items: &Vec<JsonValue>, ignore_value_types: bool)
    ensures
        final(k)@ == old(k)@ + crate::text::join(element_kinds(items@, ignore_value_types, 6), ","@),
{
    let mut present: Vec<bool> = vec![false, false, false, false, false, false];
    let n = items.len();
    let mut i: usize = 0;
    while i < n
        invariant
            n == items@.len(),
            i <= n,
            present@.len() == 6,
            forall|c: int|
                0 <= c < 6 ==> #[trigger] present@[c] == exists|j: int|
                    0 <= j < i && kind_index(items@[j], ignore_value_types) == c,
        decreases n - i,
    {
        let c = kind_index_of(&items[i], ignore_value_types);
        present.set(c, true);
        proof {
            assert forall|d: int| 0 <= d < 6 implies #[trigger] present@[d] == exists|j: int|
                0 <= j < i + 1 && kind_index(items@[j], ignore_value_types) == d by {
                if d != c {
                    if exists|j: int| 0 <= j < i + 1 && kind_index(items@[j], ignore_value_types) == d {
                        let j = choose|j: int| 0 <= j < i + 1 && kind_index(items@[j], ignore_value_types) == d;
                        assert(j != i);
                    }
                }
            }
        }
        i = i + 1;
    }
    let ghost prefix = k@;
    let mut c: usize = 0;
    let mut first = true;
    while c < 6
        invariant
            n == items@.len(),
            present@.len() == 6,
            forall|d: int|
                0 <= d < 6 ==> #[trigger] present@[d] == has_kind(items@, d as nat, ignore_value_types),
            c <= 6,
            first == (element_kinds(items@, ignore_value_types, c as nat).len() == 0),
            k@ == prefix + crate::text::join(element_kinds(items@, ignore_value_types, c as nat), ","@),
        decreases 6 - c,
    {
        let ghost before = element_kinds(items@, ignore_value_types, c as nat);
        if present[c] {
            proof {
                crate::text::lemma_join_push(before, ","@, kind_name(c as nat));
            }
            if !first {
                k.append(",");
            }
            k.append(kind_name_of(c));
            first = false;
        }
        c = c + 1;
    }
}

/// Adds `x` to the sum of a level that has one.
fn add_to_level(levels: &mut HashMap<usize, u64>, level: usize, x: u64)
    requires
        old(levels)@.contains_key(level),
    ensures
        final(levels)@ == old(levels)@.insert(level, old(levels)@[level].wrapping_add(x)),
{
    broadcast use vstd::std_specs::hash::group_hash_axioms;

    let cur = match levels.get(&level) {
        Some(c) => *c,
        None => 0,
    };
    levels.insert(level, cur.wrapping_add(x));
}

/// Whether `s` is one of `list`.
fn contains_string(list: &Vec<String>, s: &String) -> (r: bool)
    ensures
        r == exists|j: int| 0 <= j < list@.len() && list@[j]@ == s@,
{
    let mut i: usize = 0;
    while i < list.len()
        invariant
            i <= list@.len(),
            forall|j: int| 0 <= j < i ==> list@[j]@ != s@,
        decreases list@.len() - i,
    {
        if list[i] == *s {
            return true;
        }
        i = i + 1;
    }
    false
}

/// The main hasher. Holds the cache of key bits and the collision counters.
pub struct Genome {
    config: GenomeConfig,
    key_cache: StrTable,
    collision_counters: StrTable,
}

impl Genome {
    /// Every cached key holds its own bit.
    #[verifier::type_invariant]
    closed spec fn cache_is_exact(self) -> bool {
        forall|k: Seq<char>| #[trigger]
            self.key_cache@.contains_key(k) ==> self.key_cache@[k] == key_bit(k)
    }

    pub closed spec fn config(self) -> GenomeConfig {
        self.config
    }

    /// The cached key bits.
    pub closed spec fn cache(self) -> Map<Seq<char>, u64> {
        self.key_cache@
    }

    /// The collision counters, by signature.
    pub closed spec fn counters(self) -> Map<Seq<char>, u64> {
        self.collision_counters@
    }

    /// A hasher with the given configuration and empty state.
    pub fn new(config: GenomeConfig) -> (g: Genome)
        ensures
            g.config() == config,
            g.cache() == Map::<Seq<char>, u64>::empty(),
            g.counters() == Map::<Seq<char>, u64>::empty(),
    {
        Genome { config, key_cache: StrTable::new(), collision_counters: StrTable::new() }
    }

    /// Whether hashing `v` now can go through: in collision mode the counter
    /// of `v`'s signature must have room for one more.
    pub open spec fn can_hash(self, v: JsonValue) -> bool {
        counts_collision(v, self.config()) ==> counter_of(
            self.counters(),
            shape_signature(v, self.config()),
        ) < u64::MAX
    }

    /// The bit for a key, from the cache or computed and cached.
    fn get_bit(&mut self, key: &str) -> (b: u64)
        ensures
            b == key_bit(key@),
            final(self).config() == old(self).config(),
            final(self).counters() == old(self).counters(),
            final(self).cache().dom() == old(self).cache().dom().insert(key@),
    {
        proof {
            use_type_invariant(&*self);
        }
        match self.key_cache.get(key) {
            Some(v) => {
                proof {
                    assert(old(self).cache().dom().insert(key@) =~= old(self).cache().dom());
                }
                v
            },
            None => {
                let h = xx_hash32(key.as_bytes(), 0) as u64;
                let mut cache = StrTable::new();
                std::mem::swap(&mut cache, &mut self.key_cache);
                cache.insert(key.to_owned(), h);
                self.key_cache = cache;
                h
            },
        }
    }

    /// Adds the contribution of `value`, found at depth `level` along
    /// `path`, to the level sums, whatever levels they hold already: a level
    /// without a sum starts from `1 << level`.
    fn process(
        &mut self,
        value: &JsonValue,
        level: usize,
        path: &mut Vec<String>,
        levels: &mut HashMap<usize, u64>,
    )
        ensures
            (final(levels)@, final(self).cache().dom()) == walk_sums(
                *value,
                old(self).config(),
                level,
                str_views(old(path)@),
                (old(levels)@, old(self).cache().dom()),
            ),
            final(levels)@.contains_key(level),
            forall|k: usize| old(levels)@.contains_key(k) ==> #[trigger] final(levels)@.contains_key(k),
            final(path)@ == old(path)@,
            final(self).config() == old(self).config(),
            final(self).counters() == old(self).counters(),
        decreases value,
    {
        broadcast use vstd::std_specs::hash::group_hash_axioms;

        let ghost cfg = self.config;
        let ghost p = str_views(path@);
        let ghost counters = self.counters();
        let ghost path0 = path@;
        let ghost t0 = (levels@, self.cache().dom());
        let base = match levels.get(&level) {
            Some(c) => *c,
            None => 1u64.wrapping_shl(level as u32),
        };
        let etb = effective_type_bit(value, self.config.ignore_value_types);
        levels.insert(level, base.wrapping_add(etb));
        assert((levels@, self.cache().dom()) == add_sum(start_sum(t0, level), level, etb));
        let next = if level < usize::MAX {
            level + 1
        } else {
            0
        };
        assert(next == next_level(level));
        match value {
            JsonValue::Object(m) => {
                let ob = self.get_bit("type:object");
                add_to_level(levels, level, ob);
                proof {
                    crate::json::lemma_members_decrease(*m);
                }
                let entries = m.members_vec();
                let n = entries.len();
                let mut i: usize = 0;
                let ghost start = (levels@, self.cache().dom());
                while i < n
                    invariant
                        n == m.members().len(),
                        entries@ == m.members(),
                        i <= n,
                        next == next_level(level),
                        levels@.contains_key(level),
                        forall|k: usize| old(levels)@.contains_key(k) ==> #[trigger] levels@.contains_key(k),
                        self.config() == cfg,
                        cfg == old(self).config(),
                        self.counters() == counters,
                        path@ == path0,
                        p == str_views(path0),
                        walk_sums_members(m.members(), i as int, cfg, level, p, (levels@, self.cache().dom()))
                            == walk_sums_members(m.members(), 0, cfg, level, p, start),
                        decreases_to!(*value => m.members()),
                    decreases n - i,
                {
                    let multiplier = (i + 1) as u64;
                    let key = &entries[i].0;
                    let val = &entries[i].1;
                    let prop_bit = effective_type_bit(val, self.config.ignore_value_types);
                    let kb = self.get_bit(key.as_str());
                    add_to_level(levels, level, kb.wrapping_mul(multiplier));
                    add_to_level(levels, level, prop_bit.wrapping_mul(multiplier));
                    path.push(key.clone());
                    proof {
                        assert(str_views(path@) =~= p.push(key@));
                        assert(decreases_to!(*value => m.members()[i as int].1));
                    }
                    self.process(val, next, path, levels);
                    path.pop();
                    proof {
                        assert(path@ =~= path0);
                    }
                    i = i + 1;
                }
            },
            JsonValue::Array(items) => {
                let ab = self.get_bit("type:array");
                add_to_level(levels, level, ab);
                let n = items.len();
                proof {
                    assert(decreases_to!(*value => value->Array_0));
                    assert(decreases_to!(*items => items@));
                }
                if !self.config.ignore_array_length {
                    let mut lk = "length:".to_owned();
                    push_dec(&mut lk, n as u64);
                    let lb = self.get_bit(lk.as_str());
                    add_to_level(levels, level, lb);
                    let mut i: usize = 0;
                    let ghost start = (levels@, self.cache().dom());
                    while i < n
                        invariant
                            n == items@.len(),
                            i <= n,
                            next == next_level(level),
                            levels@.contains_key(level),
                            forall|k: usize| old(levels)@.contains_key(k) ==> #[trigger] levels@.contains_key(k),
                            self.config() == cfg,
                            cfg == old(self).config(),
                            self.counters() == counters,
                            path@ == path0,
                            p == str_views(path0),
                            walk_sums_items(items@, i as int, cfg, level, p, (levels@, self.cache().dom()))
                                == walk_sums_items(items@, 0, cfg, level, p, start),
                            decreases_to!(*value => items@),
                        decreases n - i,
                    {
                        let multiplier = (i + 1) as u64;
                        let item = &items[i];
                        let item_bit = effective_type_bit(item, self.config.ignore_value_types);
                        let mut ik = "[".to_owned();
                        push_dec(&mut ik, i as u64);
                        ik.append("]");
                        assert(ik@ == index_key(i as nat));
                        let kb = self.get_bit(ik.as_str());
                        add_to_level(levels, level, kb.wrapping_mul(multiplier));
                        add_to_level(levels, level, item_bit.wrapping_mul(multiplier));
                        path.push("[*]".to_owned());
                        proof {
                            assert(str_views(path@) =~= p.push("[*]"@));
                            assert(decreases_to!(*value => items@[i as int]));
                        }
                        self.process(item, next, path, levels);
                        path.pop();
                        proof {
                            assert(path@ =~= path0);
                        }
                        i = i + 1;
                    }
                } else {
                    let mut seen_shapes: Vec<String> = Vec::new();
                    let ghost mut seen: Set<Seq<char>> = Set::empty();
                    let mut i: usize = 0;
                    let ghost start = (levels@, self.cache().dom());
                    while i < n
                        invariant
                            n == items@.len(),
                            i <= n,
                            next == next_level(level),
                            levels@.contains_key(level),
                            forall|k: usize| old(levels)@.contains_key(k) ==> #[trigger] levels@.contains_key(k),
                            self.config() == cfg,
                            cfg == old(self).config(),
                            self.counters() == counters,
                            path@ == path0,
                            p == str_views(path0),
                            forall|k: Seq<char>|
                                seen.contains(k) <==> exists|j: int|
                                    0 <= j < seen_shapes@.len() && seen_shapes@[j]@ == k,
                            walk_sums_shapes(items@, i as int, seen, cfg, level, p, (levels@, self.cache().dom()))
                                == walk_sums_shapes(items@, 0, Set::empty(), cfg, level, p, start),
                            decreases_to!(*value => items@),
                        decreases n - i,
                    {
                        let item = &items[i];
                        let shape = shape_key_of(item, path, &self.config);
                        if !contains_string(&seen_shapes, &shape) {
                            assert(!seen.contains(shape@));
                            let ghost old_shapes = seen_shapes@;
                            seen_shapes.push(shape.clone());
                            proof {
                                seen = seen.insert(shape@);
                                assert forall|k: Seq<char>|
                                    (exists|j: int|
                                        0 <= j < seen_shapes@.len() && seen_shapes@[j]@ == k) implies seen.contains(k) by {
                                    let j = choose|j: int|
                                        0 <= j < seen_shapes@.len() && seen_shapes@[j]@ == k;
                                    if j < seen_shapes@.len() - 1 {
                                        assert(old_shapes[j]@ == k);
                                    }
                                }
                                assert forall|k: Seq<char>|
                                    seen.contains(k) implies exists|j: int|
                                        0 <= j < seen_shapes@.len() && seen_shapes@[j]@ == k by {
                                    if k == shape@ {
                                        assert(seen_shapes@[seen_shapes@.len() - 1]@ == k);
                                    } else {
                                        let j = choose|j: int|
                                            0 <= j < old_shapes.len() && old_shapes[j]@ == k;
                                        assert(seen_shapes@[j]@ == k);
                                    }
                                }
                            }
                            let b = self.get_bit(shape.as_str());
                            add_to_level(levels, level, b);
                            path.push("[*]".to_owned());
                            proof {
                                assert(str_views(path@) =~= p.push("[*]"@));
                                assert(decreases_to!(*value => items@[i as int]));
                            }
                            self.process(item, next, path, levels);
                            path.pop();
                            proof {
                                assert(path@ =~= path0);
                            }
                        } else {
                            assert(seen.contains(shape@));
                        }
                        i = i + 1;
                    }
                    let sentinel = self.get_bit("array:variadic");
                    add_to_level(levels, level, sentinel);
                }
            },
            _ => {},
        }
    }

    /// The level sums of a value that needs a walk, from level 0 on.
    fn structure(&mut self, value: &JsonValue) -> (levels: Vec<u64>)
        requires
            early_id(*value, old(self).config()) is None,
        ensures
            levels@ == structure_levels(*value, old(self).config()),
            levels@.len() > 0,
            final(self).config() == old(self).config(),
            final(self).counters() == old(self).counters(),
            final(self).cache().dom() == hash_cache_keys(*value, old(self).config(), old(self).cache().dom()),
    {
        broadcast use vstd::std_specs::hash::group_hash_axioms;

        let ghost cfg = self.config;
        let ghost cache0 = self.cache().dom();
        let mut sums: HashMap<usize, u64> = HashMap::new();
        let mut path: Vec<String> = Vec::new();
        proof {
            assert(str_views(path@) =~= Seq::<Seq<char>>::empty());
        }
        self.process(value, 0, &mut path, &mut sums);
        let ghost all = crate::sums::sums_from(sums@, 0);
        proof {
            if crate::sums::nesting(*value) <= usize::MAX {
                let t: Trace = (Seq::empty(), cache0);
                assert(crate::sums::seq_sums(Seq::<u64>::empty()) =~= Map::<usize, u64>::empty());
                crate::sums::lemma_walk_sums(*value, cfg, 0, Seq::empty(), t);
                crate::sums::lemma_walk_sums(*value, cfg, 0, Seq::empty(), (Seq::empty(), Set::empty()));
                lemma_walk_levels(*value, cfg, 0, Seq::empty(), Seq::empty(), cache0, Set::empty());
                crate::sums::lemma_sums_from(walk(*value, cfg, 0, Seq::empty(), t).0, 0);
                assert(walk(*value, cfg, 0, Seq::empty(), t).0.skip(0) =~= walk(*value, cfg, 0, Seq::empty(), t).0);
            } else {
                crate::sums::lemma_walk_sums_levels(*value, cfg, 0, Seq::empty(), Map::empty(), cache0, Set::empty());
            }
            assert(all == structure_levels(*value, cfg));
        }
        let mut levels: Vec<u64> = Vec::new();
        let mut l: usize = 0;
        loop
            invariant_except_break
                levels@ == all.take(l as int),
                l <= all.len(),
            invariant
                all == crate::sums::sums_from(sums@, 0),
                sums@.contains_key(0),
            ensures
                levels@ == all,
            decreases all.len() - l,
        {
            proof {
                crate::sums::lemma_sums_from_at(sums@, 0, l as nat);
            }
            match sums.get(&l) {
                Some(h) => {
                    levels.push(*h);
                    proof {
                        assert(levels@ =~= all.take(l + 1));
                    }
                    if l == usize::MAX {
                        break;
                    }
                    l = l + 1;
                },
                None => {
                    break;
                },
            }
        }
        levels
    }

    /// Counts one more value of the signature of `levels`, unless its counter
    /// is full, and gives the identifier with the count as L0.
    fn count_collision(&mut self, levels: Vec<u64>) -> (r: Option<String>)
        requires
            levels@.len() > 0,
        ensures
            ({
                let sig = levels_id(levels@, 1);
                let c = counter_of(old(self).counters(), sig);
                &&& r is Some <==> c < u64::MAX
                &&& r matches Some(id) ==> id@ == levels_id(levels@.update(0, c), 0)
                    && final(self).counters() == old(self).counters().insert(sig, (c + 1) as u64)
                &&& r is None ==> final(self).counters() == old(self).counters()
            }),
            final(self).config() == old(self).config(),
            final(self).cache() == old(self).cache(),
    {
        proof {
            use_type_invariant(&*self);
        }
        let mut levels = levels;
        let ghost l0 = levels@;
        let ghost old_counters = self.counters();
        let sig = build_levels_id(&levels, 1);
        let ghost sigv = sig@;
        assert(sigv == levels_id(l0, 1));
        let count = match self.collision_counters.get(sig.as_str()) {
            Some(c) => c,
            None => 0,
        };
        assert(count == counter_of(old_counters, sigv));
        if count == u64::MAX {
            return None;
        }
        levels.set(0, count);
        assert(levels@ == l0.update(0, count as u64));
        let mut counters = StrTable::new();
        std::mem::swap(&mut counters, &mut self.collision_counters);
        counters.insert(sig, count + 1);
        self.collision_counters = counters;
        assert(self.counters() == old_counters.insert(sigv, (count + 1) as u64));
        let id = build_levels_id(&levels, 0);
        Some(id)
    }

    /// The identifier of a value that needs no walk.
    fn early(&self, value: &JsonValue) -> (r: Option<String>)
        ensures
            r is Some <==> early_id(*value, self.config()) is Some,
            r matches Some(id) ==> id@ == early_id(*value, self.config())->0,
    {
        match value {
            JsonValue::Object(m) => {
                if m.len() == 0 {
                    Some("{}".to_owned())
                } else {
                    None
                }
            },
            JsonValue::Array(a) => {
                if a.len() == 0 {
                    Some("[]".to_owned())
                } else {
                    None
                }
            },
            _ => {
                let bit = effective_type_bit(value, self.config.ignore_value_types);
                let mut s = "L0:".to_owned();
                push_dec(&mut s, bit);
                s.append("-L1:");
                push_dec(&mut s, bit);
                Some(s)
            },
        }
    }

    /// The signature of a value that needs no walk.
    fn early_signature_of(&self, value: &JsonValue) -> (r: Option<String>)
        ensures
            r is Some <==> early_id(*value, self.config()) is Some,
            r matches Some(sig) ==> sig@ == early_signature(*value, self.config()),
    {
        match value {
            JsonValue::Object(m) => {
                if m.len() == 0 {
                    Some("{}".to_owned())
                } else {
                    None
                }
            },
            JsonValue::Array(a) => {
                if a.len() == 0 {
                    Some("[]".to_owned())
                } else {
                    None
                }
            },
            _ => {
                let bit = effective_type_bit(value, self.config.ignore_value_types);
                let mut s = "L1:".to_owned();
                push_dec(&mut s, bit);
                Some(s)
            },
        }
    }

    /// Counts one more value of the signature `sig`, unless its counter is
    /// full, and gives the identifier `L0:<count>-<sig>`.
    fn count_early(&mut self, sig: String) -> (r: Option<String>)
        ensures
            ({
                let c = counter_of(old(self).counters(), sig@);
                &&& r is Some <==> c < u64::MAX
                &&& r matches Some(id) ==> id@ == level_part(0, c) + "-"@ + sig@
                    && final(self).counters() == old(self).counters().insert(sig@, (c + 1) as u64)
                &&& r is None ==> final(self).counters() == old(self).counters()
            }),
            final(self).config() == old(self).config(),
            final(self).cache() == old(self).cache(),
    {
        proof {
            use_type_invariant(&*self);
        }
        let ghost old_counters = self.counters();
        let count = match self.collision_counters.get(sig.as_str()) {
            Some(c) => c,
            None => 0,
        };
        if count == u64::MAX {
            return None;
        }
        let mut id = "L".to_owned();
        push_dec(&mut id, 0);
        id.append(":");
        push_dec(&mut id, count);
        id.append("-");
        id.append(sig.as_str());
        let mut counters = StrTable::new();
        std::mem::swap(&mut counters, &mut self.collision_counters);
        counters.insert(sig, count + 1);
        self.collision_counters = counters;
        Some(id)
    }

    /// Generates the hierarchical structure ID of `value`, or `None` where
    /// the collision counter of its signature is full.
    pub fn try_hash(&mut self, value: &JsonValue) -> (r: Option<String>)
        ensures
            r is Some <==> old(self).can_hash(*value),
            r matches Some(id) ==> id@ == spec_hash(*value, old(self).config(), old(self).counters()).0
                && final(self).counters() == spec_hash(
                *value,
                old(self).config(),
                old(self).counters(),
            ).1,
            r is None ==> final(self).counters() == old(self).counters(),
            final(self).config() == old(self).config(),
            final(self).cache().dom() == hash_cache_keys(*value, old(self).config(), old(self).cache().dom()),
    {
        if self.config.new_id_on_collision {
            match self.early_signature_of(value) {
                Some(sig) => self.count_early(sig),
                None => {
                    let levels = self.structure(value);
                    self.count_collision(levels)
                },
            }
        } else {
            if let Some(id) = self.early(value) {
                return Some(id);
            }
            let levels = self.structure(value);
            Some(build_levels_id(&levels, 0))
        }
    }

    /// Generates the deterministic hierarchical structure ID of `value`:
    /// `L0:hash-L1:hash-...`, one part for each depth. In collision mode L0
    /// is replaced with the number of earlier values of the same signature.
    pub fn hash(&mut self, value: &JsonValue) -> (id: String)
        requires
            old(self).can_hash(*value),
        ensures
            id@ == spec_hash(*value, old(self).config(), old(self).counters()).0,
            final(self).counters() == spec_hash(*value, old(self).config(), old(self).counters()).1,
            final(self).config() == old(self).config(),
            final(self).cache().dom() == hash_cache_keys(*value, old(self).config(), old(self).cache().dom()),
    {
        match self.try_hash(value) {
            Some(id) => id,
            None => {
                proof {
                    assert(false);
                }
                String::new()
            },
        }
    }

    /// The structural signature of `value`: the full ID, or in collision
    /// mode the ID without L0, the stable fingerprint shared by structurally
    /// identical values.
    pub fn signature(&mut self, value: &JsonValue) -> (sig: String)
        requires
            old(self).can_hash(*value),
        ensures
            sig@ == signature_of_id(
                spec_hash(*value, old(self).config(), old(self).counters()).0,
                old(self).config(),
            ),
            !old(self).config().new_id_on_collision ==> sig@ == spec_hash(
                *value,
                old(self).config(),
                old(self).counters(),
            ).0,
            final(self).counters() == spec_hash(*value, old(self).config(), old(self).counters()).1,
            final(self).config() == old(self).config(),
            final(self).cache().dom() == hash_cache_keys(*value, old(self).config(), old(self).cache().dom()),
    {
        proof {
            lemma_hash_id_ascii(*value, self.config(), self.counters());
        }
        let id = self.hash(value);
        if self.config.new_id_on_collision {
            crate::text::after_first_dash(id.as_str())
        } else {
            id
        }
    }

    /// The structural signature of `value`, or `None` where the collision
    /// counter of its signature is full.
    pub fn try_signature(&mut self, value: &JsonValue) -> (r: Option<String>)
        ensures
            r is Some <==> old(self).can_hash(*value),
            r matches Some(sig) ==> sig@ == signature_of_id(
                spec_hash(*value, old(self).config(), old(self).counters()).0,
                old(self).config(),
            ) && final(self).counters() == spec_hash(*value, old(self).config(), old(self).counters()).1,
            !old(self).config().new_id_on_collision ==> (r matches Some(sig) ==> sig@ == spec_hash(
                *value,
                old(self).config(),
                old(self).counters(),
            ).0),
            r is None ==> final(self).counters() == old(self).counters(),
            final(self).config() == old(self).config(),
            final(self).cache().dom() == hash_cache_keys(*value, old(self).config(), old(self).cache().dom()),
    {
        proof {
            lemma_hash_id_ascii(*value, self.config(), self.counters());
        }
        match self.try_hash(value) {
            Some(id) => {
                if self.config.new_id_on_collision {
                    Some(crate::text::after_first_dash(id.as_str()))
                } else {
                    Some(id)
                }
            },
            None => None,
        }
    }

    /// Compares two structure IDs level by level.
    pub fn compare(&self, id_a: &str, id_b: &str) -> (r: Similarity)
        requires
            crate::text::utf8(id_a@).len() < usize::MAX,
            crate::text::utf8(id_b@).len() < usize::MAX,
        ensures
            crate::similarity::is_comparison(r, crate::text::utf8(id_a@), crate::text::utf8(id_b@)),
    {
        compare_ids(id_a, id_b)
    }

    /// Hashes two values, in turn, and compares their IDs.
    pub fn compare_values(&mut self, a: &JsonValue, b: &JsonValue) -> (r: Similarity)
        requires
            old(self).can_hash(*a),
            can_hash_after(*a, *b, old(self).config(), old(self).counters()),
            ids_fit(*a, *b, old(self).config(), old(self).counters()),
        ensures
            ({
                let (id_a, counters_a) = spec_hash(*a, old(self).config(), old(self).counters());
                let (id_b, counters_b) = spec_hash(*b, old(self).config(), counters_a);
                &&& crate::similarity::is_comparison(r, crate::text::utf8(id_a), crate::text::utf8(id_b))
                &&& final(self).counters() == counters_b
            }),
            final(self).config() == old(self).config(),
            final(self).cache().dom() == hash_cache_keys(
                *b,
                old(self).config(),
                hash_cache_keys(*a, old(self).config(), old(self).cache().dom()),
            ),
    {
        let id_a = self.hash(a);
        let id_b = self.hash(b);
        self.compare(id_a.as_str(), id_b.as_str())
    }

    /// Sets the collision counter of a signature, for restoring saved state.
    pub fn seed(&mut self, signature: &str, count: u64)
        ensures
            final(self).counters() == old(self).counters().insert(signature@, count),
            final(self).cache() == old(self).cache(),
            final(self).config() == old(self).config(),
    {
        proof {
            use_type_invariant(&*self);
        }
        let mut counters = StrTable::new();
        std::mem::swap(&mut counters, &mut self.collision_counters);
        counters.insert(signature.to_owned(), count);
        self.collision_counters = counters;
    }

    /// The collision counters, for saving.
    pub fn export_counters(&self) -> (t: StrTable)
        ensures
            t@ == self.counters(),
    {
        self.collision_counters.copy()
    }

    /// The cache of key bits, for saving or sharing: each key with the
    /// xxHash32 of its UTF-8 bytes.
    pub fn export_cache(&self) -> (t: StrTable)
        ensures
            t@ == self.cache(),
            forall|k: Seq<char>| #[trigger] t@.contains_key(k) ==> t@[k] == key_bit(k),
    {
        proof {
            use_type_invariant(self);
        }
        self.key_cache.copy()
    }

    /// Clears the key cache and the collision counters.
    pub fn reset(&mut self)
        ensures
            final(self).cache() == Map::<Seq<char>, u64>::empty(),
            final(self).counters() == Map::<Seq<char>, u64>::empty(),
            final(self).config() == old(self).config(),
    {
        self.key_cache = StrTable::new();
        self.collision_counters = StrTable::new();
    }
}

} // verus!
