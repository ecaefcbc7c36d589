use genome_rs::{hash_str, xx_hash32, Genome, GenomeConfig, JsonMap, JsonValue, LevelScore, StrTable};

fn obj(members: Vec<(&str, JsonValue)>) -> JsonValue {
    JsonValue::object(members.into_iter().map(|(k, v)| (k.to_string(), v)).collect())
}

fn arr(items: Vec<JsonValue>) -> JsonValue {
    JsonValue::Array(items)
}

fn num(n: i64) -> JsonValue {
    JsonValue::Number(n.to_string())
}

fn text(s: &str) -> JsonValue {
    JsonValue::String(s.to_string())
}

fn kb(key: &str) -> u64 {
    xx_hash32(key.as_bytes(), 0) as u64
}

fn config(collision: bool, lengths: bool, types: bool) -> GenomeConfig {
    GenomeConfig { new_id_on_collision: collision, ignore_array_length: lengths, ignore_value_types: types }
}

#[test]
fn xxhash_known_values() {
    assert_eq!(xx_hash32(b"", 0), 0x02cc5d05);
    assert_eq!(xx_hash32(b"abc", 0), 0x32d153ff);
    assert_eq!(xx_hash32(b"Nobody inspects the spammish repetition", 0), 0xe2293b2f);
    assert_eq!(hash_str("", 0), "2cc5d05");
    assert_eq!(hash_str("hello", 0), "fb0077f9");
    assert_eq!(hash_str("test123", 0), "ff2410ee");
}

#[test]
fn hash_str_is_lower_hex_without_padding() {
    let h = hash_str("", 0);
    assert_eq!(h.len(), 7);
    assert!(h.chars().all(|c| c.is_ascii_digit() || ('a'..='f').contains(&c)));
}

#[test]
fn scalar_ids() {
    let mut g = Genome::new(GenomeConfig::default());
    assert_eq!(g.hash(&num(7)), "L0:1-L1:1");
    assert_eq!(g.hash(&text("x")), "L0:2-L1:2");
    assert_eq!(g.hash(&JsonValue::Bool(false)), "L0:4-L1:4");
    assert_eq!(g.hash(&JsonValue::Null), "L0:16-L1:16");
    let mut t = Genome::new(config(false, false, true));
    assert_eq!(t.hash(&num(7)), "L0:2-L1:2");
    assert_eq!(t.hash(&JsonValue::Null), "L0:2-L1:2");
}

#[test]
fn object_id_formula() {
    let mut g = Genome::new(GenomeConfig::default());
    let l0 = 1 + 128 + kb("type:object") + kb("a") + 1;
    assert_eq!(g.hash(&obj(vec![("a", num(1))])), format!("L0:{}-L1:3", l0));
}

#[test]
fn array_id_formula() {
    let mut g = Genome::new(GenomeConfig::default());
    let l0 = 1 + 256 + kb("type:array") + kb("length:2") + kb("[0]") + 1 + kb("[1]") * 2 + 2;
    assert_eq!(g.hash(&arr(vec![num(1), num(2)])), format!("L0:{}-L1:4", l0));
}

#[test]
fn variadic_array_id_formula() {
    let mut g = Genome::new(config(false, true, false));
    let l0 = 1 + 256 + kb("type:array") + kb("scalar:number") + kb("array:variadic");
    assert_eq!(g.hash(&arr(vec![num(1), num(2), num(3)])), format!("L0:{}-L1:3", l0));
}

#[test]
fn variadic_array_appending_a_seen_shape_keeps_the_id() {
    let mut g = Genome::new(config(false, true, false));
    let a = g.hash(&arr(vec![obj(vec![("k", num(1))]), text("s")]));
    let b = g.hash(&arr(vec![obj(vec![("k", num(2))]), text("t"), obj(vec![("k", num(3))]), text("u")]));
    assert_eq!(a, b);
    let c = g.hash(&arr(vec![obj(vec![("k", num(1))]), obj(vec![("k", num(2))])]));
    assert_ne!(a, c);
}

#[test]
fn keys_order_and_duplicates() {
    let mut g = Genome::new(GenomeConfig::default());
    let a = g.hash(&obj(vec![("b", num(1)), ("a", text("x")), ("b", text("y"))]));
    let b = g.hash(&obj(vec![("a", text("q")), ("b", text("z"))]));
    assert_eq!(a, b);
    match obj(vec![("b", num(1)), ("a", num(2)), ("c", num(3)), ("a", num(4))]) {
        JsonValue::Object(m) => {
            let keys: Vec<&str> = m.members_vec().iter().map(|(k, _)| k.as_str()).collect();
            assert_eq!(keys, vec!["a", "b", "c"]);
            assert_eq!(m.len(), 3);
        }
        _ => panic!("expected an object"),
    }
}

#[test]
fn json_map_insert_replaces() {
    let mut m = JsonMap::new();
    m.insert("z".to_string(), num(1));
    m.insert("a".to_string(), num(2));
    m.insert("z".to_string(), text("3"));
    assert_eq!(m.len(), 2);
    let keys: Vec<&str> = m.members_vec().iter().map(|(k, _)| k.as_str()).collect();
    assert_eq!(keys, vec!["a", "z"]);
    assert!(matches!(&m.members_vec()[1].1, JsonValue::String(s) if s == "3"));
}

#[test]
fn collision_mode_uses_counts_as_l0() {
    let mut g = Genome::new(config(true, false, false));
    g.seed("L1:3", 7);
    assert_eq!(g.hash(&obj(vec![("a", num(1))])), "L0:7-L1:3");
    assert_eq!(g.export_counters().get("L1:3"), Some(8));
    assert_eq!(g.signature(&obj(vec![("a", num(5))])), "L1:3");
    assert_eq!(g.export_counters().get("L1:3"), Some(9));
}

#[test]
fn collision_mode_counts_every_value() {
    let mut g = Genome::new(config(true, false, false));
    assert_eq!(g.hash(&num(1)), "L0:0-L1:1");
    assert_eq!(g.hash(&num(2)), "L0:1-L1:1");
    assert_eq!(g.hash(&text("x")), "L0:0-L1:2");
    assert_eq!(g.signature(&num(3)), "L1:1");
    assert_eq!(g.export_counters().get("L1:1"), Some(3));
    assert_eq!(g.hash(&obj(vec![])), "L0:0-{}");
    assert_eq!(g.hash(&obj(vec![])), "L0:1-{}");
    assert_eq!(g.signature(&arr(vec![])), "[]");
    assert_eq!(g.hash(&arr(vec![])), "L0:1-[]");
    let mut t = Genome::new(config(true, false, true));
    assert_eq!(t.hash(&num(1)), "L0:0-L1:2");
    assert_eq!(t.hash(&JsonValue::Null), "L0:1-L1:2");
}

#[test]
fn full_counter_gives_no_id() {
    let mut g = Genome::new(config(true, false, false));
    g.seed("L1:3", u64::MAX);
    assert_eq!(g.try_hash(&obj(vec![("a", num(1))])), None);
    assert_eq!(g.export_counters().get("L1:3"), Some(u64::MAX));
    g.seed("L1:3", u64::MAX - 1);
    assert_eq!(g.try_hash(&obj(vec![("a", num(1))])), Some(format!("L0:{}-L1:3", u64::MAX - 1)));
}

#[test]
fn ids_ignore_earlier_calls_outside_collision_mode() {
    let mut g = Genome::new(GenomeConfig::default());
    let v = obj(vec![("x", arr(vec![num(1)]))]);
    let first = g.hash(&v);
    g.seed("anything", 5);
    g.hash(&obj(vec![("y", num(1))]));
    assert_eq!(g.hash(&v), first);
    let mut fresh = Genome::new(GenomeConfig::default());
    assert_eq!(fresh.hash(&v), first);
    assert_eq!(g.export_counters().get("anything"), Some(5));
}

#[test]
fn key_cache_holds_key_bits() {
    let mut g = Genome::new(GenomeConfig::default());
    g.hash(&obj(vec![("k", arr(vec![num(1)]))]));
    let cache = g.export_cache();
    assert_eq!(cache.get("k"), Some(kb("k")));
    assert_eq!(cache.get("type:object"), Some(kb("type:object")));
    assert_eq!(cache.get("length:1"), Some(kb("length:1")));
    assert_eq!(cache.get("[0]"), Some(kb("[0]")));
    assert_eq!(cache.len(), 5);
    g.reset();
    assert!(g.export_cache().is_empty());
}

#[test]
fn compare_reads_plus_signs_like_rust_parse() {
    let g = Genome::new(GenomeConfig::default());
    let r = g.compare("L0:+5", "L0:5");
    assert!(!r.identical);
    assert_eq!(r.levels, vec![0]);
    assert_eq!(r.level_scores, vec![LevelScore::Exact]);
    assert_eq!(r.matched_levels, 1);
    assert_eq!(r.total_levels, 1);
}

#[test]
fn compare_skips_unreadable_parts() {
    let g = Genome::new(GenomeConfig::default());
    let r = g.compare("L0:1-junk-L2:4", "L2:8");
    assert!(!r.identical);
    assert_eq!(r.levels, vec![0, 2]);
    assert_eq!(r.level_scores, vec![LevelScore::Missing, LevelScore::Partial { a: 4, b: 8 }]);
    assert_eq!(r.matched_levels, 0);
    assert_eq!(r.total_levels, 2);
    let big = g.compare("L0:18446744073709551616", "L0:1");
    assert_eq!(big.levels, vec![0]);
    assert_eq!(big.level_scores, vec![LevelScore::Missing]);
}

#[test]
fn compare_later_parts_win() {
    let g = Genome::new(GenomeConfig::default());
    let r = g.compare("L0:1-L0:2", "L0:2");
    assert_eq!(r.level_scores, vec![LevelScore::Exact]);
    assert_eq!(r.matched_levels, 1);
}

#[test]
fn compare_identical_strings_count_parts() {
    let g = Genome::new(GenomeConfig::default());
    let r = g.compare("x", "x");
    assert!(r.identical);
    assert_eq!(r.total_levels, 1);
    assert_eq!(r.matched_levels, 1);
    assert_eq!(r.level_scores, vec![LevelScore::Exact]);
    let e = g.compare("", "");
    assert_eq!(e.total_levels, 1);
    let two = g.compare("a-b", "a-b");
    assert_eq!(two.total_levels, 2);
    assert!(two.levels.is_empty());
}

#[test]
fn compare_reads_back_what_hash_wrote() {
    let mut g = Genome::new(GenomeConfig::default());
    let a = g.hash(&obj(vec![("a", obj(vec![("b", num(1))]))]));
    let b = g.hash(&obj(vec![("a", obj(vec![("c", num(1))]))]));
    let r = g.compare(&a, &b);
    assert_eq!(r.levels, vec![0, 1, 2]);
    assert_eq!(r.level_scores[0], LevelScore::Exact);
    assert!(matches!(r.level_scores[1], LevelScore::Partial { .. }));
    assert_eq!(r.level_scores[2], LevelScore::Exact);
}

#[test]
fn same_structure_compares_identical() {
    let mut g = Genome::new(GenomeConfig::default());
    let r = g.compare_values(&obj(vec![("q", arr(vec![num(1)]))]), &obj(vec![("q", arr(vec![num(9)]))]));
    assert!(r.identical);
    assert_eq!(r.matched_levels, r.total_levels);
    assert!(r.level_scores.iter().all(|s| *s == LevelScore::Exact));
}

#[test]
fn str_table_operations() {
    let mut t = StrTable::new();
    assert!(t.is_empty());
    assert_eq!(t.get("a"), None);
    t.insert("a".to_string(), 1);
    t.insert("b".to_string(), 2);
    t.insert("a".to_string(), 3);
    assert_eq!(t.len(), 2);
    assert_eq!(t.get("a"), Some(3));
    assert!(t.contains_key("b"));
    assert!(!t.contains_key("c"));
    let mut e = t.entries();
    e.sort();
    assert_eq!(e, vec![("a".to_string(), 3), ("b".to_string(), 2)]);
    let c = t.copy();
    t.clear();
    assert!(t.is_empty());
    assert_eq!(c.get("b"), Some(2));
}

#[test]
fn deep_nesting_has_one_part_per_level() {
    let mut current = obj(vec![("value", num(0))]);
    for i in 0..70 {
        current = obj(vec![("next", current), ("value", num(i))]);
    }
    let id = Genome::new(GenomeConfig::default()).hash(&current);
    assert_eq!(id.split('-').count(), 72);
    assert!(id.split('-').enumerate().all(|(i, p)| p.starts_with(&format!("L{}:", i))));
}

#[test]
fn compare_is_symmetric() {
    let g = Genome::new(GenomeConfig::default());
    let r1 = g.compare("L0:1-L2:4-L3:7", "L2:8-L3:7-L5:1");
    let r2 = g.compare("L2:8-L3:7-L5:1", "L0:1-L2:4-L3:7");
    assert_eq!(r1.levels, vec![0, 2, 3, 5]);
    assert_eq!(r1.levels, r2.levels);
    assert_eq!(r1.matched_levels, 1);
    assert_eq!(r2.matched_levels, 1);
    assert_eq!(r1.total_levels, r2.total_levels);
    assert_eq!(r1.level_scores[1], LevelScore::Partial { a: 4, b: 8 });
    assert_eq!(r2.level_scores[1], LevelScore::Partial { a: 8, b: 4 });
    assert_eq!(r1.level_scores[0], LevelScore::Missing);
    assert_eq!(r2.level_scores[3], LevelScore::Missing);
}

#[test]
fn ids_have_one_level_per_depth() {
    let mut g = Genome::new(GenomeConfig::default());
    let v = obj(vec![("a", num(1)), ("b", obj(vec![("c", arr(vec![num(1), obj(vec![])]))]))]);
    let id = g.hash(&v);
    let levels: Vec<&str> = id.split('-').map(|p| p.split(':').next().unwrap()).collect();
    assert_eq!(levels, vec!["L0", "L1", "L2", "L3"]);
    let mut c = Genome::new(config(true, false, false));
    assert_eq!(c.hash(&v).split('-').count(), 4);
}

#[test]
fn repeated_shapes_collapse_only_when_lengths_are_ignored() {
    let mut lax = Genome::new(config(false, true, false));
    let mut strict = Genome::new(GenomeConfig::default());
    let short = arr(vec![obj(vec![("k", num(1))])]);
    let long = arr(vec![obj(vec![("k", num(1))]), obj(vec![("k", num(2))])]);
    assert_eq!(lax.hash(&short), lax.hash(&long));
    assert_ne!(strict.hash(&short), strict.hash(&long));
}

#[test]
fn try_signature_reports_a_full_counter() {
    let mut g = Genome::new(config(true, false, false));
    assert_eq!(g.try_signature(&obj(vec![("a", num(1))])), Some("L1:3".to_string()));
    g.seed("L1:3", u64::MAX);
    assert_eq!(g.try_signature(&obj(vec![("a", num(1))])), None);
    assert_eq!(g.try_signature(&num(1)), Some("L1:1".to_string()));
    let mut d = Genome::new(GenomeConfig::default());
    assert_eq!(d.try_signature(&num(1)), Some("L0:1-L1:1".to_string()));
}

#[test]
fn variadic_shape_keys_hold_member_kinds() {
    let mut g = Genome::new(config(false, true, false));
    let l0 = 1 + 256 + kb("type:array") + kb("[*].{k:number}") + kb("array:variadic");
    let l1 = 2 + 128 + kb("type:object") + kb("k") + 1;
    assert_eq!(g.hash(&arr(vec![obj(vec![("k", num(1))])])), format!("L0:{}-L1:{}-L2:5", l0, l1));
    let n0 = 1 + 256 + kb("type:array") + kb("[*].[number,string]") + kb("array:variadic");
    let n1 = 2 + 256 + kb("type:array") + kb("scalar:number") + kb("scalar:string") + kb("array:variadic");
    assert_eq!(g.hash(&arr(vec![arr(vec![text("a"), num(1), num(2)])])), format!("L0:{}-L1:{}-L2:7", n0, n1));
}

#[test]
fn variadic_elements_of_other_member_kinds_differ() {
    let mut g = Genome::new(config(false, true, false));
    let a = g.hash(&obj(vec![("items", arr(vec![obj(vec![("a", num(1))]), obj(vec![("a", text("x"))])]))]));
    let b = g.hash(&obj(vec![("items", arr(vec![obj(vec![("a", num(1))]), obj(vec![("a", num(2))])]))]));
    assert_ne!(a, b);
}

#[test]
fn variadic_nested_arrays_ignore_their_lengths() {
    let mut g = Genome::new(config(false, true, false));
    let a = g.hash(&obj(vec![("m", arr(vec![arr(vec![num(1), num(2)])]))]));
    let b = g.hash(&obj(vec![("m", arr(vec![arr(vec![num(1), num(2), num(3)])]))]));
    assert_eq!(a, b);
    let c = g.hash(&obj(vec![("m", arr(vec![arr(vec![num(1), text("x")])]))]));
    assert_ne!(a, c);
}

#[test]
fn both_flags_treat_scalar_kinds_alike_in_arrays() {
    let mut g = Genome::new(config(false, true, true));
    let a = g.hash(&arr(vec![obj(vec![("a", num(1))]), obj(vec![("a", text("x"))])]));
    let b = g.hash(&arr(vec![obj(vec![("a", JsonValue::Bool(true))])]));
    assert_eq!(a, b);
    assert_eq!(g.hash(&arr(vec![num(1), text("a")])), g.hash(&arr(vec![JsonValue::Null])));
}
