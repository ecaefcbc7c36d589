use genome_rs::{hash_str, xx_hash32, Genome, GenomeConfig, JsonValue, LevelScore, Similarity};

fn g() -> Genome {
    Genome::new(GenomeConfig::default())
}

fn g_with(config: GenomeConfig) -> Genome {
    Genome::new(config)
}

fn obj(members: Vec<(&str, JsonValue)>) -> JsonValue {
    JsonValue::object(members.into_iter().map(|(k, v)| (k.to_string(), v)).collect())
}

fn arr(items: Vec<JsonValue>) -> JsonValue {
    JsonValue::Array(items)
}

fn num(n: i64) -> JsonValue {
    JsonValue::Number(n.to_string())
}

fn text(s: &str) -> JsonValue {
    JsonValue::String(s.to_string())
}

fn boolean(b: bool) -> JsonValue {
    JsonValue::Bool(b)
}

/// The L0 value of a structure ID.
fn l0(id: &str) -> &str {
    id.split('-').next().unwrap().split(':').nth(1).unwrap()
}

/// Everything after L0.
fn signature(id: &str) -> &str {
    id.splitn(2, '-').nth(1).unwrap_or("")
}

/// The level parts of an ID.
fn parts(id: &str) -> Vec<&str> {
    id.split('-').collect()
}

/// The score of a comparison: levels weighted by 1/(level+1), an exact level
/// counting fully and a partial one by the proximity of its two hashes.
fn score(r: &Similarity) -> f64 {
    if r.identical {
        return 1.0;
    }
    let weight_sum: f64 = r.levels.iter().map(|&l| 1.0 / (l + 1) as f64).sum();
    let mut total = 0.0_f64;
    for (i, &l) in r.levels.iter().enumerate() {
        let weight = (1.0 / (l + 1) as f64) / weight_sum;
        total += level_value(r.level_scores[i]) * weight;
    }
    total
}

fn level_value(s: LevelScore) -> f64 {
    match s {
        LevelScore::Exact => 1.0,
        LevelScore::Partial { a, b } => {
            let diff = a.abs_diff(b);
            let max = a.max(b);
            if max == 0 {
                1.0
            } else {
                (1.0 - (diff as f64 / max as f64)).max(0.0)
            }
        }
        LevelScore::Missing => 0.0,
    }
}

// Hash functions

#[test]
fn xxhash_consistent_same_input() {
    let input = "test-string";
    assert_eq!(hash_str(input, 0), hash_str(input, 0));
}

#[test]
fn xxhash_different_inputs_different_hashes() {
    assert_ne!(hash_str("test-string-1", 0), hash_str("test-string-2", 0));
}

#[test]
fn xxhash_empty_string() {
    let result = hash_str("", 0);
    assert!(!result.is_empty());
    assert!(result.chars().all(|c| c.is_ascii_hexdigit()));
}

#[test]
fn xxhash_unicode() {
    let result = hash_str("测试字符串", 0);
    assert!(!result.is_empty());
    assert!(result.chars().all(|c| c.is_ascii_hexdigit()));
}

#[test]
fn xxhash_accepts_bytes() {
    let input = "test-string";
    let bytes = input.as_bytes();
    assert_eq!(hash_str(input, 0), format!("{:x}", xx_hash32(bytes, 0)));
}

#[test]
fn xxhash_custom_seed_differs() {
    let input = "test-string";
    assert_ne!(hash_str(input, 0), hash_str(input, 42));
}

#[test]
fn xxhash_long_input() {
    let long = "a".repeat(10_000);
    let _ = hash_str(&long, 0);
}

// Edge cases

#[test]
fn empty_object_returns_braces() {
    assert_eq!(g().hash(&obj(vec![])), "{}");
}

#[test]
fn empty_array_returns_brackets() {
    assert_eq!(g().hash(&arr(vec![])), "[]");
}

#[test]
fn handles_null() {
    let id = g().hash(&JsonValue::Null);
    assert!(!id.is_empty());
}

#[test]
fn handles_bool() {
    let id = g().hash(&boolean(true));
    assert!(!id.is_empty());
}

#[test]
fn handles_number() {
    let id = g().hash(&num(42));
    assert!(!id.is_empty());
}

#[test]
fn handles_string() {
    let id = g().hash(&text("hello"));
    assert!(!id.is_empty());
}

#[test]
fn property_order_does_not_affect_id() {
    let mut g = g();
    let id1 = g.hash(&obj(vec![("a", num(1)), ("b", num(2)), ("c", num(3))]));
    let id2 = g.hash(&obj(vec![("c", num(3)), ("b", num(2)), ("a", num(1))]));
    assert_eq!(id1, id2);
}

#[test]
fn deeply_nested_does_not_overflow() {
    let mut current = obj(vec![("value", num(0))]);
    for i in 0..100 {
        current = obj(vec![("next", current), ("value", num(i))]);
    }
    let _ = g().hash(&current);
}

// Basic objects

#[test]
fn integration_same_structure_different_values_same_id() {
    let mut g = g();
    let id1 = g.hash(&obj(vec![("count", num(0)), ("name", text("test"))]));
    let id2 = g.hash(&obj(vec![("count", num(42)), ("name", text("different"))]));
    assert_eq!(id1, id2);
}

#[test]
fn different_keys_different_id() {
    let mut g = g();
    let id1 = g.hash(&obj(vec![("count", num(0)), ("name", text("test"))]));
    let id2 = g.hash(&obj(vec![("count", num(0)), ("title", text("test"))]));
    assert_ne!(id1, id2);
}

#[test]
fn property_order_same_id() {
    let mut g = g();
    let id1 = g.hash(&obj(vec![("count", num(0)), ("name", text("test"))]));
    let id2 = g.hash(&obj(vec![("name", text("test")), ("count", num(0))]));
    assert_eq!(id1, id2);
}

#[test]
fn different_value_types_different_id() {
    let mut g = g();
    let id1 = g.hash(&obj(vec![("count", num(0)), ("name", text("test"))]));
    let id2 = g.hash(&obj(vec![("count", text("0")), ("name", text("test"))]));
    assert_ne!(id1, id2);
}

#[test]
fn consistent_across_multiple_calls() {
    let mut g = g();
    let value = obj(vec![("count", num(0)), ("name", text("test"))]);
    let id1 = g.hash(&value);
    let id2 = g.hash(&value);
    let id3 = g.hash(&value);
    assert_eq!(id1, id2);
    assert_eq!(id2, id3);
}

// Nested objects

fn user(name: &str, age: i64, theme: &str, last: (&str, JsonValue)) -> JsonValue {
    obj(vec![(
        "user",
        obj(vec![
            ("name", text(name)),
            ("age", num(age)),
            ("preferences", obj(vec![("theme", text(theme)), last])),
        ]),
    )])
}

#[test]
fn identical_nested_structure_same_id() {
    let mut g = g();
    let obj1 = user("John", 30, "dark", ("notifications", boolean(true)));
    let obj2 = user("Jane", 25, "light", ("notifications", boolean(false)));
    assert_eq!(g.hash(&obj1), g.hash(&obj2));
}

#[test]
fn different_nested_structure_different_id() {
    let mut g = g();
    let obj1 = user("John", 30, "dark", ("notifications", boolean(true)));
    let obj2 = user("Jane", 25, "light", ("fontSize", num(14)));
    assert_ne!(g.hash(&obj1), g.hash(&obj2));
}

fn five_deep(value: &str) -> JsonValue {
    obj(vec![(
        "level1",
        obj(vec![(
            "level2",
            obj(vec![(
                "level3",
                obj(vec![("level4", obj(vec![("level5", obj(vec![("value", text(value))]))]))]),
            )]),
        )]),
    )])
}

#[test]
fn deeply_nested_same_id_and_many_levels() {
    let mut g = g();
    let id1 = g.hash(&five_deep("deep"));
    let id2 = g.hash(&five_deep("also deep"));
    assert_eq!(id1, id2);
    assert!(parts(&id1).len() > 5, "expected more than 5 levels, got {}", parts(&id1).len());
}

// Arrays

fn items(values: Vec<JsonValue>) -> JsonValue {
    obj(vec![("items", arr(values))])
}

#[test]
fn arrays_same_structure_different_values_same_id() {
    let mut g = g();
    let id1 = g.hash(&items(vec![num(1), num(2), num(3)]));
    let id2 = g.hash(&items(vec![num(4), num(5), num(6)]));
    assert_eq!(id1, id2);
}

#[test]
fn different_array_length_different_id() {
    let mut g = g();
    let id1 = g.hash(&items(vec![num(1), num(2), num(3)]));
    let id2 = g.hash(&items(vec![num(1), num(2), num(3), num(4)]));
    assert_ne!(id1, id2);
}

#[test]
fn different_element_types_different_id() {
    let mut g = g();
    let id1 = g.hash(&items(vec![num(1), num(2), num(3)]));
    let id2 = g.hash(&items(vec![num(1), text("2"), num(3)]));
    assert_ne!(id1, id2);
}

fn person(name: &str, age: i64) -> JsonValue {
    obj(vec![("name", text(name)), ("age", num(age))])
}

#[test]
fn array_of_objects_same_structure_same_id() {
    let mut g = g();
    let id1 = g.hash(&obj(vec![("users", arr(vec![person("John", 30), person("Jane", 25)]))]));
    let id2 = g.hash(&obj(vec![("users", arr(vec![person("Alice", 35), person("Bob", 40)]))]));
    assert_eq!(id1, id2);
}

#[test]
fn array_of_objects_different_structure_different_id() {
    let mut g = g();
    let id1 = g.hash(&obj(vec![("users", arr(vec![person("John", 30), person("Jane", 25)]))]));
    let admin = obj(vec![("name", text("John")), ("role", text("admin"))]);
    let id2 = g.hash(&obj(vec![("users", arr(vec![admin, person("Jane", 25)]))]));
    assert_ne!(id1, id2);
}

#[test]
fn mixed_type_array_same_structure_same_id() {
    let mut g = g();
    let id1 = g.hash(&obj(vec![(
        "mixed",
        arr(vec![num(1), text("string"), boolean(true), obj(vec![("a", num(1))])]),
    )]));
    let id2 = g.hash(&obj(vec![(
        "mixed",
        arr(vec![num(2), text("text"), boolean(false), obj(vec![("a", num(42))])]),
    )]));
    assert_eq!(id1, id2);
}

// ignore_array_length

#[test]
fn same_element_shape_different_length_same_id() {
    let mut g = g_with(GenomeConfig { ignore_array_length: true, ..Default::default() });
    let id1 = g.hash(&items(vec![num(1), num(2), num(3)]));
    let id2 = g.hash(&items(vec![num(1), num(2)]));
    assert_eq!(id1, id2);
}

#[test]
fn different_element_shapes_still_differ() {
    let mut g = g_with(GenomeConfig { ignore_array_length: true, ..Default::default() });
    let id1 = g.hash(&items(vec![num(1), text("a")]));
    let id2 = g.hash(&items(vec![num(1), num(2)]));
    assert_ne!(id1, id2);
}

#[test]
fn default_mode_still_uses_length() {
    let mut g = g();
    let id1 = g.hash(&items(vec![num(1), num(2), num(3)]));
    let id2 = g.hash(&items(vec![num(1), num(2)]));
    assert_ne!(id1, id2);
}

// ignore_value_types

#[test]
fn same_keys_different_scalar_types_same_id() {
    let mut g = g_with(GenomeConfig { ignore_value_types: true, ..Default::default() });
    let id1 = g.hash(&obj(vec![("id", num(1)), ("name", text("foo")), ("sub", obj(vec![("foo", text("bar"))]))]));
    let id2 = g.hash(&obj(vec![("id", num(2)), ("name", text("x")), ("sub", obj(vec![("foo", num(3))]))]));
    assert_eq!(id1, id2);
}

#[test]
fn different_keys_still_differ() {
    let mut g = g_with(GenomeConfig { ignore_value_types: true, ..Default::default() });
    let id1 = g.hash(&obj(vec![("id", num(1)), ("name", text("foo"))]));
    let id2 = g.hash(&obj(vec![("id", num(1)), ("title", text("foo"))]));
    assert_ne!(id1, id2);
}

#[test]
fn different_nesting_depth_still_differs() {
    let mut g = g_with(GenomeConfig { ignore_value_types: true, ..Default::default() });
    let id1 = g.hash(&obj(vec![("sub", obj(vec![("foo", text("bar"))]))]));
    let id2 = g.hash(&obj(vec![("sub", obj(vec![("foo", obj(vec![("baz", text("bar"))]))]))]));
    assert_ne!(id1, id2);
}

fn conversation_pair() -> (JsonValue, JsonValue) {
    let a = obj(vec![
        ("id", num(1)),
        ("name", text("something")),
        ("sub", obj(vec![("foo", text("bar"))])),
        ("arr", arr(vec![person("michael", 23), person("miguel", 32)])),
    ]);
    let b = obj(vec![
        ("id", num(2)),
        ("name", text("something else")),
        ("sub", obj(vec![("foo", num(3))])),
        ("arr", arr(vec![person("michael", 23)])),
    ]);
    (a, b)
}

#[test]
fn both_flags_together() {
    let mut g = g_with(GenomeConfig {
        ignore_array_length: true,
        ignore_value_types: true,
        ..Default::default()
    });
    let (obj1, obj2) = conversation_pair();
    assert_eq!(g.hash(&obj1), g.hash(&obj2));
}

// Collision handling

fn collision_mode() -> Genome {
    g_with(GenomeConfig { new_id_on_collision: true, ..Default::default() })
}

#[test]
fn no_collision_mode_same_structure_same_id() {
    let mut g = g();
    let id1 = g.hash(&person("John", 30));
    let id2 = g.hash(&person("Jane", 25));
    assert_eq!(id1, id2);
}

#[test]
fn collision_mode_same_structure_different_id() {
    let mut g = collision_mode();
    let id1 = g.hash(&person("John", 30));
    let id2 = g.hash(&person("Jane", 25));
    assert_ne!(id1, id2);
}

#[test]
fn collision_mode_l0_increments_sequentially() {
    let mut g = collision_mode();
    let ids: Vec<String> = (0..5).map(|i| g.hash(&obj(vec![("value", num(i))]))).collect();
    for (expected, id) in ids.iter().enumerate() {
        assert_eq!(l0(id), expected.to_string(), "expected L0={expected} in {id}");
    }
}

#[test]
fn collision_mode_only_l0_differs() {
    let mut g = collision_mode();
    let id1 = g.hash(&person("John", 30));
    let id2 = g.hash(&person("Jane", 25));
    assert_ne!(l0(&id1), l0(&id2));
    assert_eq!(signature(&id1), signature(&id2));
    assert_eq!(parts(&id1).len(), parts(&id2).len());
}

fn complex(name: &str, theme: &str, notifications: bool, first: i64) -> JsonValue {
    obj(vec![
        (
            "user",
            obj(vec![
                ("name", text(name)),
                ("settings", obj(vec![("theme", text(theme)), ("notifications", boolean(notifications))])),
            ]),
        ),
        ("items", arr(vec![num(first), num(first + 1), num(first + 2)])),
    ])
}

#[test]
fn collision_mode_complex_objects() {
    let mut g = collision_mode();
    let id1 = g.hash(&complex("User 1", "dark", true, 1));
    let id2 = g.hash(&complex("User 2", "light", false, 4));
    assert_ne!(id1, id2);
    assert_eq!(l0(&id1), "0");
    assert_eq!(l0(&id2), "1");
    assert_eq!(signature(&id1), signature(&id2));
}

#[test]
fn reset_clears_collision_counters() {
    let mut g = collision_mode();
    let id_a1 = g.hash(&obj(vec![("test", boolean(true))]));
    let id_a2 = g.hash(&obj(vec![("test", boolean(false))]));
    assert_eq!(l0(&id_a1), "0");
    assert_eq!(l0(&id_a2), "1");

    g.reset();

    let id_b1 = g.hash(&obj(vec![("test", text("first"))]));
    let id_b2 = g.hash(&obj(vec![("test", text("second"))]));
    assert_eq!(l0(&id_b1), "0");
    assert_eq!(l0(&id_b2), "1");
}

// Structure signature

fn named(id: i64, key: &str, name: &str) -> JsonValue {
    obj(vec![("id", num(id)), (key, text(name))])
}

#[test]
fn same_shape_same_signature() {
    let mut g = g();
    let sig1 = g.signature(&named(1, "name", "John"));
    let sig2 = g.signature(&named(2, "name", "Jane"));
    assert_eq!(sig1, sig2);
}

#[test]
fn integration_different_shape_different_signature() {
    let mut g = g();
    let sig1 = g.signature(&named(1, "name", "John"));
    let sig2 = g.signature(&named(1, "title", "John"));
    assert_ne!(sig1, sig2);
}

#[test]
fn signature_contains_level_markers() {
    let mut g = g();
    let sig = g.signature(&obj(vec![("a", obj(vec![("b", num(1))]))]));
    assert!(sig.contains("L0:"), "expected L0: in signature, got {sig}");
    assert!(sig.contains("L1:"), "expected L1: in signature, got {sig}");
    assert!(sig.contains("L2:"), "expected L2: in signature, got {sig}");
}

#[test]
fn collision_mode_signature_strips_l0() {
    let mut g = collision_mode();
    let sig1 = g.signature(&named(1, "name", "John"));
    let sig2 = g.signature(&named(2, "name", "Jane"));
    assert_eq!(sig1, sig2);
    assert!(!sig1.starts_with("L0:"), "expected L0 to be stripped, got {sig1}");
    assert!(sig1.starts_with("L1:"), "expected signature to start with L1:, got {sig1}");
}

// Similarity comparison

#[test]
fn integration_identical_ids_score_1() {
    let g = g();
    let id = "L0:100-L1:200-L2:300";
    let result = g.compare(id, id);
    assert_eq!(score(&result), 1.0);
    assert_eq!(result.matched_levels, 3);
    assert_eq!(result.total_levels, 3);
    assert!(result.level_scores.iter().all(|&s| level_value(s) == 1.0));
}

#[test]
fn integration_completely_different_ids_score_low() {
    let g = g();
    let result = g.compare("L0:100-L1:200", "L0:999-L1:888");
    assert!(score(&result) < 0.5, "expected low score, got {}", score(&result));
}

#[test]
fn same_structure_objects_score_1() {
    let mut g = g();
    let a = obj(vec![("id", num(1)), ("name", text("michael"))]);
    let b = obj(vec![("id", num(2)), ("name", text("miguel"))]);
    let result = g.compare_values(&a, &b);
    assert_eq!(score(&result), 1.0);
}

#[test]
fn depth_mismatch_penalized() {
    let g = g();
    let result = g.compare("L0:100-L1:200-L2:300", "L0:100-L1:200");
    assert!(score(&result) < 1.0, "expected penalty for depth mismatch");
    assert_eq!(result.total_levels, 3);
}

#[test]
fn level_scores_length_matches_total_levels() {
    let g = g();
    let result = g.compare("L0:100-L1:200-L2:300", "L0:100-L1:999-L2:300");
    assert_eq!(result.level_scores.len(), result.total_levels);
}

#[test]
fn conversation_example_same_l0_default_mode() {
    let mut g = g();
    let (a, b) = conversation_pair();
    let id_a = g.hash(&a);
    let id_b = g.hash(&b);
    assert_ne!(id_a, id_b);
    let similarity = g.compare(&id_a, &id_b);
    assert!(score(&similarity) > 0.7, "expected high similarity, got {}", score(&similarity));
}

// State management

#[test]
fn reset_produces_same_id_for_same_structure() {
    let mut g = g();
    let value = obj(vec![("a", num(1)), ("b", text("test"))]);
    let id_before = g.hash(&value);
    g.reset();
    let id_after = g.hash(&value);
    assert_eq!(id_before, id_after);
}

#[test]
fn structural_equality_holds_after_reset() {
    let mut g = g();
    g.hash(&obj(vec![("a", num(1)), ("b", num(2))]));
    g.reset();
    let id1 = g.hash(&obj(vec![("a", num(1)), ("b", text("test"))]));
    let id2 = g.hash(&obj(vec![("a", num(2)), ("b", text("different"))]));
    assert_eq!(id1, id2);
}

#[test]
fn export_and_reimport_collision_counters() {
    let mut g = collision_mode();
    let value = obj(vec![("a", num(1))]);
    for i in 0..3 {
        g.hash(&obj(vec![("a", num(i))]));
    }

    let counters = g.export_counters();
    assert!(!counters.is_empty());

    let mut g2 = collision_mode();
    for (sig, count) in &counters.entries() {
        g2.seed(sig, *count);
    }

    let id = g2.hash(&value);
    assert_eq!(l0(&id), "3");
}

#[test]
fn key_cache_exported() {
    let mut g = g();
    g.hash(&obj(vec![("some_key", num(1))]));
    let cache = g.export_cache();
    assert!(cache.contains_key("some_key"), "expected some_key in key cache");
}

// Compact helpers

fn compact_id(g: &mut Genome, value: &JsonValue) -> String {
    let full_id = g.hash(value);
    hash_str(&full_id, 0)
}

#[test]
fn compact_is_deterministic() {
    let mut g = g();
    let value = obj(vec![("a", num(1)), ("b", text("test"))]);
    assert_eq!(compact_id(&mut g, &value), compact_id(&mut g, &value));
}

#[test]
fn compact_differs_for_different_structures() {
    let mut g = g();
    let id1 = compact_id(&mut g, &obj(vec![("deeply", obj(vec![("nested", obj(vec![("value", num(1))]))]))]));
    let id2 = compact_id(&mut g, &items(vec![num(1), num(2), num(3), num(4), num(5)]));
    assert_ne!(id1, id2);
}

#[test]
fn compact_different_shape_different_signature() {
    let mut g = g();
    let id1 = compact_id(&mut g, &named(1, "name", "John"));
    let id2 = compact_id(&mut g, &named(1, "title", "John"));
    assert_ne!(id1, id2);
}

#[test]
fn compact_shorter_than_full_id() {
    let mut g = g();
    let value = obj(vec![("a", num(1)), ("b", text("test"))]);
    let full = g.hash(&value);
    let compact = compact_id(&mut g, &value);
    assert_ne!(full.len(), compact.len());
}

#[test]
fn compact_different_primitives() {
    let mut g = g();
    let id_num = compact_id(&mut g, &num(42));
    let id_str = compact_id(&mut g, &text("test"));
    let id_bool = compact_id(&mut g, &boolean(true));
    assert_ne!(id_num, id_str);
    assert_ne!(id_str, id_bool);
    assert_ne!(id_num, id_bool);
}
