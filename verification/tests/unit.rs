use genome_rs::{hash_str, Genome, GenomeConfig, JsonValue, LevelScore, Similarity};

fn genome() -> Genome {
    Genome::new(GenomeConfig::default())
}

fn obj(members: Vec<(&str, JsonValue)>) -> JsonValue {
    JsonValue::object(members.into_iter().map(|(k, v)| (k.to_string(), v)).collect())
}

fn arr(items: Vec<JsonValue>) -> JsonValue {
    JsonValue::Array(items)
}

fn num(n: i64) -> JsonValue {
    JsonValue::Number(n.to_string())
}

fn text(s: &str) -> JsonValue {
    JsonValue::String(s.to_string())
}

/// The score of a comparison: levels weighted by 1/(level+1), an exact level
/// counting fully and a partial one by the proximity of its two hashes.
fn score(r: &Similarity) -> f64 {
    if r.identical {
        return 1.0;
    }
    let weight_sum: f64 = r.levels.iter().map(|&l| 1.0 / (l + 1) as f64).sum();
    let mut total = 0.0_f64;
    for (i, &l) in r.levels.iter().enumerate() {
        let weight = (1.0 / (l + 1) as f64) / weight_sum;
        match r.level_scores[i] {
            LevelScore::Exact => total += weight,
            LevelScore::Partial { a, b } => {
                let diff = a.abs_diff(b);
                let max = a.max(b);
                let proximity = if max == 0 { 1.0 } else { (1.0 - (diff as f64 / max as f64)).max(0.0) };
                total += proximity * weight;
            }
            LevelScore::Missing => {}
        }
    }
    total
}

#[test]
fn hash_str_empty_string() {
    let result = hash_str("", 0);
    assert!(!result.is_empty());
    assert!(result.chars().all(|c| c.is_ascii_hexdigit()));
}

#[test]
fn hash_str_deterministic() {
    assert_eq!(hash_str("hello", 0), hash_str("hello", 0));
    assert_ne!(hash_str("hello", 0), hash_str("world", 0));
}

#[test]
fn empty_object() {
    assert_eq!(genome().hash(&obj(vec![])), "{}");
}

#[test]
fn empty_array() {
    assert_eq!(genome().hash(&arr(vec![])), "[]");
}

#[test]
fn same_shape_different_values_same_id() {
    let mut g = genome();
    let a = obj(vec![("id", num(1)), ("name", text("michael"))]);
    let b = obj(vec![("id", num(2)), ("name", text("miguel"))]);
    assert_eq!(g.hash(&a), g.hash(&b));
}

#[test]
fn different_keys_produce_different_id() {
    let mut g = genome();
    let a = obj(vec![("id", num(1)), ("name", text("michael"))]);
    let b = obj(vec![("id", num(1)), ("title", text("michael"))]);
    assert_ne!(g.hash(&a), g.hash(&b));
}

#[test]
fn different_array_lengths_differ_by_default() {
    let mut g = genome();
    let a = obj(vec![("items", arr(vec![num(1), num(2), num(3)]))]);
    let b = obj(vec![("items", arr(vec![num(1), num(2)]))]);
    assert_ne!(g.hash(&a), g.hash(&b));
}

#[test]
fn ignore_array_length_same_element_shape() {
    let mut g = Genome::new(GenomeConfig { ignore_array_length: true, ..Default::default() });
    assert_eq!(
        g.hash(&obj(vec![("items", arr(vec![num(1), num(2), num(3)]))])),
        g.hash(&obj(vec![("items", arr(vec![num(1), num(2)]))]))
    );
}

#[test]
fn ignore_array_length_different_shapes_still_differ() {
    let mut g = Genome::new(GenomeConfig { ignore_array_length: true, ..Default::default() });
    assert_ne!(
        g.hash(&obj(vec![("items", arr(vec![num(1), text("a")]))])),
        g.hash(&obj(vec![("items", arr(vec![num(1), num(2)]))]))
    );
}

#[test]
fn ignore_value_types_same_keys_different_types() {
    let mut g = Genome::new(GenomeConfig { ignore_value_types: true, ..Default::default() });
    let a = obj(vec![("id", num(1)), ("name", text("foo")), ("sub", obj(vec![("foo", text("bar"))]))]);
    let b = obj(vec![("id", num(2)), ("name", text("x")), ("sub", obj(vec![("foo", num(3))]))]);
    assert_eq!(g.hash(&a), g.hash(&b));
}

#[test]
fn ignore_value_types_different_keys_still_differ() {
    let mut g = Genome::new(GenomeConfig { ignore_value_types: true, ..Default::default() });
    assert_ne!(
        g.hash(&obj(vec![("id", num(1)), ("name", text("foo"))])),
        g.hash(&obj(vec![("id", num(1)), ("title", text("foo"))]))
    );
}

#[test]
fn lib_identical_ids_score_1() {
    let g = genome();
    let result = g.compare("L0:100-L1:200-L2:300", "L0:100-L1:200-L2:300");
    assert_eq!(score(&result), 1.0);
    assert_eq!(result.matched_levels, 3);
}

#[test]
fn lib_completely_different_ids_score_low() {
    let g = genome();
    let result = g.compare("L0:100-L1:200", "L0:999-L1:888");
    assert!(score(&result) < 0.5);
}

#[test]
fn compare_values_same_shape_scores_1() {
    let mut g = genome();
    let a = obj(vec![("id", num(1)), ("name", text("michael"))]);
    let b = obj(vec![("id", num(2)), ("name", text("miguel"))]);
    assert_eq!(score(&g.compare_values(&a, &b)), 1.0);
}

fn conversation_pair() -> (JsonValue, JsonValue) {
    let a = obj(vec![
        ("id", num(1)),
        ("name", text("something")),
        ("sub", obj(vec![("foo", text("bar"))])),
        (
            "arr",
            arr(vec![
                obj(vec![("name", text("michael")), ("age", num(23))]),
                obj(vec![("name", text("miguel")), ("age", num(32))]),
            ]),
        ),
    ]);
    let b = obj(vec![
        ("id", num(2)),
        ("name", text("something else")),
        ("sub", obj(vec![("foo", num(3))])),
        ("arr", arr(vec![obj(vec![("name", text("michael")), ("age", num(23))])])),
    ]);
    (a, b)
}

#[test]
fn conversation_example() {
    let mut g = genome();
    let (a, b) = conversation_pair();
    assert_ne!(g.hash(&a), g.hash(&b));

    let mut g2 = Genome::new(GenomeConfig {
        ignore_array_length: true,
        ignore_value_types: true,
        ..Default::default()
    });
    assert_eq!(g2.hash(&a), g2.hash(&b));
}
