use rust_cloud_config_client::binding::{
    coerce_json_value, coerce_string, nested_value_from_flat_map, nested_value_from_string_map,
    parse_property_path, PathSegment,
};
use rust_cloud_config_client::{JsonNumber, JsonValue, OrderedMap, ScalarCoercion};

fn string(s: &str) -> JsonValue {
    JsonValue::String(s.to_string())
}

fn uint(n: u64) -> JsonValue {
    JsonValue::Number(JsonNumber::PosInt(n))
}

fn object(members: Vec<(&str, JsonValue)>) -> JsonValue {
    let mut map = OrderedMap::new();
    for (key, value) in members {
        map.insert(key.to_string(), value);
    }
    JsonValue::Object(map)
}

fn field(s: &str) -> PathSegment {
    PathSegment::Field(s.to_string())
}

#[test]
fn builds_nested_objects_and_arrays() {
    let mut flat = OrderedMap::new();
    flat.insert("server.port".to_string(), string("8080"));
    flat.insert("replicas[0].id".to_string(), string("blue"));
    flat.insert("replicas[0].weight".to_string(), string("100"));
    flat.insert("replicas[1].id".to_string(), string("green"));

    let value = nested_value_from_flat_map(&flat, ScalarCoercion::Smart);

    assert_eq!(
        value,
        object(vec![
            ("server", object(vec![("port", uint(8080))])),
            (
                "replicas",
                JsonValue::Array(vec![
                    object(vec![("id", string("blue")), ("weight", uint(100))]),
                    object(vec![("id", string("green"))]),
                ])
            ),
        ])
    );
}

#[test]
fn preserve_keeps_strings_when_nesting() {
    let mut flat = OrderedMap::new();
    flat.insert("server.port".to_string(), "8080".to_string());
    flat.insert("feature.enabled".to_string(), "true".to_string());

    let value = nested_value_from_string_map(&flat, ScalarCoercion::Preserve);

    assert_eq!(
        value,
        object(vec![
            ("feature", object(vec![("enabled", string("true"))])),
            ("server", object(vec![("port", string("8080"))])),
        ])
    );
}

#[test]
fn later_keys_overwrite_scalars_with_containers() {
    // "a" sorts before "a.b": the scalar is replaced by an object.
    let mut flat = OrderedMap::new();
    flat.insert("a".to_string(), string("x"));
    flat.insert("a.b".to_string(), string("y"));

    let value = nested_value_from_flat_map(&flat, ScalarCoercion::Preserve);

    assert_eq!(value, object(vec![("a", object(vec![("b", string("y"))]))]));
}

#[test]
fn array_gaps_are_filled_with_null() {
    let mut flat = OrderedMap::new();
    flat.insert("items[2]".to_string(), string("c"));

    let value = nested_value_from_flat_map(&flat, ScalarCoercion::Preserve);

    assert_eq!(
        value,
        object(vec![(
            "items",
            JsonValue::Array(vec![JsonValue::Null, JsonValue::Null, string("c")])
        )])
    );
}

#[test]
fn keys_without_segments_are_skipped() {
    let mut flat = OrderedMap::new();
    flat.insert("..".to_string(), string("ignored"));
    flat.insert("[]".to_string(), string("ignored too"));

    let value = nested_value_from_flat_map(&flat, ScalarCoercion::Smart);

    assert_eq!(value, object(vec![]));
}

#[test]
fn parses_property_paths() {
    assert_eq!(
        parse_property_path("servers[0].host"),
        vec![field("servers"), PathSegment::Index(0), field("host")]
    );
    assert_eq!(parse_property_path("a..b."), vec![field("a"), field("b")]);
    assert_eq!(parse_property_path("map[ 'key one' ]"), vec![field("map"), field("key one")]);
    assert_eq!(parse_property_path("map[\"k\"]"), vec![field("map"), field("k")]);
    assert_eq!(parse_property_path("list[ +12 ]"), vec![field("list"), PathSegment::Index(12)]);
    assert_eq!(parse_property_path("list[]"), vec![field("list")]);
    assert_eq!(parse_property_path("list[-1]"), vec![field("list"), field("-1")]);
    assert_eq!(parse_property_path("open[3"), vec![field("open"), PathSegment::Index(3)]);
    assert_eq!(parse_property_path(""), Vec::<PathSegment>::new());
    assert_eq!(
        parse_property_path("x[99999999999999999999999]"),
        vec![field("x"), field("99999999999999999999999")]
    );
}

#[test]
fn coerces_booleans_in_any_ascii_case() {
    assert_eq!(coerce_string("true"), JsonValue::Bool(true));
    assert_eq!(coerce_string("TRUE"), JsonValue::Bool(true));
    assert_eq!(coerce_string("False"), JsonValue::Bool(false));
    assert_eq!(coerce_string("yes"), string("yes"));
}

#[test]
fn coerces_integers() {
    assert_eq!(coerce_string("8080"), uint(8080));
    assert_eq!(coerce_string("0"), uint(0));
    assert_eq!(coerce_string("-0"), uint(0));
    assert_eq!(coerce_string("-12"), JsonValue::Number(JsonNumber::NegInt(-12)));
    assert_eq!(coerce_string("18446744073709551615"), uint(u64::MAX));
    assert_eq!(
        coerce_string("-9223372036854775808"),
        JsonValue::Number(JsonNumber::NegInt(i64::MIN))
    );
}

#[test]
fn leaves_integers_that_do_not_fit_or_look_odd() {
    assert_eq!(coerce_string("18446744073709551616"), string("18446744073709551616"));
    assert_eq!(coerce_string("-9223372036854775809"), string("-9223372036854775809"));
    assert_eq!(coerce_string("007"), string("007"));
    assert_eq!(coerce_string("+5"), string("+5"));
    assert_eq!(coerce_string("-"), string("-"));
    assert_eq!(coerce_string(""), string(""));
}

#[test]
fn coerces_decimal_texts_to_floats() {
    let float = |s: &str| JsonValue::Number(JsonNumber::Float(s.to_string()));
    assert_eq!(coerce_string("1.5"), float("1.5"));
    assert_eq!(coerce_string(".5"), float(".5"));
    assert_eq!(coerce_string("5."), float("5."));
    assert_eq!(coerce_string("-2.5e3"), float("-2.5e3"));
    assert_eq!(coerce_string("1E+2"), float("1E+2"));
    assert_eq!(coerce_string("e5"), string("e5"));
    assert_eq!(coerce_string("1.0e"), string("1.0e"));
    assert_eq!(coerce_string("1.2.3"), string("1.2.3"));
    assert_eq!(coerce_string("inf"), string("inf"));
    assert_eq!(coerce_string("1e999"), string("1e999"));
    assert_eq!(coerce_string("-1.5e400"), string("-1.5e400"));
    assert_eq!(coerce_string("1e-999"), float("1e-999"));
    assert_eq!(coerce_string("NaN"), string("NaN"));
}

#[test]
fn coercion_reaches_every_string_in_the_tree() {
    let tree = JsonValue::Array(vec![
        string("true"),
        object(vec![("n", string("42")), ("s", string("text"))]),
        JsonValue::Null,
    ]);

    let smart = coerce_json_value(&tree, ScalarCoercion::Smart);
    assert_eq!(
        smart,
        JsonValue::Array(vec![
            JsonValue::Bool(true),
            object(vec![("n", uint(42)), ("s", string("text"))]),
            JsonValue::Null,
        ])
    );

    // Smart coercion is idempotent.
    assert_eq!(coerce_json_value(&smart, ScalarCoercion::Smart), smart);

    // Preserve hands the tree back unchanged.
    assert_eq!(coerce_json_value(&tree, ScalarCoercion::Preserve), tree);
}

#[test]
fn default_coercion_is_smart() {
    assert_eq!(ScalarCoercion::default(), ScalarCoercion::Smart);
}

#[test]
fn coercing_after_nesting_matches_coercing_while_nesting() {
    let mut flat = OrderedMap::new();
    flat.insert("a[1].on".to_string(), string("TRUE"));
    flat.insert("a[0]".to_string(), string("-7"));
    flat.insert("b.ratio".to_string(), string("0.25"));
    flat.insert("b".to_string(), string("overwritten"));

    let preserved = nested_value_from_flat_map(&flat, ScalarCoercion::Preserve);
    let after = coerce_json_value(&preserved, ScalarCoercion::Smart);
    let during = nested_value_from_flat_map(&flat, ScalarCoercion::Smart);

    assert_eq!(after, during);
    assert_eq!(
        during,
        object(vec![
            (
                "a",
                JsonValue::Array(vec![
                    JsonValue::Number(JsonNumber::NegInt(-7)),
                    object(vec![("on", JsonValue::Bool(true))]),
                ])
            ),
            (
                "b",
                object(vec![("ratio", JsonValue::Number(JsonNumber::Float("0.25".to_string())))])
            ),
        ])
    );
}
