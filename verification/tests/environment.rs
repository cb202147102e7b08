use rust_cloud_config_client::{
    Environment, JsonNumber, JsonValue, OrderedMap, PropertySource, ScalarCoercion,
};

fn string(s: &str) -> JsonValue {
    JsonValue::String(s.to_string())
}

fn source(name: &str, entries: Vec<(&str, JsonValue)>) -> PropertySource {
    let mut map = OrderedMap::new();
    for (key, value) in entries {
        map.insert(key.to_string(), value);
    }
    PropertySource { name: name.to_string(), source: map }
}

fn object(members: Vec<(&str, JsonValue)>) -> JsonValue {
    let mut map = OrderedMap::new();
    for (key, value) in members {
        map.insert(key.to_string(), value);
    }
    JsonValue::Object(map)
}

fn environment(sources: Vec<PropertySource>) -> Environment {
    Environment {
        name: "inventory-service".to_string(),
        profiles: vec!["dev".to_string()],
        label: Some("main".to_string()),
        version: None,
        state: None,
        property_sources: sources,
    }
}

#[test]
fn earlier_property_sources_win() {
    let env = environment(vec![
        source("dev", vec![("server.port", string("9090")), ("only.dev", string("d"))]),
        source("default", vec![("server.port", string("8080")), ("only.default", string("x"))]),
    ]);

    let effective = env.effective_properties();

    assert_eq!(effective.len(), 3);
    assert_eq!(effective.get("server.port"), Some(&string("9090")));
    assert_eq!(effective.get("only.dev"), Some(&string("d")));
    assert_eq!(effective.get("only.default"), Some(&string("x")));
    assert_eq!(effective.get("missing"), None);
    assert_eq!(effective.key_at(0), "only.default");
}

#[test]
fn no_sources_give_an_empty_map_and_object() {
    let env = environment(vec![]);
    assert!(env.effective_properties().is_empty());
    assert_eq!(env.to_value(), object(vec![]));
}

#[test]
fn to_value_nests_the_effective_map() {
    let env = environment(vec![
        source("high", vec![("server.port", string("9090"))]),
        source("low", vec![("server.port", string("8080")), ("server.host", string("h"))]),
    ]);

    assert_eq!(
        env.to_value(),
        object(vec![(
            "server",
            object(vec![("host", string("h")), ("port", string("9090"))])
        )])
    );
    assert_eq!(
        env.to_value_with_coercion(ScalarCoercion::Smart),
        object(vec![(
            "server",
            object(vec![
                ("host", string("h")),
                ("port", JsonValue::Number(JsonNumber::PosInt(9090)))
            ])
        )])
    );
}

#[test]
fn environment_clone_is_equal() {
    let env = environment(vec![source("s", vec![("k", object(vec![("n", JsonValue::Null)]))])]);
    assert_eq!(env.clone(), env);
}
