use rust_cloud_config_client::document::detect_format;
use rust_cloud_config_client::{
    ConfigDocument, ConfigError, ConfigResource, DocumentFormat, JsonNumber, JsonValue, OrderedMap,
    PropertiesDocument, ScalarCoercion,
};

fn string(s: &str) -> JsonValue {
    JsonValue::String(s.to_string())
}

fn uint(n: u64) -> JsonValue {
    JsonValue::Number(JsonNumber::PosInt(n))
}

fn object(members: Vec<(&str, JsonValue)>) -> JsonValue {
    let mut map = OrderedMap::new();
    for (key, value) in members {
        map.insert(key.to_string(), value);
    }
    JsonValue::Object(map)
}

fn resource(path: &str, content_type: Option<&str>, bytes: &[u8]) -> ConfigResource {
    ConfigResource::new(
        path.to_string(),
        format!("http://config/{path}"),
        content_type.map(str::to_string),
        bytes.to_vec(),
    )
}

#[test]
fn format_names() {
    assert_eq!(DocumentFormat::Json.as_str(), "JSON");
    assert_eq!(DocumentFormat::Yaml.as_str(), "YAML");
    assert_eq!(DocumentFormat::Toml.as_str(), "TOML");
    assert_eq!(DocumentFormat::Properties.as_str(), "Java properties");
    assert_eq!(DocumentFormat::Text.as_str(), "text");
    assert_eq!(DocumentFormat::Binary.as_str(), "binary");
}

#[test]
fn format_from_path_extension() {
    assert_eq!(DocumentFormat::from_path("app.json"), Some(DocumentFormat::Json));
    assert_eq!(DocumentFormat::from_path("archive.v2.YML"), Some(DocumentFormat::Yaml));
    assert_eq!(DocumentFormat::from_path("a.yaml"), Some(DocumentFormat::Yaml));
    assert_eq!(DocumentFormat::from_path("a.Toml"), Some(DocumentFormat::Toml));
    assert_eq!(DocumentFormat::from_path("a.properties"), Some(DocumentFormat::Properties));
    assert_eq!(DocumentFormat::from_path("a.props"), Some(DocumentFormat::Properties));
    assert_eq!(DocumentFormat::from_path(".json"), Some(DocumentFormat::Json));
    assert_eq!(DocumentFormat::from_path("a.txt"), None);
    assert_eq!(DocumentFormat::from_path("dir.d/file"), None);
    assert_eq!(DocumentFormat::from_path("noextension"), None);
    assert_eq!(DocumentFormat::from_path("trailing."), None);
}

#[test]
fn format_from_content_type() {
    let f = DocumentFormat::from_content_type;
    assert_eq!(f("application/JSON; charset=utf-8"), Some(DocumentFormat::Json));
    assert_eq!(f("application/x-yaml"), Some(DocumentFormat::Yaml));
    assert_eq!(f("text/x-yml"), Some(DocumentFormat::Yaml));
    assert_eq!(f("application/toml"), Some(DocumentFormat::Toml));
    assert_eq!(f("text/x-java-properties"), Some(DocumentFormat::Properties));
    assert_eq!(f("application/octet-stream"), Some(DocumentFormat::Binary));
    assert_eq!(f("Text/Plain"), Some(DocumentFormat::Text));
    assert_eq!(f("text/json"), Some(DocumentFormat::Json));
    assert_eq!(f("image/png"), None);
}

#[test]
fn detection_prefers_path_then_content_type_then_payload() {
    assert_eq!(detect_format("a.yml", Some("application/json"), b"x"), DocumentFormat::Yaml);
    assert_eq!(detect_format("a", Some("application/json"), b"{}"), DocumentFormat::Json);
    // Octet-stream counts only when the payload is not UTF-8.
    assert_eq!(detect_format("a", Some("application/octet-stream"), b"hi"), DocumentFormat::Text);
    assert_eq!(
        detect_format("a", Some("application/octet-stream"), &[0xff, 0x00]),
        DocumentFormat::Binary
    );
    assert_eq!(detect_format("a", Some("image/png"), b"hi"), DocumentFormat::Text);
    assert_eq!(detect_format("a", None, &[0xc3, 0x28]), DocumentFormat::Binary);
    assert_eq!(detect_format("a", None, "é".as_bytes()), DocumentFormat::Text);
}

#[test]
fn resource_accessors() {
    let r = resource("cfg/app.json", Some("application/json"), b"{}");
    assert_eq!(r.path(), "cfg/app.json");
    assert_eq!(r.url(), "http://config/cfg/app.json");
    assert_eq!(r.content_type(), Some("application/json"));
    assert_eq!(r.bytes(), b"{}");
    assert_eq!(r.format(), DocumentFormat::Json);
    assert_eq!(r.into_bytes(), b"{}".to_vec());

    let r = resource("x", None, b"");
    assert_eq!(r.content_type(), None);
}

#[test]
fn resource_text_decodes_utf8_or_fails_with_the_url() {
    assert_eq!(resource("a.txt", None, "héllo".as_bytes()).text().unwrap(), "héllo");
    match resource("a.txt", None, &[0x66, 0xff]).text() {
        Err(ConfigError::Utf8 { url, source }) => {
            assert_eq!(url, "http://config/a.txt");
            assert_eq!(source.into_bytes(), vec![0x66, 0xff]);
        }
        other => panic!("unexpected {:?}", other),
    }
}

#[test]
fn resource_parse_json() {
    let doc = resource("app.json", None, br#"{"b": [true, null, "x"], "a": 1, "c": 1.5, "d": -3}"#)
        .parse()
        .unwrap();
    assert_eq!(doc.format(), DocumentFormat::Json);
    assert_eq!(
        doc,
        ConfigDocument::Json(object(vec![
            ("a", uint(1)),
            ("b", JsonValue::Array(vec![JsonValue::Bool(true), JsonValue::Null, string("x")])),
            ("c", JsonValue::Number(JsonNumber::Float("1.5".to_string()))),
            ("d", JsonValue::Number(JsonNumber::NegInt(-3))),
        ]))
    );
}

#[test]
fn resource_parse_binary_and_bad_utf8() {
    let doc = resource("blob", None, &[0xff, 0xfe]).parse().unwrap();
    assert_eq!(doc, ConfigDocument::Binary(vec![0xff, 0xfe]));

    match resource("app.json", None, &[0xff]).parse() {
        Err(ConfigError::Utf8 { url, .. }) => assert_eq!(url, "http://config/app.json"),
        other => panic!("unexpected {:?}", other),
    }
}

#[test]
fn resource_parse_text() {
    let doc = resource("notes", Some("text/plain"), b"just text").parse().unwrap();
    assert_eq!(doc, ConfigDocument::Text("just text".to_string()));
}

#[test]
fn from_text_yaml() {
    let doc = ConfigDocument::from_text("u", DocumentFormat::Yaml, "server:\n  port: 8080\nname: app\n".to_string())
        .unwrap();
    assert_eq!(doc.format(), DocumentFormat::Yaml);
    assert_eq!(
        doc,
        ConfigDocument::Yaml(object(vec![
            ("name", string("app")),
            ("server", object(vec![("port", uint(8080))])),
        ]))
    );
}

#[test]
fn from_text_toml() {
    let doc = ConfigDocument::from_text("u", DocumentFormat::Toml, "title = \"t\"\n[server]\nport = 8080\n".to_string())
        .unwrap();
    assert_eq!(
        doc,
        ConfigDocument::Toml(object(vec![
            ("server", object(vec![("port", uint(8080))])),
            ("title", string("t")),
        ]))
    );
}

#[test]
fn from_text_properties_text_and_binary() {
    let doc = ConfigDocument::from_text("u", DocumentFormat::Properties, "a.b=1\n".to_string()).unwrap();
    assert_eq!(doc.format(), DocumentFormat::Properties);
    assert_eq!(
        doc.to_value_with_coercion(ScalarCoercion::Smart).unwrap(),
        object(vec![("a", object(vec![("b", uint(1))]))])
    );

    let doc = ConfigDocument::from_text("u", DocumentFormat::Text, "hello".to_string()).unwrap();
    assert_eq!(doc, ConfigDocument::Text("hello".to_string()));

    let doc = ConfigDocument::from_text("u", DocumentFormat::Binary, "hé".to_string()).unwrap();
    assert_eq!(doc, ConfigDocument::Binary("hé".as_bytes().to_vec()));
}

#[test]
fn from_text_reports_each_parse_error_with_the_origin() {
    match ConfigDocument::from_text("u1", DocumentFormat::Json, "{".to_string()) {
        Err(ConfigError::Json { url, .. }) => assert_eq!(url, "u1"),
        other => panic!("unexpected {:?}", other),
    }
    match ConfigDocument::from_text("u2", DocumentFormat::Yaml, "a: [".to_string()) {
        Err(ConfigError::Yaml { url, .. }) => assert_eq!(url, "u2"),
        other => panic!("unexpected {:?}", other),
    }
    match ConfigDocument::from_text("u3", DocumentFormat::Toml, "a = ".to_string()) {
        Err(ConfigError::Toml { url, .. }) => assert_eq!(url, "u3"),
        other => panic!("unexpected {:?}", other),
    }
    match ConfigDocument::from_text("u4", DocumentFormat::Properties, "a=\\u12".to_string()) {
        Err(ConfigError::Properties { origin, reason }) => {
            assert_eq!(origin, "u4");
            assert_eq!(reason, "line 1: expected four hexadecimal digits after \\u");
        }
        other => panic!("unexpected {:?}", other),
    }
}

#[test]
fn to_value_coerces_only_when_asked() {
    let doc = ConfigDocument::from_text("u", DocumentFormat::Json, r#"{"port": "8080", "on": "TRUE"}"#.to_string())
        .unwrap();
    assert_eq!(
        doc.to_value().unwrap(),
        object(vec![("on", string("TRUE")), ("port", string("8080"))])
    );
    assert_eq!(
        doc.to_value_with_coercion(ScalarCoercion::Smart).unwrap(),
        object(vec![("on", JsonValue::Bool(true)), ("port", uint(8080))])
    );
}

#[test]
fn text_and_binary_documents_have_no_value() {
    let text = ConfigDocument::Text("x".to_string());
    match text.to_value() {
        Err(ConfigError::UnsupportedBindingFormat { format }) => assert_eq!(format, "text"),
        other => panic!("unexpected {:?}", other),
    }
    let binary = ConfigDocument::Binary(vec![1]);
    match binary.to_value_with_coercion(ScalarCoercion::Smart) {
        Err(ConfigError::UnsupportedBindingFormat { format }) => assert_eq!(format, "binary"),
        other => panic!("unexpected {:?}", other),
    }
}

#[test]
fn properties_document_entries_and_values() {
    let doc = PropertiesDocument::parse("origin", "b=2\na.x=on\n").unwrap();
    assert_eq!(doc.entries().len(), 2);
    assert_eq!(doc.entries().get("b").unwrap(), "2");
    assert_eq!(
        doc.to_value(),
        object(vec![("a", object(vec![("x", string("on"))])), ("b", string("2"))])
    );
    assert_eq!(
        doc.to_value_with_coercion(ScalarCoercion::Smart),
        object(vec![("a", object(vec![("x", string("on"))])), ("b", uint(2))])
    );
    let entries = doc.into_entries();
    assert_eq!(entries.key_at(0), "a.x");

    match PropertiesDocument::parse("origin", "k=\\uD800") {
        Err(ConfigError::Properties { origin, reason }) => {
            assert_eq!(origin, "origin");
            assert_eq!(reason, "line 1: invalid unicode code point D800");
        }
        other => panic!("unexpected {:?}", other),
    }
}

#[test]
fn parsed_documents_have_the_detected_format() {
    let cases: Vec<ConfigResource> = vec![
        resource("a.json", None, b"[1]"),
        resource("a.yml", None, b"k: v"),
        resource("a.toml", None, b"k = 1"),
        resource("a.properties", None, b"k=v"),
        resource("a", Some("text/plain"), b"plain"),
        resource("a", None, &[0xff]),
        resource("a", Some("application/x-yaml"), b"- 1"),
    ];
    for r in cases {
        let document = r.parse().unwrap();
        assert_eq!(document.format(), r.format(), "{}", r.path());
    }
}

#[test]
fn clones_are_equal() {
    let r = resource("a.json", Some("application/json"), br#"{"k": [1, "x"]}"#);
    assert_eq!(r.clone(), r);
    let document = r.parse().unwrap();
    assert_eq!(document.clone(), document);
    let properties = PropertiesDocument::parse("o", "a=1\nb=2").unwrap();
    assert_eq!(properties.clone(), properties);
}

#[test]
fn toml_reads_as_its_json_rendering() {
    let text = "when = 1979-05-27T07:32:00Z\nratio = 0.5\nnan = nan\n[[items]]\nid = 1\n[[items]]\nid = -2\n";
    let rendered = serde_json::to_value(toml::from_str::<toml::Value>(text).unwrap()).unwrap();
    let direct = toml::from_str::<serde_json::Value>(text).unwrap();
    assert_eq!(rendered, direct);
    let doc = ConfigDocument::from_text("u", DocumentFormat::Toml, text.to_string()).unwrap();
    assert_eq!(doc.format(), DocumentFormat::Toml);
}

#[test]
fn json_numbers_keep_their_kind() {
    let doc = ConfigDocument::from_text(
        "u",
        DocumentFormat::Json,
        "[18446744073709551615, -9223372036854775808, 1e2, -0.0]".to_string(),
    )
    .unwrap();
    assert_eq!(
        doc,
        ConfigDocument::Json(JsonValue::Array(vec![
            JsonValue::Number(JsonNumber::PosInt(u64::MAX)),
            JsonValue::Number(JsonNumber::NegInt(i64::MIN)),
            JsonValue::Number(JsonNumber::Float("100.0".to_string())),
            JsonValue::Number(JsonNumber::Float("-0.0".to_string())),
        ]))
    );
}

#[test]
fn content_type_ignores_ascii_case() {
    for ct in ["Application/YAML+Json", "TEXT/Properties", "text/PLAIN", "APPLICATION/OCTET-STREAM", "Image/Png"] {
        assert_eq!(
            DocumentFormat::from_content_type(ct),
            DocumentFormat::from_content_type(&ct.to_ascii_lowercase())
        );
    }
    assert_eq!(DocumentFormat::from_content_type("application/yaml+json"), Some(DocumentFormat::Json));
    assert_eq!(DocumentFormat::from_content_type("text/yaml"), Some(DocumentFormat::Yaml));
    assert_eq!(DocumentFormat::from_content_type("text/properties"), Some(DocumentFormat::Properties));
}
