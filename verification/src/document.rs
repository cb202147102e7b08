//! Configuration documents: format detection for fetched resources, the
//! parsing of their text, and their conversion into nested values.
use vstd::prelude::*;
use vstd::utf8::{decode_utf8, valid_utf8};
use crate::binding::{
    ScalarCoercion, coerce_json_value, coerce_view, json_from_raw, lemma_coerce_preserve_identity, json_of_raw, keys_insertable,
    nested_of, nested_value_from_string_map, string_entries,
};
use crate::error::ConfigError;
use crate::properties::{fault_reason, properties_of};
use crate::text::{
    ascii_lower_seq, lemma_ascii_lower_idempotent, ascii_lower_vec, chars_of, contains_exec, contains_seq, occurs_at_exec,
    starts_with_seq,
};
use crate::value::{JsonValue, JsonView, OrderedMap, RawJson, RawView};
use serde_json::Value;

verus! {

/// Supported structured document kinds.
#[derive(Debug, Clone, Copy, PartialEq, Eq, Structural)]
pub enum DocumentFormat {
    /// JSON content.
    Json,
    /// YAML or YML content.
    Yaml,
    /// TOML content.
    Toml,
    /// Java properties content.
    Properties,
    /// UTF-8 text with an unknown structure.
    Text,
    /// Opaque binary content.
    Binary,
}

/// The human-readable name of a format.
pub open spec fn format_name(f: DocumentFormat) -> Seq<char> {
    match f {
        DocumentFormat::Json => "JSON"@,
        DocumentFormat::Yaml => "YAML"@,
        DocumentFormat::Toml => "TOML"@,
        DocumentFormat::Properties => "Java properties"@,
        DocumentFormat::Text => "text"@,
        DocumentFormat::Binary => "binary"@,
    }
}

/// What follows the last `.` of `s`, when there is one.
pub open spec fn extension_of(s: Seq<char>) -> Option<Seq<char>>
    decreases s.len(),
{
    if s.len() == 0 {
        None
    } else if s.last() == '.' {
        Some(Seq::empty())
    } else {
        match extension_of(s.drop_last()) {
            Some(e) => Some(e.push(s.last())),
            None => None,
        }
    }
}

/// The format a file extension names, in any ASCII case.
pub open spec fn format_for_extension(e: Seq<char>) -> Option<DocumentFormat> {
    let l = ascii_lower_seq(e);
    if l == "json"@ {
        Some(DocumentFormat::Json)
    } else if l == "yaml"@ || l == "yml"@ {
        Some(DocumentFormat::Yaml)
    } else if l == "toml"@ {
        Some(DocumentFormat::Toml)
    } else if l == "properties"@ || l == "props"@ {
        Some(DocumentFormat::Properties)
    } else {
        None
    }
}

/// The format a resource path's extension names.
pub open spec fn format_from_path(path: Seq<char>) -> Option<DocumentFormat> {
    match extension_of(path) {
        Some(e) => format_for_extension(e),
        None => None,
    }
}

/// The format a `Content-Type` names: the first of `json`, `yaml`/`yml`,
/// `toml`, `properties` and `octet-stream` that it contains, in any ASCII
/// case, or text for any other `text/` type.
pub open spec fn format_from_content_type(ct: Seq<char>) -> Option<DocumentFormat> {
    let l = ascii_lower_seq(ct);
    if contains_seq(l, "json"@) {
        Some(DocumentFormat::Json)
    } else if contains_seq(l, "yaml"@) || contains_seq(l, "yml"@) {
        Some(DocumentFormat::Yaml)
    } else if contains_seq(l, "toml"@) {
        Some(DocumentFormat::Toml)
    } else if contains_seq(l, "properties"@) {
        Some(DocumentFormat::Properties)
    } else if contains_seq(l, "octet-stream"@) {
        Some(DocumentFormat::Binary)
    } else if starts_with_seq(l, "text/"@) {
        Some(DocumentFormat::Text)
    } else {
        None
    }
}

/// The format of a resource: by the path's extension first, then by the
/// content type (a binary type only when the bytes are not UTF-8), then text
/// for UTF-8 bytes and binary for the rest.
pub open spec fn detect_format_of(path: Seq<char>, content_type: Option<Seq<char>>, bytes: Seq<u8>) -> DocumentFormat {
    match format_from_path(path) {
        Some(f) => f,
        None => {
            let by_type = match content_type {
                Some(c) => match format_from_content_type(c) {
                    Some(f) => if f != DocumentFormat::Binary || !valid_utf8(bytes) {
                        Some(f)
                    } else {
                        None
                    },
                    None => None,
                },
                None => None,
            };
            match by_type {
                Some(f) => f,
                None => if valid_utf8(bytes) {
                    DocumentFormat::Text
                } else {
                    DocumentFormat::Binary
                },
            }
        },
    }
}

/// The format a content type names does not depend on ASCII case: the
/// lower-cased content type names the same one.
pub proof fn lemma_content_type_case(content_type: Seq<char>)
    ensures
        format_from_content_type(ascii_lower_seq(content_type)) == format_from_content_type(
            content_type,
        ),
{
    lemma_ascii_lower_idempotent(content_type);
}

/// Whether two character sequences are equal.
fn same_chars(a: &[char], b: &[char]) -> (r: bool)
    ensures
        r == (a@ == b@),
{
    if a.len() != b.len() {
        return false;
    }
    for k in 0..a.len()
        invariant
            a@.len() == b@.len(),
            forall|j: int| 0 <= j < k ==> a@[j] == b@[j],
    {
        if a[k] != b[k] {
            return false;
        }
    }
    assert(a@ =~= b@);
    true
}

/// Whether `lower` is the characters of `word`.
fn is_word(lower: &[char], word: &str) -> (r: bool)
    ensures
        r == (lower@ == word@),
{
    let w = chars_of(word);
    same_chars(lower, w.as_slice())
}

/// Whether `word` occurs in `lower`.
fn has_word(lower: &[char], word: &str) -> (r: bool)
    ensures
        r == contains_seq(lower@, word@),
{
    let w = chars_of(word);
    contains_exec(lower, w.as_slice())
}

impl DocumentFormat {
    /// Returns a human-readable format name.
    pub fn as_str(self) -> (s: &'static str)
        ensures
            s@ == format_name(self),
    {
        match self {
            DocumentFormat::Json => "JSON",
            DocumentFormat::Yaml => "YAML",
            DocumentFormat::Toml => "TOML",
            DocumentFormat::Properties => "Java properties",
            DocumentFormat::Text => "text",
            DocumentFormat::Binary => "binary",
        }
    }

    /// The format that a path's extension names.
    pub fn from_path(path: &str) -> (r: Option<Self>)
        ensures
            r == format_from_path(path@),
    {
        let cs = chars_of(path);
        let mut i = cs.len();
        while i > 0 && cs[i - 1] != '.'
            invariant
                i <= cs@.len(),
                forall|j: int| i <= j < cs@.len() ==> #[trigger] cs@[j] != '.',
            decreases i,
        {
            i -= 1;
        }
        proof {
            lemma_extension_of(cs@, i as int);
        }
        if i == 0 {
            return None;
        }
        let mut ext: Vec<char> = Vec::new();
        for k in i..cs.len()
            invariant
                ext@ == cs@.subrange(i as int, k as int),
        {
            ext.push(cs[k]);
            assert(cs@.subrange(i as int, k + 1) =~= cs@.subrange(i as int, k as int).push(cs@[k as int]));
        }
        let lower = ascii_lower_vec(ext.as_slice());
        let l = lower.as_slice();
        if is_word(l, "json") {
            Some(DocumentFormat::Json)
        } else if is_word(l, "yaml") || is_word(l, "yml") {
            Some(DocumentFormat::Yaml)
        } else if is_word(l, "toml") {
            Some(DocumentFormat::Toml)
        } else if is_word(l, "properties") || is_word(l, "props") {
            Some(DocumentFormat::Properties)
        } else {
            None
        }
    }

    /// The format that a `Content-Type` value names.
    pub fn from_content_type(content_type: &str) -> (r: Option<Self>)
        ensures
            r == format_from_content_type(content_type@),
    {
        let cs = chars_of(content_type);
        let lower = ascii_lower_vec(cs.as_slice());
        let l = lower.as_slice();
        if has_word(l, "json") {
            Some(DocumentFormat::Json)
        } else if has_word(l, "yaml") || has_word(l, "yml") {
            Some(DocumentFormat::Yaml)
        } else if has_word(l, "toml") {
            Some(DocumentFormat::Toml)
        } else if has_word(l, "properties") {
            Some(DocumentFormat::Properties)
        } else if has_word(l, "octet-stream") {
            Some(DocumentFormat::Binary)
        } else {
            let t = chars_of("text/");
            if occurs_at_exec(l, t.as_slice(), 0) {
                Some(DocumentFormat::Text)
            } else {
                None
            }
        }
    }
}

/// The extension starts after the last dot.
proof fn lemma_extension_of(s: Seq<char>, i: int)
    requires
        0 <= i <= s.len(),
        forall|j: int| i <= j < s.len() ==> #[trigger] s[j] != '.',
        i > 0 ==> s[i - 1] == '.',
    ensures
        extension_of(s) == if i == 0 {
            None::<Seq<char>>
        } else {
            Some(s.subrange(i, s.len() as int))
        },
    decreases s.len() - i,
{
    if i < s.len() {
        let t = s.drop_last();
        assert forall|j: int| i <= j < t.len() implies #[trigger] t[j] != '.' by {
            assert(t[j] == s[j]);
        }
        if i > 0 {
            assert(t[i - 1] == s[i - 1]);
        }
        lemma_extension_of(t, i);
        if i > 0 {
            assert(t.subrange(i, t.len() as int).push(s.last()) =~= s.subrange(i, s.len() as int));
        }
    } else if i > 0 {
        assert(s.subrange(i, s.len() as int) =~= Seq::<char>::empty());
    }
}

/// `String::from_utf8`: the text that `bytes` encode, when they are UTF-8.
#[verifier::external_body]
fn utf8_string(bytes: Vec<u8>) -> (r: Result<String, std::string::FromUtf8Error>)
    ensures
        r is Ok <==> valid_utf8(bytes@),
        r matches Ok(s) ==> s@ == decode_utf8(bytes@),
{
    String::from_utf8(bytes)
}

/// A copy of a byte slice.
fn copy_bytes(b: &[u8]) -> (v: Vec<u8>)
    ensures
        v@ == b@,
{
    let mut v: Vec<u8> = Vec::new();
    for k in 0..b.len()
        invariant
            v@ == b@.take(k as int),
    {
        v.push(b[k]);
        assert(b@.take(k + 1) =~= b@.take(k as int).push(b@[k as int]));
    }
    assert(b@.take(b@.len() as int) =~= b@);
    v
}

/// Whether the bytes are UTF-8.
fn is_utf8(b: &[u8]) -> (r: bool)
    ensures
        r == valid_utf8(b@),
{
    utf8_string(copy_bytes(b)).is_ok()
}

/// Guesses the document format from the resource path, content type, and payload.
pub fn detect_format(path: &str, content_type: Option<&str>, bytes: &[u8]) -> (f: DocumentFormat)
    ensures
        f == detect_format_of(
            path@,
            match content_type {
                Some(c) => Some(c@),
                None => None,
            },
            bytes@,
        ),
{
    if let Some(format) = DocumentFormat::from_path(path) {
        return format;
    }
    if let Some(ct) = content_type {
        if let Some(format) = DocumentFormat::from_content_type(ct) {
            if format != DocumentFormat::Binary || !is_utf8(bytes) {
                return format;
            }
        }
    }
    if is_utf8(bytes) {
        DocumentFormat::Text
    } else {
        DocumentFormat::Binary
    }
}

/// A parsed Java properties document.
#[derive(Debug, PartialEq)]
pub struct PropertiesDocument {
    entries: OrderedMap<String>,
}

impl View for PropertiesDocument {
    type V = Seq<(Seq<char>, Seq<char>)>;

    closed spec fn view(&self) -> Seq<(Seq<char>, Seq<char>)> {
        self.entries@
    }
}

impl PropertiesDocument {
    /// Parses a Java properties document from text; a refused escape is
    /// reported with `origin` and its line number.
    pub fn parse(origin: &str, text: &str) -> (r: Result<Self, ConfigError>)
        ensures
            match (r, properties_of(text@)) {
                (Ok(d), Ok(entries)) => d@ == entries,
                (Err(ConfigError::Properties { origin: o, reason }), Err((line, fault))) => o@
                    == origin@ && reason@ == fault_reason(line, fault),
                _ => false,
            },
    {
        match crate::properties::parse(text, origin) {
            Ok(entries) => Ok(PropertiesDocument { entries }),
            Err(e) => Err(e),
        }
    }

    /// Returns the flattened key-value entries.
    pub fn entries(&self) -> (m: &OrderedMap<String>)
        ensures
            m@ == self@,
    {
        &self.entries
    }

    /// Consumes the document and returns the flattened key-value entries.
    pub fn into_entries(self) -> (m: OrderedMap<String>)
        ensures
            m@ == self@,
    {
        self.entries
    }

    /// Converts the properties document into a nested value without scalar
    /// coercion.
    pub fn to_value(&self) -> (v: JsonValue)
        requires
            keys_insertable(self@),
        ensures
            v@ == nested_of(string_entries(self@), ScalarCoercion::Preserve),
    {
        self.to_value_with_coercion(ScalarCoercion::Preserve)
    }

    /// Converts the properties document into a nested value: each key is a
    /// property path, each value a string coerced as `coercion` says.
    pub fn to_value_with_coercion(&self, coercion: ScalarCoercion) -> (v: JsonValue)
        requires
            keys_insertable(self@),
        ensures
            v@ == nested_of(string_entries(self@), coercion),
    {
        nested_value_from_string_map(&self.entries, coercion)
    }
}

/// What a `ConfigResource` holds.
pub struct ConfigResourceView {
    pub path: Seq<char>,
    pub url: Seq<char>,
    pub content_type: Option<Seq<char>>,
    pub bytes: Seq<u8>,
}

/// Raw resource content fetched from the plain-text Spring Config endpoint.
#[derive(Debug, PartialEq)]
pub struct ConfigResource {
    path: String,
    url: String,
    content_type: Option<String>,
    bytes: Vec<u8>,
}

impl View for ConfigResource {
    type V = ConfigResourceView;

    closed spec fn view(&self) -> ConfigResourceView {
        ConfigResourceView {
            path: self.path@,
            url: self.url@,
            content_type: match self.content_type {
                Some(c) => Some(c@),
                None => None,
            },
            bytes: self.bytes@,
        }
    }
}

impl Clone for PropertiesDocument {
    fn clone(&self) -> (r: Self)
        ensures
            r@ == self@,
    {
        PropertiesDocument { entries: self.entries.clone() }
    }
}

impl Clone for ConfigResource {
    fn clone(&self) -> (r: Self)
        ensures
            r@ == self@,
    {
        ConfigResource {
            path: self.path.clone(),
            url: self.url.clone(),
            content_type: self.content_type.clone(),
            bytes: copy_bytes(self.bytes.as_slice()),
        }
    }
}

/// What a configuration document holds.
pub enum DocumentView {
    Json(JsonView),
    Yaml(JsonView),
    Toml(JsonView),
    Properties(Seq<(Seq<char>, Seq<char>)>),
    Text(Seq<char>),
    Binary(Seq<u8>),
}

/// Parsed configuration content returned by the library.
#[derive(Debug, PartialEq)]
pub enum ConfigDocument {
    /// Parsed JSON payload.
    Json(JsonValue),
    /// Parsed YAML payload converted into a JSON-like value.
    Yaml(JsonValue),
    /// Parsed TOML payload converted into a JSON-like value.
    Toml(JsonValue),
    /// Parsed Java properties payload.
    Properties(PropertiesDocument),
    /// UTF-8 text with no built-in structure.
    Text(String),
    /// Raw binary content.
    Binary(Vec<u8>),
}

impl View for ConfigDocument {
    type V = DocumentView;

    open spec fn view(&self) -> DocumentView {
        match self {
            ConfigDocument::Json(v) => DocumentView::Json(v@),
            ConfigDocument::Yaml(v) => DocumentView::Yaml(v@),
            ConfigDocument::Toml(v) => DocumentView::Toml(v@),
            ConfigDocument::Properties(d) => DocumentView::Properties(d@),
            ConfigDocument::Text(t) => DocumentView::Text(t@),
            ConfigDocument::Binary(b) => DocumentView::Binary(b@),
        }
    }
}

impl Clone for ConfigDocument {
    fn clone(&self) -> (r: Self)
        ensures
            r@ == self@,
    {
        match self {
            ConfigDocument::Json(v) => ConfigDocument::Json(v.clone()),
            ConfigDocument::Yaml(v) => ConfigDocument::Yaml(v.clone()),
            ConfigDocument::Toml(v) => ConfigDocument::Toml(v.clone()),
            ConfigDocument::Properties(d) => ConfigDocument::Properties(d.clone()),
            ConfigDocument::Text(t) => ConfigDocument::Text(t.clone()),
            ConfigDocument::Binary(b) => ConfigDocument::Binary(copy_bytes(b.as_slice())),
        }
    }
}

/// The format of a document.
pub open spec fn document_format(d: DocumentView) -> DocumentFormat {
    match d {
        DocumentView::Json(_) => DocumentFormat::Json,
        DocumentView::Yaml(_) => DocumentFormat::Yaml,
        DocumentView::Toml(_) => DocumentFormat::Toml,
        DocumentView::Properties(_) => DocumentFormat::Properties,
        DocumentView::Text(_) => DocumentFormat::Text,
        DocumentView::Binary(_) => DocumentFormat::Binary,
    }
}

/// The nested value of a structured document, or `None` for text and binary
/// content.
pub open spec fn document_value(d: DocumentView, c: ScalarCoercion) -> Option<JsonView> {
    match d {
        DocumentView::Json(v) => Some(coerce_view(v, c)),
        DocumentView::Yaml(v) => Some(coerce_view(v, c)),
        DocumentView::Toml(v) => Some(coerce_view(v, c)),
        DocumentView::Properties(e) => Some(nested_of(string_entries(e), c)),
        _ => None,
    }
}

/// Every structured format converts alike: a JSON, a YAML and a TOML
/// document holding the same value give that value with its strings
/// coerced as `c` says, and without coercion the value itself.
pub proof fn lemma_structured_formats_convert_alike(v: JsonView, c: ScalarCoercion)
    ensures
        document_value(DocumentView::Json(v), c) == Some(coerce_view(v, c)),
        document_value(DocumentView::Yaml(v), c) == document_value(DocumentView::Json(v), c),
        document_value(DocumentView::Toml(v), c) == document_value(DocumentView::Json(v), c),
        document_value(DocumentView::Yaml(v), ScalarCoercion::Preserve) == Some(v),
        document_value(DocumentView::Toml(v), ScalarCoercion::Preserve) == Some(v),
        document_value(DocumentView::Json(v), ScalarCoercion::Preserve) == Some(v),
{
    lemma_coerce_preserve_identity(v);
}

/// The tree that `serde_json` reads from a text, when it is JSON.
pub uninterp spec fn json_text_value(text: Seq<char>) -> Option<RawView>;

/// The tree that `serde_yaml` reads from a text, when it is YAML.
pub uninterp spec fn yaml_text_value(text: Seq<char>) -> Option<RawView>;

/// The tree that `toml` reads from a text, when it is TOML.
pub uninterp spec fn toml_text_value(text: Seq<char>) -> Option<RawView>;

/// Hands a `serde_json::Value` over as a raw tree, variant for variant:
/// numbers by the text `serde_json` writes for them, object members in the
/// order the map yields them.
#[verifier::external_body]
fn raw_from_serde(value: Value) -> RawJson {
    match value {
        Value::Null => RawJson::Null,
        Value::Bool(b) => RawJson::Bool(b),
        Value::Number(n) => RawJson::Number(n.to_string()),
        Value::String(s) => RawJson::String(s),
        Value::Array(a) => RawJson::Array(a.into_iter().map(raw_from_serde).collect()),
        Value::Object(m) => RawJson::Object(m.into_iter().map(|(k, v)| (k, raw_from_serde(v))).collect()),
    }
}

/// `serde_json::from_str::<serde_json::Value>`: the tree a JSON text holds,
/// or the syntax error. The tree is named, not stated: it is
/// `json_text_value` of the text, which is `None` exactly when this fails.
#[verifier::external_body]
fn parse_json_text(text: &str) -> (r: Result<RawJson, serde_json::Error>)
    ensures
        match r {
            Ok(v) => json_text_value(text@) == Some(v@),
            Err(_) => json_text_value(text@) is None,
        },
{
    serde_json::from_str::<serde_json::Value>(text).map(raw_from_serde)
}

/// `serde_yaml::from_str::<serde_json::Value>`: the tree a YAML text holds,
/// or the syntax error. The tree is named, not stated: it is
/// `yaml_text_value` of the text, which is `None` exactly when this fails.
#[verifier::external_body]
fn parse_yaml_text(text: &str) -> (r: Result<RawJson, serde_yaml::Error>)
    ensures
        match r {
            Ok(v) => yaml_text_value(text@) == Some(v@),
            Err(_) => yaml_text_value(text@) is None,
        },
{
    serde_yaml::from_str::<serde_json::Value>(text).map(raw_from_serde)
}

/// `toml::from_str::<serde_json::Value>`: the tree a TOML text holds, or the
/// syntax error. The tree is named, not stated: it is `toml_text_value` of
/// the text, which is `None` exactly when this fails.
#[verifier::external_body]
fn parse_toml_text(text: &str) -> (r: Result<RawJson, toml::de::Error>)
    ensures
        match r {
            Ok(v) => toml_text_value(text@) == Some(v@),
            Err(_) => toml_text_value(text@) is None,
        },
{
    toml::from_str::<serde_json::Value>(text).map(raw_from_serde)
}

/// What parsing a text of a given format gives: the document, or the
/// format's parse error for `origin`. Only the kind of error is stated for
/// the outside parsers.
pub open spec fn from_text_ok(origin: Seq<char>, format: DocumentFormat, text: Seq<char>, r: Result<
    ConfigDocument,
    ConfigError,
>) -> bool {
    match format {
        DocumentFormat::Json => match json_text_value(text) {
            Some(v) => r matches Ok(d) && d@ == DocumentView::Json(json_of_raw(v)),
            None => r matches Err(ConfigError::Json { url, .. }) && url@ == origin,
        },
        DocumentFormat::Yaml => match yaml_text_value(text) {
            Some(v) => r matches Ok(d) && d@ == DocumentView::Yaml(json_of_raw(v)),
            None => r matches Err(ConfigError::Yaml { url, .. }) && url@ == origin,
        },
        DocumentFormat::Toml => match toml_text_value(text) {
            Some(v) => r matches Ok(d) && d@ == DocumentView::Toml(json_of_raw(v)),
            None => r matches Err(ConfigError::Toml { url, .. }) && url@ == origin,
        },
        DocumentFormat::Properties => match properties_of(text) {
            Ok(e) => r matches Ok(d) && d@ == DocumentView::Properties(e),
            Err((line, fault)) => r matches Err(ConfigError::Properties { origin: o, reason })
                && o@ == origin && reason@ == fault_reason(line, fault),
        },
        DocumentFormat::Text => r matches Ok(d) && d@ == DocumentView::Text(text),
        DocumentFormat::Binary => r matches Ok(d) && d@ == DocumentView::Binary(
            vstd::utf8::encode_utf8(text),
        ),
    }
}

/// What parsing a resource gives: binary content as it is; otherwise, for
/// UTF-8 bytes, their text parsed in the detected format, and for other
/// bytes a UTF-8 error naming the resource URL.
pub open spec fn resource_parse_ok(res: ConfigResourceView, r: Result<ConfigDocument, ConfigError>) -> bool {
    let f = detect_format_of(res.path, res.content_type, res.bytes);
    if f == DocumentFormat::Binary {
        r matches Ok(d) && d@ == DocumentView::Binary(res.bytes)
    } else if !valid_utf8(res.bytes) {
        r matches Err(ConfigError::Utf8 { url, .. }) && url@ == res.url
    } else {
        from_text_ok(res.url, f, decode_utf8(res.bytes), r)
    }
}

/// A document parsed from text of a format has that format.
pub proof fn lemma_from_text_format(
    origin: Seq<char>,
    format: DocumentFormat,
    text: Seq<char>,
    r: Result<ConfigDocument, ConfigError>,
)
    requires
        from_text_ok(origin, format, text, r),
        r is Ok,
    ensures
        document_format(r->Ok_0@) == format,
{
}

/// A document parsed from a resource has the format that the resource
/// reports.
pub proof fn lemma_parsed_resource_format(res: ConfigResourceView, r: Result<ConfigDocument, ConfigError>)
    requires
        resource_parse_ok(res, r),
        r is Ok,
    ensures
        document_format(r->Ok_0@) == detect_format_of(res.path, res.content_type, res.bytes),
{
    let f = detect_format_of(res.path, res.content_type, res.bytes);
    if f != DocumentFormat::Binary && valid_utf8(res.bytes) {
        lemma_from_text_format(res.url, f, decode_utf8(res.bytes), r);
    }
}

impl ConfigDocument {
    /// Returns the document format.
    pub fn format(&self) -> (f: DocumentFormat)
        ensures
            f == document_format(self@),
    {
        match self {
            ConfigDocument::Json(_) => DocumentFormat::Json,
            ConfigDocument::Yaml(_) => DocumentFormat::Yaml,
            ConfigDocument::Toml(_) => DocumentFormat::Toml,
            ConfigDocument::Properties(_) => DocumentFormat::Properties,
            ConfigDocument::Text(_) => DocumentFormat::Text,
            ConfigDocument::Binary(_) => DocumentFormat::Binary,
        }
    }

    /// Converts the document into a nested value without scalar coercion.
    pub fn to_value(&self) -> (r: Result<JsonValue, ConfigError>)
        requires
            self@ matches DocumentView::Properties(e) ==> keys_insertable(e),
        ensures
            match document_value(self@, ScalarCoercion::Preserve) {
                Some(v) => r matches Ok(x) && x@ == v,
                None => r matches Err(ConfigError::UnsupportedBindingFormat { format }) && format@
                    == format_name(document_format(self@)),
            },
    {
        self.to_value_with_coercion(ScalarCoercion::Preserve)
    }

    /// Converts the document into a nested value, its strings coerced as
    /// `coercion` says; text and binary documents have none.
    pub fn to_value_with_coercion(&self, coercion: ScalarCoercion) -> (r: Result<JsonValue, ConfigError>)
        requires
            self@ matches DocumentView::Properties(e) ==> keys_insertable(e),
        ensures
            match document_value(self@, coercion) {
                Some(v) => r matches Ok(x) && x@ == v,
                None => r matches Err(ConfigError::UnsupportedBindingFormat { format }) && format@
                    == format_name(document_format(self@)),
            },
    {
        match self {
            ConfigDocument::Json(value) => Ok(coerce_json_value(value, coercion)),
            ConfigDocument::Yaml(value) => Ok(coerce_json_value(value, coercion)),
            ConfigDocument::Toml(value) => Ok(coerce_json_value(value, coercion)),
            ConfigDocument::Properties(document) => Ok(document.to_value_with_coercion(coercion)),
            ConfigDocument::Text(_) => Err(ConfigError::UnsupportedBindingFormat { format: "text" }),
            ConfigDocument::Binary(_) => Err(ConfigError::UnsupportedBindingFormat { format: "binary" }),
        }
    }

    /// Parses a text of the given format into a document; parse errors name
    /// `origin`.
    pub fn from_text(origin: &str, format: DocumentFormat, text: String) -> (r: Result<Self, ConfigError>)
        ensures
            from_text_ok(origin@, format, text@, r),
    {
        match format {
            DocumentFormat::Json => match parse_json_text(text.as_str()) {
                Ok(v) => Ok(ConfigDocument::Json(json_from_raw(&v))),
                Err(source) => Err(ConfigError::Json { url: origin.to_owned(), source }),
            },
            DocumentFormat::Yaml => match parse_yaml_text(text.as_str()) {
                Ok(v) => Ok(ConfigDocument::Yaml(json_from_raw(&v))),
                Err(source) => Err(ConfigError::Yaml { url: origin.to_owned(), source }),
            },
            DocumentFormat::Toml => match parse_toml_text(text.as_str()) {
                Ok(v) => Ok(ConfigDocument::Toml(json_from_raw(&v))),
                Err(source) => Err(ConfigError::Toml { url: origin.to_owned(), source }),
            },
            DocumentFormat::Properties => match PropertiesDocument::parse(origin, text.as_str()) {
                Ok(d) => Ok(ConfigDocument::Properties(d)),
                Err(e) => Err(e),
            },
            DocumentFormat::Text => Ok(ConfigDocument::Text(text)),
            DocumentFormat::Binary => Ok(ConfigDocument::Binary(text.as_str().as_bytes_vec())),
        }
    }
}

impl ConfigResource {
    /// A resource fetched from `url` for the logical `path`.
    pub fn new(path: String, url: String, content_type: Option<String>, bytes: Vec<u8>) -> (r: Self)
        ensures
            r@ == (ConfigResourceView {
                path: path@,
                url: url@,
                content_type: match content_type {
                    Some(c) => Some(c@),
                    None => None,
                },
                bytes: bytes@,
            }),
    {
        ConfigResource { path, url, content_type, bytes }
    }

    /// Returns the logical path requested from Spring Config Server.
    pub fn path(&self) -> (s: &str)
        ensures
            s@ == self@.path,
    {
        self.path.as_str()
    }

    /// Returns the final resource URL used to fetch this payload.
    pub fn url(&self) -> (s: &str)
        ensures
            s@ == self@.url,
    {
        self.url.as_str()
    }

    /// Returns the response content type, when present.
    pub fn content_type(&self) -> (c: Option<&str>)
        ensures
            match c {
                Some(s) => self@.content_type == Some(s@),
                None => self@.content_type is None,
            },
    {
        match &self.content_type {
            Some(c) => Some(c.as_str()),
            None => None,
        }
    }

    /// Returns the raw bytes.
    pub fn bytes(&self) -> (b: &[u8])
        ensures
            b@ == self@.bytes,
    {
        self.bytes.as_slice()
    }

    /// Consumes the resource and returns the raw bytes.
    pub fn into_bytes(self) -> (b: Vec<u8>)
        ensures
            b@ == self@.bytes,
    {
        self.bytes
    }

    /// Decodes the resource as UTF-8 text.
    pub fn text(&self) -> (r: Result<String, ConfigError>)
        ensures
            valid_utf8(self@.bytes) ==> (r matches Ok(s) && s@ == decode_utf8(self@.bytes)),
            !valid_utf8(self@.bytes) ==> (r matches Err(ConfigError::Utf8 { url, .. }) && url@
                == self@.url),
    {
        match utf8_string(copy_bytes(self.bytes.as_slice())) {
            Ok(s) => Ok(s),
            Err(source) => Err(ConfigError::Utf8 { url: self.url.clone(), source }),
        }
    }

    /// Guesses the document format from the resource path, content type, and payload.
    pub fn format(&self) -> (f: DocumentFormat)
        ensures
            f == detect_format_of(self@.path, self@.content_type, self@.bytes),
    {
        let ct = match &self.content_type {
            Some(c) => Some(c.as_str()),
            None => None,
        };
        detect_format(self.path.as_str(), ct, self.bytes.as_slice())
    }

    /// Parses the resource into a document of its detected format: binary
    /// content as it is, anything else as UTF-8 text of that format, errors
    /// naming the resource URL.
    pub fn parse(&self) -> (r: Result<ConfigDocument, ConfigError>)
        ensures
            resource_parse_ok(self@, r),
    {
        let format = self.format();
        match format {
            DocumentFormat::Binary => Ok(ConfigDocument::Binary(copy_bytes(self.bytes.as_slice()))),
            other => {
                let text = match self.text() {
                    Ok(t) => t,
                    Err(e) => return Err(e),
                };
                ConfigDocument::from_text(self.url.as_str(), other, text)
            },
        }
    }
}

} // verus!
