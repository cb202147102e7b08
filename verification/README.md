# rust_cloud_config_client

The core of a Spring Cloud Config client, verified with Verus.

`src/` is the verified library:

- `request` — validated requests for the `Environment` and plain-text
  resource endpoints (trimming, profile lists, resource paths). Every request
  keeps a trimmed, non-empty application name, at least one trimmed profile,
  and a trimmed path.
- `properties` — a Java properties parser: logical lines with continuations
  (a comment line is never continued),
  separators, escapes and `\uXXXX`, with the line number of a refused escape.
- `document` — format detection from a resource's path, content type and
  bytes; parsing of JSON, YAML and TOML text through `serde_json`,
  `serde_yaml` and `toml`; conversion of documents into nested values.
- `binding` — property paths such as `servers[0].host`, their insertion into a
  value tree, and smart coercion of string scalars into booleans and numbers.
- `environment` — the `Environment` payload and the precedence of its
  property sources: the first source that has a key decides its value.
- `float_text` — whether a decimal floating-point text has a finite value:
  its magnitude is below 2^1024 − 2^970, decided exactly on the digits.
- `value` — `OrderedMap`, a key-ordered map with a verified ordering
  invariant, `JsonValue`, the library's JSON-like value, and `RawJson`, the
  tree a parser hands over before numbers are classified and object members
  ordered.
- `text` — whitespace, trimming, ASCII case and search over characters.

`app/` holds what the library's types cannot carry: the `Error` type with its
messages, the serde shape of the `Environment` payload, conversions to and
from `serde_json::Value`, and typed deserialization through `DeserializeOwned`.
