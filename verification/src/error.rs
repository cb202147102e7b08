//! The error type of the library.
use vstd::prelude::*;

verus! {

/// Error type returned by the Spring Cloud Config client.
#[derive(Debug)]
pub enum ConfigError {
    /// The base URL could not be parsed.
    InvalidBaseUrl(String),
    /// The base URL contains a query string or fragment, which is not supported.
    InvalidBaseUrlShape(String),
    /// The application name is empty.
    EmptyApplication,
    /// No profiles were supplied.
    EmptyProfiles,
    /// The resource path is empty.
    EmptyResourcePath,
    /// A required environment variable is missing.
    MissingEnvironmentVariable {
        /// The environment variable name.
        name: &'static str,
    },
    /// An environment variable has an invalid value.
    InvalidEnvironmentVariable {
        /// The environment variable name.
        name: &'static str,
        /// A short reason.
        reason: &'static str,
        /// The provided value.
        value: String,
    },
    /// The bootstrap configuration is internally inconsistent.
    InvalidBootstrapConfiguration(String),
    /// A custom HTTP header name is invalid.
    InvalidHeaderName(String),
    /// A custom HTTP header value is invalid.
    InvalidHeaderValue {
        /// The header name.
        name: String,
        /// The header value.
        value: String,
    },
    /// The HTTP request failed before a valid response was received.
    Transport {
        /// The target URL.
        url: String,
        /// The transport error.
        source: reqwest::Error,
    },
    /// The Config Server returned a non-success HTTP status.
    HttpStatus {
        /// The HTTP status code.
        status: reqwest::StatusCode,
        /// The target URL.
        url: String,
        /// The response body, when available.
        body: String,
    },
    /// The response body could not be parsed as JSON.
    Json {
        /// The target URL.
        url: String,
        /// The parse error.
        source: serde_json::Error,
    },
    /// The response body could not be parsed as YAML.
    Yaml {
        /// The target URL.
        url: String,
        /// The parse error.
        source: serde_yaml::Error,
    },
    /// The response body could not be parsed as TOML.
    Toml {
        /// The target URL.
        url: String,
        /// The parse error.
        source: toml::de::Error,
    },
    /// The response body could not be parsed as Java properties.
    Properties {
        /// The origin being parsed.
        origin: String,
        /// A human-readable reason.
        reason: String,
    },
    /// The response body was expected to be UTF-8 text but was not valid UTF-8.
    Utf8 {
        /// The target URL.
        url: String,
        /// The UTF-8 decode error.
        source: std::string::FromUtf8Error,
    },
    /// Typed deserialization is not supported for the requested document kind.
    UnsupportedBindingFormat {
        /// The format name.
        format: &'static str,
    },
    /// The configuration payload could not be bound into the requested Rust type.
    Bind {
        /// A short description of the binding source.
        origin: String,
        /// The Serde error.
        source: serde_json::Error,
    },
}

} // verus!
