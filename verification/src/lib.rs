//! Verified core of a Spring Cloud Config client: request validation, Java
//! properties parsing, document format detection, property-source
//! precedence and the binding of flat property maps into nested values.
pub mod binding;
pub mod document;
pub mod environment;
pub mod error;
pub mod float_text;
pub mod outside;
pub mod properties;
pub mod request;
pub mod text;
pub mod value;

pub use binding::ScalarCoercion;
pub use document::{ConfigDocument, ConfigResource, DocumentFormat, PropertiesDocument};
pub use environment::{Environment, PropertySource};
pub use error::ConfigError;
pub use request::{EnvironmentFormat, EnvironmentRequest, ResourceRequest};
pub use value::{JsonNumber, JsonValue, OrderedMap};
