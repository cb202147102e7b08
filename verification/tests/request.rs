use rust_cloud_config_client::request::{
    join_with_commas, normalize_resource_path, sanitize_profiles, sanitize_required,
    split_path_segments,
};
use rust_cloud_config_client::{ConfigError, EnvironmentFormat, EnvironmentRequest, ResourceRequest};

#[test]
fn environment_request_trims_and_keeps_profile_order() {
    let request = EnvironmentRequest::new("  inventory-service ", &[" dev", "", "  ", "aws "]).unwrap();
    assert_eq!(request.application(), "inventory-service");
    assert_eq!(request.profiles(), &["dev".to_string(), "aws".to_string()]);
    assert_eq!(request.label_ref(), None);
    assert!(!request.resolve_placeholders_enabled());
    assert_eq!(request.joined_profiles(), "dev,aws");
}

#[test]
fn environment_request_rejects_empty_application_first() {
    assert!(matches!(
        EnvironmentRequest::new("   ", &["dev"]),
        Err(ConfigError::EmptyApplication)
    ));
    assert!(matches!(
        EnvironmentRequest::new("", &[]),
        Err(ConfigError::EmptyApplication)
    ));
}

#[test]
fn environment_request_rejects_missing_profiles() {
    assert!(matches!(
        EnvironmentRequest::new("app", &[]),
        Err(ConfigError::EmptyProfiles)
    ));
    assert!(matches!(
        EnvironmentRequest::new("app", &[" ", "\t"]),
        Err(ConfigError::EmptyProfiles)
    ));
}

#[test]
fn label_is_trimmed_and_blank_clears_it() {
    let request = EnvironmentRequest::new("app", &["dev"]).unwrap().label("  main ");
    assert_eq!(request.label_ref(), Some("main"));
    let request = request.label("   ");
    assert_eq!(request.label_ref(), None);

    let request = ResourceRequest::new("app", &["dev"], "a.yml").unwrap().label(" v1.0 ");
    assert_eq!(request.label_ref(), Some("v1.0"));
}

#[test]
fn resolve_placeholders_is_recorded() {
    let request = EnvironmentRequest::new("app", &["dev"]).unwrap().resolve_placeholders(true);
    assert!(request.resolve_placeholders_enabled());
    let request = request.resolve_placeholders(false);
    assert!(!request.resolve_placeholders_enabled());
}

#[test]
fn resource_request_normalises_the_path() {
    let request = ResourceRequest::new("app", &["dev", "aws"], "\\\\config\\nested\\app.yml//").unwrap();
    assert_eq!(request.application(), "app");
    assert_eq!(request.path(), "config/nested/app.yml");
    assert_eq!(request.joined_profiles(), "dev,aws");
    assert_eq!(
        request.path_segments(),
        vec!["config".to_string(), "nested".to_string(), "app.yml".to_string()]
    );
}

#[test]
fn resource_request_errors_in_order() {
    assert!(matches!(
        ResourceRequest::new(" ", &[], ""),
        Err(ConfigError::EmptyApplication)
    ));
    assert!(matches!(
        ResourceRequest::new("app", &[""], ""),
        Err(ConfigError::EmptyProfiles)
    ));
    assert!(matches!(
        ResourceRequest::new("app", &["dev"], "//\\\\/"),
        Err(ConfigError::EmptyResourcePath)
    ));
    // Slashes are stripped before the whitespace: this path keeps one.
    assert_eq!(ResourceRequest::new("app", &["dev"], " / ").unwrap().path(), "/");
}

#[test]
fn environment_format_suffixes() {
    assert_eq!(EnvironmentFormat::Yml.suffix(), ".yml");
    assert_eq!(EnvironmentFormat::Yaml.suffix(), ".yaml");
    assert_eq!(EnvironmentFormat::Properties.suffix(), ".properties");
}

#[test]
fn helpers_behave_like_their_std_counterparts() {
    assert_eq!(sanitize_required("  x ", ConfigError::EmptyApplication).unwrap(), "x");
    assert!(matches!(
        sanitize_required("\u{3000}\n", ConfigError::EmptyResourcePath),
        Err(ConfigError::EmptyResourcePath)
    ));
    assert_eq!(sanitize_profiles(&["a", " b "]).unwrap(), vec!["a".to_string(), "b".to_string()]);
    assert_eq!(normalize_resource_path("/a\\b/"), "a/b");
    assert_eq!(normalize_resource_path("///"), "");
    assert_eq!(join_with_commas(&[]), "");
    assert_eq!(join_with_commas(&["one".to_string()]), "one");
    assert_eq!(split_path_segments("//a//b/"), vec!["a".to_string(), "b".to_string()]);
    assert!(split_path_segments("").is_empty());
}
