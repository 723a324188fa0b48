use lithograph::dispatch::{is_environment_config_file, structured_format, StructuredFormat};

#[test]
fn environment_files_are_recognized_by_name_in_any_case() {
    assert!(is_environment_config_file(".env"));
    assert!(is_environment_config_file(".ENV"));
    assert!(is_environment_config_file(".env.production"));
    assert!(is_environment_config_file("application.Properties"));
    assert!(!is_environment_config_file("env"));
    assert!(!is_environment_config_file(".envrc"));
    assert!(!is_environment_config_file("config.yaml"));
}

#[test]
fn structured_formats_default_to_toml() {
    assert_eq!(structured_format("yaml"), StructuredFormat::Yaml);
    assert_eq!(structured_format("json"), StructuredFormat::Json);
    assert_eq!(structured_format("toml"), StructuredFormat::Toml);
    assert_eq!(structured_format("ini"), StructuredFormat::Toml);
}
