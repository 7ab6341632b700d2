use azuki::zenzai::{build_prompt, ZenzaiConfig, ZenzaiError};

#[test]
fn test_default_config() {
    let config = ZenzaiConfig::default();
    assert!(!config.enabled);
    assert!(config.model_path.is_none());
    assert_eq!(config.inference_limit, 10);
    assert!(!config.contextual);
}

#[test]
fn test_config_not_usable_when_disabled() {
    let config = ZenzaiConfig {
        enabled: false,
        model_path: Some("/some/path".to_string()),
        ..Default::default()
    };
    assert!(!config.is_usable());
}

#[test]
fn prompt_without_context() {
    assert_eq!(build_prompt("きょう", None), "\u{EE00}きょう\u{EE01}");
    assert_eq!(build_prompt("きょう", Some("")), "\u{EE00}きょう\u{EE01}");
}

#[test]
fn prompt_with_context() {
    assert_eq!(
        build_prompt("は", Some("今日")),
        "\u{EE02}今日\u{EE00}は\u{EE01}"
    );
}

#[test]
fn model_path_prefers_existing_configured_path() {
    let config = ZenzaiConfig {
        enabled: true,
        model_path: Some("/models/a.gguf".to_string()),
        ..Default::default()
    };
    let defaults = vec!["/default/zenz.gguf".to_string()];
    assert_eq!(
        config.get_model_path(true, &defaults),
        Some("/models/a.gguf".to_string())
    );
    assert_eq!(
        config.get_model_path(false, &defaults),
        Some("/default/zenz.gguf".to_string())
    );
    assert_eq!(config.get_model_path(false, &Vec::new()), None);
}

#[test]
fn zenzai_error_messages() {
    assert_eq!(ZenzaiError::ModelNotFound.message(), "Zenzai model file not found");
    assert_eq!(ZenzaiError::NotInitialized.message(), "Zenzai backend not initialized");
    assert_eq!(
        ZenzaiError::LoadError("x".to_string()).message(),
        "Failed to load Zenzai model: x"
    );
    assert_eq!(
        ZenzaiError::InferenceError("y".to_string()).message(),
        "Zenzai inference failed: y"
    );
}
