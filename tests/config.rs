use wisp::configs::{Config, ConfigError, ConfigManager};
use wisp::key_manager::KeyManager;
use wisp::markup::escape_html;
use wisp::model::{EmbeddingParams, Model, ModelInfo, ModelMetadata};
use wisp::provider::{Provider, ProviderError};
use wisp::utils::{compute_content_hash, get_uuid_v4, hex_upper};

fn model(name: &str) -> Model {
    Model {
        metadata: ModelMetadata {
            name: name.to_string(),
            display_name: name.to_uppercase(),
            creator: None,
            version: None,
            description: None,
        },
        model_info: ModelInfo::Embedding {
            parameters: EmbeddingParams { embedding_dim: Some(8), normalize: true, truncate: false },
        },
        tokenizer: None,
        max_input_size: 512,
        api_endpoint: None,
    }
}

fn provider(name: &str) -> Provider {
    Provider {
        name: name.to_string(),
        display_name: name.to_string(),
        base_url: format!("https://{}.example", name),
        models: vec![],
    }
}

#[test]
fn providers_by_name() {
    let mut cm = ConfigManager::new("configs.toml".to_string(), Config { providers: vec![] });
    cm.add_provider(provider("openai")).unwrap();
    cm.add_provider(provider("local")).unwrap();
    assert!(matches!(
        cm.add_provider(provider("openai")),
        Err(ConfigError::ProviderAlreadyExistsError(_))
    ));
    assert!(cm.exists_provider("local"));
    assert!(!cm.exists_provider("other"));
    assert_eq!(cm.get_providers().len(), 2);
    let mut p = cm.get_provider("openai").unwrap();
    p.base_url = "https://changed".to_string();
    cm.update_provider("openai", p).unwrap();
    assert_eq!(cm.get_provider("openai").unwrap().base_url, "https://changed");
    assert!(matches!(
        cm.update_provider("other", provider("other")),
        Err(ConfigError::ProviderNotFoundError(_))
    ));
    cm.delete_provider("openai").unwrap();
    assert!(cm.get_provider("openai").is_none());
    assert!(matches!(cm.delete_provider("openai"), Err(ConfigError::ProviderNotFoundError(_))));
    assert_eq!(cm.config().providers.len(), 1);
    assert_eq!(cm.path(), "configs.toml");
}

#[test]
fn provider_models_by_name() {
    let mut p = provider("p");
    p.add_model(model("m1")).unwrap();
    p.add_model(model("m2")).unwrap();
    assert!(matches!(p.add_model(model("m1")), Err(ProviderError::ModelAlreadyExistError(_))));
    assert_eq!(p.get_model("m2").unwrap().max_input_size, 512);
    let mut changed = model("m3");
    changed.max_input_size = 9;
    p.update_model("m2", changed).unwrap();
    assert!(p.get_model("m2").is_none());
    assert_eq!(p.get_model("m3").unwrap().max_input_size, 9);
    assert!(matches!(p.update_model("zz", model("zz")), Err(ProviderError::ModelNotFoundError(_))));
    p.delete_model("m1").unwrap();
    assert!(matches!(p.delete_model("m1"), Err(ProviderError::ModelNotFoundError(_))));
    assert_eq!(p.models.len(), 1);
}

#[test]
fn credential_names() {
    let km = KeyManager::new("wisp".to_string());
    assert_eq!(km.get_credential_name("openai"), "config.provider.openai.key");
    assert_eq!(km.service_name(), "wisp");
}

#[test]
fn escaping_keeps_text() {
    let input = r#"text with "quotes" and 'apostrophes' & <tags>"#;
    assert_eq!(escape_html(input), input);
}

#[test]
fn hex_formatting() {
    assert_eq!(hex_upper(0), "0");
    assert_eq!(hex_upper(15), "F");
    assert_eq!(hex_upper(255), "FF");
    assert_eq!(hex_upper(0xABC0), "ABC0");
    assert_eq!(hex_upper(u64::MAX), "FFFFFFFFFFFFFFFF");
}

#[test]
fn content_hash_of_empty_text() {
    assert_eq!(compute_content_hash(""), "2D06800538D394C2");
    let h = compute_content_hash("hello");
    assert_ne!(h, "hello");
    assert_eq!(h, compute_content_hash("hello"));
    assert_ne!(h, compute_content_hash("hello!"));
}

#[test]
fn uuids_are_upper_case_and_fresh() {
    let a = get_uuid_v4();
    let b = get_uuid_v4();
    assert_eq!(a.len(), 36);
    assert_eq!(a, a.to_uppercase());
    assert_eq!(a.matches('-').count(), 4);
    assert_ne!(a, b);
}
