use glean::ccswitch::{import_providers, provider_model, to_openai_endpoint, ProviderRow};

#[test]
fn maps_known_and_generic_endpoints() {
    assert_eq!(
        to_openai_endpoint("https://open.bigmodel.cn/api/anthropic"),
        "https://open.bigmodel.cn/api/paas/v4"
    );
    assert_eq!(
        to_openai_endpoint("https://api.deepseek.com/anthropic"),
        "https://api.deepseek.com/v1"
    );
    assert_eq!(
        to_openai_endpoint("http://localhost:8080/v1/"),
        "http://localhost:8080/v1"
    );
    assert_eq!(
        to_openai_endpoint("http://localhost:11434"),
        "http://localhost:11434/v1"
    );
}

#[test]
fn endpoint_mapping_is_idempotent_on_examples() {
    for base in [
        "https://open.bigmodel.cn/api/anthropic",
        "  https://api.deepseek.com/anthropic//  ",
        "http://localhost:11434",
        "",
        "/anthropic",
    ] {
        let once = to_openai_endpoint(base);
        assert_eq!(to_openai_endpoint(&once), once);
    }
    assert_eq!(to_openai_endpoint(""), "/v1");
}

fn row(id: &str, name: &str, settings: &str) -> ProviderRow {
    ProviderRow {
        id: id.to_string(),
        name: name.to_string(),
        settings_config: settings.to_string(),
    }
}

#[test]
fn provider_rows_become_disabled_candidates() {
    let r = row(
        "0123456789abcdef",
        "DeepSeek",
        r#"{"env": {"ANTHROPIC_BASE_URL": " https://api.deepseek.com/anthropic ", "ANTHROPIC_AUTH_TOKEN": " sk-1 ", "ANTHROPIC_MODEL": "deepseek-chat"}}"#,
    );
    let m = provider_model(&r).unwrap();
    assert_eq!(m.id, "cc-01234567");
    assert_eq!(m.name, "DeepSeek");
    assert_eq!(m.endpoint, "https://api.deepseek.com/v1");
    assert_eq!(m.model, "deepseek-chat");
    assert_eq!(m.api_key, "sk-1");
    assert!(!m.enabled && !m.primary);
}

#[test]
fn provider_key_and_model_fallbacks() {
    let r = row("ab", "X", r#"{"env": {"ANTHROPIC_API_KEY": "k2"}, "model": "top"}"#);
    let m = provider_model(&r).unwrap();
    assert_eq!(m.id, "cc-ab");
    assert_eq!(m.api_key, "k2");
    assert_eq!(m.model, "top");
    assert_eq!(m.endpoint, "/v1");
    let auth_first = row("ab", "X", r#"{"env": {"ANTHROPIC_AUTH_TOKEN": "", "ANTHROPIC_API_KEY": "k2"}}"#);
    assert!(provider_model(&auth_first).is_none());
}

#[test]
fn official_and_broken_rows_are_skipped() {
    let rows = vec![
        row("1", "Official", r#"{"env": {}}"#),
        row("2", "Broken", "not json"),
    ];
    assert_eq!(import_providers(&rows).err(), Some("cc-switch 里没有可导入的供应商".to_string()));
    let mut rows = rows;
    rows.push(row("3", "Local", r#"{"env": {"ANTHROPIC_BASE_URL": "http://localhost:8080"}}"#));
    let got = import_providers(&rows).unwrap();
    assert_eq!(got.len(), 1);
    assert_eq!(got[0].endpoint, "http://localhost:8080/v1");
}
