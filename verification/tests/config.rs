use glean::config::{
    active_models, configured_save_dir, default_model, default_settle_ms, default_target_lang, default_true,
    system_prompt, ActionKind, ModelConfig,
};

fn model(id: &str, enabled: bool, primary: bool) -> ModelConfig {
    ModelConfig {
        id: id.to_string(),
        name: id.to_string(),
        endpoint: String::new(),
        model: String::new(),
        api_key: String::new(),
        enabled,
        primary,
    }
}

#[test]
fn prompts_use_the_trimmed_language_or_chinese() {
    assert_eq!(
        system_prompt(ActionKind::Translate, "  English "),
        "你是翻译引擎。自动识别输入语言：若输入是English，译成英文；否则译成English。只输出译文本身，不要解释、不要加引号、不要复述原文。"
    );
    assert_eq!(
        system_prompt(ActionKind::Explain, "   "),
        "你用最合适的语言解释用户给出的词或句子：先给一句话的核心意思，再补充语境、用法或背景。控制在 150 字以内，不要复述原文。"
    );
    assert_eq!(
        system_prompt(ActionKind::Search, "日本語"),
        "你是检索型助手。针对用户给出的片段，用日本語给出与之相关的关键事实、背景和延伸信息。控制在 200 字以内，不确定的地方要明确说不确定。"
    );
    assert_eq!(system_prompt(ActionKind::Save, ""), "用最合适的语言简要概括用户给出的文本。");
    assert_eq!(system_prompt(ActionKind::Save, "中文"), "用中文简要概括用户给出的文本。");
    assert_eq!(
        system_prompt(ActionKind::Translate, ""),
        "你是翻译引擎。自动识别输入语言，自行选择最合适的目标语言译出。只输出译文本身，不要解释、不要加引号、不要复述原文。"
    );
    for action in [ActionKind::Translate, ActionKind::Explain, ActionKind::Search, ActionKind::Copy, ActionKind::Save] {
        assert_ne!(system_prompt(action, " "), system_prompt(action, "中文"));
    }
    assert_eq!(system_prompt(ActionKind::Copy, ""), system_prompt(ActionKind::Save, ""));
}

#[test]
fn active_models_keep_enabled_primary_first() {
    let models = vec![
        model("a", true, false),
        model("b", false, true),
        model("c", true, true),
        model("d", true, false),
        model("e", true, true),
    ];
    let ids: Vec<&str> = active_models(&models).iter().map(|m| m.id.as_str()).collect();
    assert_eq!(ids, vec!["c", "e", "a", "d"]);
    assert!(active_models(&Vec::new()).is_empty());
}

#[test]
fn defaults() {
    assert!(default_true());
    assert_eq!(default_target_lang(), "中文");
    assert_eq!(default_settle_ms(), 120);
    let m = default_model();
    assert_eq!(m.id, "local");
    assert_eq!(m.endpoint, "http://localhost:11434/v1");
    assert_eq!(m.model, "qwen3:8b");
    assert!(m.api_key.is_empty() && m.enabled && m.primary);
}

#[test]
fn save_dir_setting() {
    assert_eq!(configured_save_dir("   "), None);
    assert_eq!(configured_save_dir(" /tmp/notes "), Some("/tmp/notes".to_string()));
}
