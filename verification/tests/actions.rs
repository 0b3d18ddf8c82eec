use glean::actions::{
    decimal, find_model, parse_voices, prepare_action, prepare_retry, say_arguments, ModelBrief,
};
use glean::config::{ActionKind, ModelConfig};

#[test]
fn parses_say_voice_list() {
    let sample = "Albert                en_US    # Hello! My name is Albert.\nBad News              en_US    # The light you see...\nEddy (Alto)           en_US    # Hello, my name is Eddy.\nTingting              zh_CN    # 你好，我叫婷婷。\nYu-shu                zh_CN    # 你好，我叫Yu-shu。\n";
    let v = parse_voices(sample);
    assert_eq!(v.len(), 5);
    assert_eq!(v[0].name, "Albert");
    assert_eq!(v[1].name, "Bad News");
    assert_eq!(v[2].name, "Eddy (Alto)");
    assert_eq!(v[3].name, "Tingting");
    assert_eq!(v[3].locale, "zh_CN");
}

#[test]
fn skips_lines_without_locale() {
    assert!(parse_voices("没有 locale 的行\n\n").is_empty());
}

#[test]
fn voice_list_handles_crlf_and_locale_shapes() {
    let v = parse_voices("Anna   de-DE  # Hallo\r\nx en_US\nen_US only\nBob zh_Hans_CN\nCarl abc_DEFGHIJK # ok\nDan ab_c\r\n");
    let got: Vec<(String, String)> = v.into_iter().map(|i| (i.name, i.locale)).collect();
    assert_eq!(
        got,
        vec![
            ("Anna".to_string(), "de-DE".to_string()),
            ("x".to_string(), "en_US".to_string()),
            ("Carl".to_string(), "abc_DEFGHIJK".to_string()),
        ]
    );
}

fn model(id: &str, enabled: bool, primary: bool) -> ModelConfig {
    ModelConfig {
        id: id.to_string(),
        name: format!("name-{id}"),
        endpoint: "http://localhost:8080/v1".to_string(),
        model: "m".to_string(),
        api_key: String::new(),
        enabled,
        primary,
    }
}

#[test]
fn action_needs_selection_and_models() {
    let models = vec![model("a", false, true)];
    assert_eq!(
        prepare_action("", &models, "中文", ActionKind::Translate).err(),
        Some("没有可用的划词文本".to_string())
    );
    assert_eq!(
        prepare_action("hi", &models, "中文", ActionKind::Translate).err(),
        Some("没有启用任何模型，请先到设置里配置".to_string())
    );
}

#[test]
fn action_plan_puts_primary_first() {
    let models = vec![model("a", true, false), model("b", true, true), model("c", false, false)];
    let plan = prepare_action("hi", &models, " English ", ActionKind::Copy).unwrap();
    let ids: Vec<&str> = plan.models.iter().map(|m| m.id.as_str()).collect();
    assert_eq!(ids, vec!["b", "a"]);
    let briefs: Vec<(&str, &str, bool)> =
        plan.briefs.iter().map(|b| (b.id.as_str(), b.name.as_str(), b.primary)).collect();
    assert_eq!(briefs, vec![("b", "name-b", true), ("a", "name-a", false)]);
    assert_eq!(plan.system, "用English简要概括用户给出的文本。");
}

#[test]
fn brief_copies_id_name_and_primary() {
    let m = model("z", true, true);
    let b = ModelBrief::from(&m);
    assert_eq!((b.id.as_str(), b.name.as_str(), b.primary), ("z", "name-z", true));
}

#[test]
fn retry_finds_model_or_names_it() {
    let models = vec![model("a", true, false), model("b", false, false)];
    let (m, system) = prepare_retry("hi", &models, "", ActionKind::Explain, "b").unwrap();
    assert_eq!(m.id, "b");
    assert!(system.starts_with("你用最合适的语言解释"));
    assert_eq!(
        prepare_retry("hi", &models, "", ActionKind::Explain, "zz").err(),
        Some("配置里没有模型 zz".to_string())
    );
    assert_eq!(
        prepare_retry("", &models, "", ActionKind::Explain, "a").err(),
        Some("没有可用的划词文本".to_string())
    );
    assert_eq!(find_model(&models, "a").unwrap().id, "a");
}

#[test]
fn say_arguments_follow_settings() {
    assert_eq!(say_arguments("  ", "Tingting", 200).err(), Some("没有可朗读的文本".to_string()));
    assert_eq!(say_arguments(" 你好 ", "", 0).unwrap(), vec![" 你好 ".to_string()]);
    assert_eq!(
        say_arguments("hi", " Tingting ", 180).unwrap(),
        vec!["hi", "-v", "Tingting", "-r", "180"]
    );
}

#[test]
fn decimal_matches_display() {
    for n in [0u32, 7, 9, 10, 99, 100, 180, 4096, 65535, u32::MAX] {
        assert_eq!(decimal(n), n.to_string());
    }
}
