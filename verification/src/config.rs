//! Configuration data model: the model endpoints to call, the toolbar
//! actions, the defaults, and the system prompt for each action.

use vstd::prelude::*;
use crate::text::{occurs_in, trim, trimmed};

verus! {

/// A model endpoint that can be called. Comparing models means sending the
/// same text to every enabled entry of the list at once.
#[derive(Debug, Clone)]
pub struct ModelConfig {
    /// Stable identifier; the front end files streamed pieces under it.
    pub id: String,
    /// Display name.
    pub name: String,
    /// Root of an OpenAI-compatible service, without `/chat/completions`.
    pub endpoint: String,
    /// Model name sent to the service.
    pub model: String,
    /// Key for the `Authorization` header; empty means none is sent.
    pub api_key: String,
    /// Whether the model takes part in comparisons.
    pub enabled: bool,
    /// The primary model's column is expanded by default.
    pub primary: bool,
}

/// The contents of a [`ModelConfig`].
pub struct ModelView {
    pub id: Seq<char>,
    pub name: Seq<char>,
    pub endpoint: Seq<char>,
    pub model: Seq<char>,
    pub api_key: Seq<char>,
    pub enabled: bool,
    pub primary: bool,
}

impl View for ModelConfig {
    type V = ModelView;

    open spec fn view(&self) -> ModelView {
        ModelView {
            id: self.id@,
            name: self.name@,
            endpoint: self.endpoint@,
            model: self.model@,
            api_key: self.api_key@,
            enabled: self.enabled,
            primary: self.primary,
        }
    }
}

/// A toolbar action. Copying and saving are local; the others go to the
/// models.
#[derive(Debug, Clone, Copy, PartialEq, Eq, Structural)]
pub enum ActionKind {
    Translate,
    Explain,
    Search,
    Copy,
    Save,
}

/// The default for flags that are on unless configured otherwise.
pub fn default_true() -> (b: bool)
    ensures
        b,
{
    true
}

/// The default target language, Chinese.
pub fn default_target_lang() -> (s: String)
    ensures
        s@ == "中文"@,
{
    String::from_str("中文")
}

/// The default wait, in milliseconds, between releasing the mouse and
/// reading the selection.
pub fn default_settle_ms() -> (ms: u64)
    ensures
        ms == 120,
{
    120
}

/// The model of a fresh configuration: a local Ollama / llama.cpp style
/// endpoint, enabled and primary.
pub fn default_model() -> (m: ModelConfig)
    ensures
        m@.id == "local"@,
        m@.name == "本地模型"@,
        m@.endpoint == "http://localhost:11434/v1"@,
        m@.model == "qwen3:8b"@,
        m@.api_key == Seq::<char>::empty(),
        m@.enabled,
        m@.primary,
{
    ModelConfig {
        id: String::from_str("local"),
        name: String::from_str("本地模型"),
        endpoint: String::from_str("http://localhost:11434/v1"),
        model: String::from_str("qwen3:8b"),
        api_key: String::new(),
        enabled: true,
        primary: true,
    }
}

/// Enabled and primary.
pub open spec fn active_primary(m: ModelView) -> bool {
    m.enabled && m.primary
}

/// Enabled and not primary.
pub open spec fn active_secondary(m: ModelView) -> bool {
    m.enabled && !m.primary
}

/// The models taking part in a comparison: the enabled ones, in list order
/// except that primary models come first.
pub open spec fn active_order(ms: Seq<ModelView>) -> Seq<ModelView> {
    ms.filter(|m: ModelView| active_primary(m)) + ms.filter(|m: ModelView| active_secondary(m))
}

/// The contents of a list of model references.
pub open spec fn views_of(ms: Seq<&ModelConfig>) -> Seq<ModelView> {
    ms.map_values(|m: &ModelConfig| m@)
}

/// The contents of a list of models.
pub open spec fn model_views(ms: Seq<ModelConfig>) -> Seq<ModelView> {
    ms.map_values(|m: ModelConfig| m@)
}

/// The models taking part in a comparison, primary models first (the front
/// end expands the first column). Otherwise list order is kept.
pub fn active_models(models: &Vec<ModelConfig>) -> (list: Vec<&ModelConfig>)
    ensures
        views_of(list@) == active_order(model_views(models@)),
{
    let ghost all = model_views(models@);
    let ghost pp = |m: ModelView| active_primary(m);
    let ghost sp = |m: ModelView| active_secondary(m);
    let mut list: Vec<&ModelConfig> = Vec::new();
    let mut i: usize = 0;
    while i < models.len()
        invariant
            i <= models@.len(),
            all == model_views(models@),
            pp == (|m: ModelView| active_primary(m)),
            views_of(list@) == all.take(i as int).filter(pp),
        decreases models@.len() - i,
    {
        proof {
            assert(all.take(i + 1).drop_last() =~= all.take(i as int));
            reveal_with_fuel(Seq::filter, 1);
        }
        if models[i].enabled && models[i].primary {
            list.push(&models[i]);
        }
        i = i + 1;
        assert(views_of(list@) =~= all.take(i as int).filter(pp));
    }
    let ghost first = list@;
    assert(all.take(models@.len() as int) =~= all);
    assert(all.take(0) =~= Seq::<ModelView>::empty());
    assert(list@.skip(first.len() as int) =~= Seq::<&ModelConfig>::empty());
    proof {
        reveal_with_fuel(Seq::filter, 1);
    }
    i = 0;
    while i < models.len()
        invariant
            i <= models@.len(),
            all == model_views(models@),
            pp == (|m: ModelView| active_primary(m)),
            sp == (|m: ModelView| active_secondary(m)),
            views_of(first) == all.filter(pp),
            list@.len() >= first.len(),
            list@.subrange(0, first.len() as int) == first,
            views_of(list@.skip(first.len() as int)) == all.take(i as int).filter(sp),
        decreases models@.len() - i,
    {
        proof {
            assert(all.take(i + 1).drop_last() =~= all.take(i as int));
            reveal_with_fuel(Seq::filter, 1);
        }
        let ghost before = list@;
        if models[i].enabled && !models[i].primary {
            list.push(&models[i]);
            assert(list@.skip(first.len() as int) =~= before.skip(first.len() as int).push(&models[i as int]));
        }
        assert(list@.subrange(0, first.len() as int) =~= first);
        i = i + 1;
        assert(views_of(list@.skip(first.len() as int)) =~= all.take(i as int).filter(sp));
    }
    proof {
        assert(all.take(models@.len() as int) =~= all);
        assert(list@ =~= first + list@.skip(first.len() as int));
        assert(views_of(list@) =~= views_of(first) + views_of(list@.skip(first.len() as int)));
    }
    list
}

/// The language the prompts ask for: the configured one, trimmed, or none
/// when none is configured (the model then chooses).
pub open spec fn prompt_language(target_lang: Seq<char>) -> Option<Seq<char>> {
    if trim(target_lang).len() == 0 {
        None
    } else {
        Some(trim(target_lang))
    }
}

/// The system prompt for `action`, asking for answers in `lang`, or in the
/// language the model finds most fitting when `lang` is `None`.
pub open spec fn prompt_text(action: ActionKind, lang: Option<Seq<char>>) -> Seq<char> {
    match lang {
        Some(lang) => match action {
            ActionKind::Translate => "你是翻译引擎。自动识别输入语言：若输入是"@ + lang + "，译成英文；否则译成"@
                + lang + "。只输出译文本身，不要解释、不要加引号、不要复述原文。"@,
            ActionKind::Explain => "你用"@ + lang + "解释用户给出的词或句子：先给一句话的核心意思，再补充语境、用法或背景。控制在 150 字以内，不要复述原文。"@,
            ActionKind::Search => "你是检索型助手。针对用户给出的片段，用"@ + lang
                + "给出与之相关的关键事实、背景和延伸信息。控制在 200 字以内，不确定的地方要明确说不确定。"@,
            ActionKind::Copy | ActionKind::Save => "用"@ + lang + "简要概括用户给出的文本。"@,
        },
        None => match action {
            ActionKind::Translate => "你是翻译引擎。自动识别输入语言，自行选择最合适的目标语言译出。只输出译文本身，不要解释、不要加引号、不要复述原文。"@,
            ActionKind::Explain => "你用"@ + "最合适的语言"@ + "解释用户给出的词或句子：先给一句话的核心意思，再补充语境、用法或背景。控制在 150 字以内，不要复述原文。"@,
            ActionKind::Search => "你是检索型助手。针对用户给出的片段，用"@ + "最合适的语言"@
                + "给出与之相关的关键事实、背景和延伸信息。控制在 200 字以内，不确定的地方要明确说不确定。"@,
            ActionKind::Copy | ActionKind::Save => "用"@ + "最合适的语言"@ + "简要概括用户给出的文本。"@,
        },
    }
}

/// Leaving the language to the model is not asking for Chinese: the two
/// prompts differ for every action.
pub proof fn lemma_open_language_prompt_differs(action: ActionKind)
    ensures
        prompt_text(action, None) != prompt_text(action, Some("中文"@)),
{
    reveal_strlit("中文");
    reveal_strlit("最合适的语言");
    match action {
        ActionKind::Translate => {
            reveal_strlit("你是翻译引擎。自动识别输入语言：若输入是");
            reveal_strlit("，译成英文；否则译成");
            reveal_strlit("。只输出译文本身，不要解释、不要加引号、不要复述原文。");
            reveal_strlit("你是翻译引擎。自动识别输入语言，自行选择最合适的目标语言译出。只输出译文本身，不要解释、不要加引号、不要复述原文。");
        },
        _ => {},
    }
    assert(prompt_text(action, None).len() != prompt_text(action, Some("中文"@)).len());
}

/// Where the configured language stands in the prompt of `action`: the
/// length of the text before it.
spec fn language_at(action: ActionKind) -> int {
    match action {
        ActionKind::Translate => "你是翻译引擎。自动识别输入语言：若输入是"@.len() as int,
        ActionKind::Explain => "你用"@.len() as int,
        ActionKind::Search => "你是检索型助手。针对用户给出的片段，用"@.len() as int,
        ActionKind::Copy | ActionKind::Save => "用"@.len() as int,
    }
}

/// A configured language stands, as configured (trimmed), in the prompt.
proof fn lemma_language_in_prompt(action: ActionKind, lang: Seq<char>)
    ensures
        language_at(action) + lang.len() <= prompt_text(action, Some(lang)).len(),
        prompt_text(action, Some(lang)).subrange(
            language_at(action),
            language_at(action) + lang.len(),
        ) == lang,
{
    let p = prompt_text(action, Some(lang));
    assert(p.subrange(language_at(action), language_at(action) + lang.len()) =~= lang);
}

/// Every action asks for the configured language: a non-blank target
/// language, trimmed, occurs in the prompt.
pub proof fn law_prompt_names_the_language(action: ActionKind, target_lang: Seq<char>)
    requires
        trim(target_lang).len() > 0,
    ensures
        occurs_in(trim(target_lang), prompt_text(action, prompt_language(target_lang))),
{
    lemma_language_in_prompt(action, trim(target_lang));
}

/// Two configured languages that differ (once trimmed) give different
/// prompts for every action.
pub proof fn law_prompt_tells_languages_apart(action: ActionKind, l1: Seq<char>, l2: Seq<char>)
    requires
        trim(l1).len() > 0,
        trim(l2).len() > 0,
        trim(l1) != trim(l2),
    ensures
        prompt_text(action, prompt_language(l1)) != prompt_text(action, prompt_language(l2)),
{
    let a = trim(l1);
    let b = trim(l2);
    lemma_language_in_prompt(action, a);
    lemma_language_in_prompt(action, b);
    let pa = prompt_text(action, Some(a));
    let pb = prompt_text(action, Some(b));
    if pa == pb {
        assert(a.len() == b.len());
        assert(a =~= b);
    }
}

/// The system prompt for an action, in the configured target language, or
/// leaving the language to the model when none is configured. Copying and
/// saving do not call a model; they get a neutral summary prompt.
pub fn system_prompt(action: ActionKind, target_lang: &str) -> (p: String)
    ensures
        p@ == prompt_text(action, prompt_language(target_lang@)),
        trim(target_lang@).len() == 0 ==> p@ != prompt_text(action, Some("中文"@)),
{
    let t = trimmed(target_lang);
    if t.as_str().is_empty() {
        proof {
            lemma_open_language_prompt_differs(action);
        }
        let open = "最合适的语言";
        return match action {
            ActionKind::Translate => String::from_str(
                "你是翻译引擎。自动识别输入语言，自行选择最合适的目标语言译出。只输出译文本身，不要解释、不要加引号、不要复述原文。",
            ),
            ActionKind::Explain => {
                let mut p = String::from_str("你用");
                p.append(open);
                p.append("解释用户给出的词或句子：先给一句话的核心意思，再补充语境、用法或背景。控制在 150 字以内，不要复述原文。");
                p
            },
            ActionKind::Search => {
                let mut p = String::from_str("你是检索型助手。针对用户给出的片段，用");
                p.append(open);
                p.append("给出与之相关的关键事实、背景和延伸信息。控制在 200 字以内，不确定的地方要明确说不确定。");
                p
            },
            ActionKind::Copy | ActionKind::Save => {
                let mut p = String::from_str("用");
                p.append(open);
                p.append("简要概括用户给出的文本。");
                p
            },
        };
    }
    let l = t.as_str();
    match action {
        ActionKind::Translate => {
            let mut p = String::from_str("你是翻译引擎。自动识别输入语言：若输入是");
            p.append(l);
            p.append("，译成英文；否则译成");
            p.append(l);
            p.append("。只输出译文本身，不要解释、不要加引号、不要复述原文。");
            p
        },
        ActionKind::Explain => {
            let mut p = String::from_str("你用");
            p.append(l);
            p.append("解释用户给出的词或句子：先给一句话的核心意思，再补充语境、用法或背景。控制在 150 字以内，不要复述原文。");
            p
        },
        ActionKind::Search => {
            let mut p = String::from_str("你是检索型助手。针对用户给出的片段，用");
            p.append(l);
            p.append("给出与之相关的关键事实、背景和延伸信息。控制在 200 字以内，不确定的地方要明确说不确定。");
            p
        },
        ActionKind::Copy | ActionKind::Save => {
            let mut p = String::from_str("用");
            p.append(l);
            p.append("简要概括用户给出的文本。");
            p
        },
    }
}

/// The directory configured for saved selections: the setting trimmed, or
/// none when it is blank (the documents folder is used then).
pub fn configured_save_dir(setting: &str) -> (dir: Option<String>)
    ensures
        match dir {
            Some(d) => trim(setting@).len() > 0 && d@ == trim(setting@),
            None => trim(setting@).len() == 0,
        },
{
    let d = trimmed(setting);
    if d.as_str().is_empty() {
        None
    } else {
        Some(d)
    }
}

} // verus!
