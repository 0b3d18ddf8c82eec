//! The toolbar actions: what is decided before models are called, the
//! column briefs for the front end, the voice list of the speech
//! synthesizer, and the arguments for speaking a text.

use vstd::prelude::*;
use vstd::std_specs::convert::FromSpecImpl;
use crate::config::{
    ActionKind, ModelConfig, ModelView, active_models, active_order, model_views, prompt_language,
    prompt_text, system_prompt, views_of,
};
use crate::text::{
    from_chars, lines_of, newline_stop, next_newline, span, split_words, strip_cr, to_chars, trim,
    trimmed, words_of,
};

verus! {

/// What the front end needs to lay out a model's result column.
#[derive(Debug)]
pub struct ModelBrief {
    pub id: String,
    pub name: String,
    pub primary: bool,
}

impl<'a> From<&'a ModelConfig> for ModelBrief {
    fn from(m: &'a ModelConfig) -> (b: Self) {
        ModelBrief { id: m.id.clone(), name: m.name.clone(), primary: m.primary }
    }
}

impl<'a> FromSpecImpl<&'a ModelConfig> for ModelBrief {
    open spec fn obeys_from_spec() -> bool {
        true
    }

    open spec fn from_spec(m: &'a ModelConfig) -> ModelBrief {
        ModelBrief { id: m.id, name: m.name, primary: m.primary }
    }
}

/// The brief of a model: its id, name and whether it is primary.
pub open spec fn brief_of(m: ModelView) -> (Seq<char>, Seq<char>, bool) {
    (m.id, m.name, m.primary)
}

/// The contents of a brief.
pub open spec fn brief_view(b: ModelBrief) -> (Seq<char>, Seq<char>, bool) {
    (b.id@, b.name@, b.primary)
}

/// What an action is to do once it has been checked: call each of
/// `models` with `system` as the system prompt, after telling the front
/// end the columns in `briefs`.
pub struct ActionPlan<'a> {
    pub models: Vec<&'a ModelConfig>,
    pub briefs: Vec<ModelBrief>,
    pub system: String,
}

/// Checks an action request and prepares it: the selected text must not be
/// empty and some model must be enabled. The models are the active ones
/// (primary first) and the system prompt is the action's, in the target
/// language.
pub fn prepare_action<'a>(
    selection: &str,
    models: &'a Vec<ModelConfig>,
    target_lang: &str,
    action: ActionKind,
) -> (r: Result<ActionPlan<'a>, String>)
    ensures
        match r {
            Ok(plan) => {
                &&& selection@.len() > 0
                &&& views_of(plan.models@) == active_order(model_views(models@))
                &&& plan.models@.len() > 0
                &&& plan.briefs@.map_values(|b: ModelBrief| brief_view(b)) == active_order(
                    model_views(models@),
                ).map_values(|m: ModelView| brief_of(m))
                &&& plan.system@ == prompt_text(action, prompt_language(target_lang@))
            },
            Err(e) => if selection@.len() == 0 {
                e@ == "没有可用的划词文本"@
            } else {
                &&& active_order(model_views(models@)).len() == 0
                &&& e@ == "没有启用任何模型，请先到设置里配置"@
            },
        },
{
    if selection.is_empty() {
        return Err(String::from_str("没有可用的划词文本"));
    }
    let list = active_models(models);
    if list.len() == 0 {
        return Err(String::from_str("没有启用任何模型，请先到设置里配置"));
    }
    let mut briefs: Vec<ModelBrief> = Vec::new();
    let mut i: usize = 0;
    while i < list.len()
        invariant
            i <= list@.len(),
            briefs@.len() == i,
            briefs@.map_values(|b: ModelBrief| brief_view(b)) == views_of(list@).take(
                i as int,
            ).map_values(|m: ModelView| brief_of(m)),
        decreases list@.len() - i,
    {
        let b = ModelBrief::from(list[i]);
        assert(brief_view(b) == brief_of(views_of(list@)[i as int]));
        let ghost before = briefs@;
        briefs.push(b);
        assert(views_of(list@).take(i + 1) =~= views_of(list@).take(i as int).push(
            views_of(list@)[i as int],
        ));
        let ghost lhs = briefs@.map_values(|b: ModelBrief| brief_view(b));
        let ghost rhs = views_of(list@).take(i + 1).map_values(|m: ModelView| brief_of(m));
        let ghost prev = views_of(list@).take(i as int).map_values(|m: ModelView| brief_of(m));
        assert forall|j: int| 0 <= j < i + 1 implies #[trigger] lhs[j] == rhs[j] by {
            if j < i {
                assert(briefs@[j] == before[j]);
                assert(before.map_values(|b: ModelBrief| brief_view(b))[j] == prev[j]);
            }
        }
        assert(lhs =~= rhs);
        i = i + 1;
    }
    assert(views_of(list@).take(list@.len() as int) =~= views_of(list@));
    let system = system_prompt(action, target_lang);
    Ok(ActionPlan { models: list, briefs, system })
}

/// A voice installed for the speech synthesizer.
#[derive(Debug)]
pub struct VoiceInfo {
    pub name: String,
    pub locale: String,
}

impl View for VoiceInfo {
    type V = (Seq<char>, Seq<char>);

    open spec fn view(&self) -> (Seq<char>, Seq<char>) {
        (self.name@, self.locale@)
    }
}

/// An ASCII lowercase letter.
pub open spec fn is_ascii_lower(c: char) -> bool {
    'a' <= c && c <= 'z'
}

/// An ASCII letter or digit.
pub open spec fn is_ascii_alnum(c: char) -> bool {
    ('a' <= c && c <= 'z') || ('A' <= c && c <= 'Z') || ('0' <= c && c <= '9')
}

/// Stops at the separator of a locale's language and region.
pub open spec fn locale_sep_stop() -> spec_fn(char) -> bool {
    |c: char| c == '_' || c == '-'
}

/// A word shaped like a locale such as `zh_CN` or `en-US`: split at its
/// first `_` or `-`, two or three lowercase ASCII letters, then two to
/// eight ASCII letters or digits.
pub open spec fn locale_like(tok: Seq<char>) -> bool {
    let k = span(tok, locale_sep_stop());
    &&& k < tok.len()
    &&& 2 <= k <= 3
    &&& forall|i: int| 0 <= i < k ==> is_ascii_lower(#[trigger] tok[i])
    &&& 2 <= tok.len() - k - 1 <= 8
    &&& forall|i: int| k < i < tok.len() ==> is_ascii_alnum(#[trigger] tok[i])
}

/// Index of the first locale-shaped word.
pub open spec fn first_locale(ws: Seq<Seq<char>>) -> Option<int>
    decreases ws.len(),
{
    if ws.len() == 0 {
        None
    } else if locale_like(ws[0]) {
        Some(0)
    } else {
        match first_locale(ws.drop_first()) {
            Some(k) => Some(k + 1),
            None => None,
        }
    }
}

/// The words joined by single spaces.
pub open spec fn join_words(ws: Seq<Seq<char>>) -> Seq<char>
    decreases ws.len(),
{
    if ws.len() == 0 {
        Seq::empty()
    } else if ws.len() == 1 {
        ws[0]
    } else {
        join_words(ws.drop_last()) + seq![' '] + ws.last()
    }
}

/// The voice a line of the synthesizer's list describes: the words before
/// the first locale-shaped word form the name (which may hold spaces), that
/// word is the locale, and the comment after it is dropped. Lines without a
/// locale or without a name describe none.
pub open spec fn voice_of_line(line: Seq<char>) -> Option<(Seq<char>, Seq<char>)> {
    let ws = words_of(line);
    match first_locale(ws) {
        Some(k) => if k > 0 {
            Some((join_words(ws.take(k)), ws[k]))
        } else {
            None
        },
        None => None,
    }
}

/// The voices described by `lines`, in order.
pub open spec fn voices_of_lines(lines: Seq<Seq<char>>) -> Seq<(Seq<char>, Seq<char>)>
    decreases lines.len(),
{
    if lines.len() == 0 {
        Seq::empty()
    } else {
        (match voice_of_line(lines[0]) {
            Some(v) => seq![v],
            None => Seq::empty(),
        }) + voices_of_lines(lines.drop_first())
    }
}

/// Where the first locale-shaped word is: before it none is one.
proof fn lemma_first_locale(ws: Seq<Seq<char>>)
    ensures
        match first_locale(ws) {
            Some(k) => 0 <= k < ws.len() && locale_like(ws[k]) && forall|j: int|
                0 <= j < k ==> !locale_like(#[trigger] ws[j]),
            None => forall|j: int| 0 <= j < ws.len() ==> !locale_like(#[trigger] ws[j]),
        },
    decreases ws.len(),
{
    if ws.len() > 0 && !locale_like(ws[0]) {
        lemma_first_locale(ws.drop_first());
        assert forall|j: int| 0 < j < ws.len() implies ws[j] == ws.drop_first()[j - 1] by {}
    }
}

/// Whether a word is shaped like a locale.
fn looks_like_locale(tok: &[char]) -> (b: bool)
    ensures
        b == locale_like(tok@),
{
    let n = tok.len();
    let mut k: usize = 0;
    while k < n && tok[k] != '_' && tok[k] != '-'
        invariant
            k <= n == tok@.len(),
            forall|j: int| 0 <= j < k ==> !locale_sep_stop()(#[trigger] tok@[j]),
        decreases n - k,
    {
        k = k + 1;
    }
    proof {
        crate::text::lemma_span_unique(tok@, locale_sep_stop(), k as nat);
    }
    if k == n || k < 2 || k > 3 || n - k - 1 < 2 || n - k - 1 > 8 {
        return false;
    }
    let mut i: usize = 0;
    while i < k
        invariant
            i <= k < n == tok@.len(),
            k == span(tok@, locale_sep_stop()),
            forall|j: int| 0 <= j < i ==> is_ascii_lower(#[trigger] tok@[j]),
        decreases k - i,
    {
        if !('a' <= tok[i] && tok[i] <= 'z') {
            assert(!is_ascii_lower(tok@[i as int]));
            return false;
        }
        i = i + 1;
    }
    let mut i: usize = k + 1;
    while i < n
        invariant
            k < i <= n == tok@.len(),
            k == span(tok@, locale_sep_stop()),
            forall|j: int| k < j < i ==> is_ascii_alnum(#[trigger] tok@[j]),
        decreases n - i,
    {
        let c = tok[i];
        if !(('a' <= c && c <= 'z') || ('A' <= c && c <= 'Z') || ('0' <= c && c <= '9')) {
            assert(!is_ascii_alnum(tok@[i as int]));
            return false;
        }
        i = i + 1;
    }
    true
}

/// The voice described by the line `v[from..to]`, if any.
fn parse_voice_line(v: &[char], from: usize, to: usize) -> (r: Option<VoiceInfo>)
    requires
        from <= to <= v@.len(),
    ensures
        match r {
            Some(info) => voice_of_line(v@.subrange(from as int, to as int)) == Some(info@),
            None => voice_of_line(v@.subrange(from as int, to as int)) is None,
        },
{
    let ws = split_words(v, from, to);
    let ghost wv = ws.deep_view();
    proof {
        lemma_first_locale(wv);
    }
    let mut k: usize = 0;
    while k < ws.len() && !looks_like_locale(ws[k].as_slice())
        invariant
            k <= ws@.len(),
            wv == ws.deep_view(),
            forall|j: int| 0 <= j < k ==> !locale_like(#[trigger] wv[j]),
        decreases ws@.len() - k,
    {
        assert(ws@[k as int].deep_view() =~= ws@[k as int]@);
        k = k + 1;
    }
    if k < ws.len() {
        assert(ws@[k as int].deep_view() =~= ws@[k as int]@);
        assert(locale_like(wv[k as int]));
    }
    if k == ws.len() || k == 0 {
        return None;
    }
    assert(ws@[k as int].deep_view() =~= ws@[k as int]@);
    assert(first_locale(wv) == Some(k as int));
    let mut name = from_chars(ws[0].as_slice(), 0, ws[0].len());
    assert(ws@[0].deep_view() =~= ws@[0]@);
    assert(ws@[0]@.subrange(0, ws@[0]@.len() as int) =~= ws@[0]@);
    assert(wv.take(1).drop_last() =~= Seq::<Seq<char>>::empty());
    let mut j: usize = 1;
    while j < k
        invariant
            1 <= j <= k < ws@.len(),
            wv == ws.deep_view(),
            name@ == join_words(wv.take(j as int)),
        decreases k - j,
    {
        crate::text::push_char(&mut name, ' ');
        name.append(from_chars(ws[j].as_slice(), 0, ws[j].len()).as_str());
        proof {
            assert(ws@[j as int].deep_view() =~= ws@[j as int]@);
            assert(ws@[j as int]@.subrange(0, ws@[j as int]@.len() as int) =~= ws@[j as int]@);
            assert(wv.take(j + 1).drop_last() =~= wv.take(j as int));
        }
        j = j + 1;
    }
    let locale = from_chars(ws[k].as_slice(), 0, ws[k].len());
    assert(ws@[k as int]@.subrange(0, ws@[k as int]@.len() as int) =~= ws@[k as int]@);
    Some(VoiceInfo { name, locale })
}

/// The contents of a list of voices.
pub open spec fn voice_views(vs: Seq<VoiceInfo>) -> Seq<(Seq<char>, Seq<char>)> {
    vs.map_values(|v: VoiceInfo| v@)
}

/// Parses the synthesizer's voice list (`say -v '?'`): one voice per line,
/// a name that may hold spaces (`Bad News`, `Eddy (Alto)`), a locale such as
/// `zh_CN`, then a comment. Lines that do not fit are skipped.
pub fn parse_voices(out: &str) -> (voices: Vec<VoiceInfo>)
    ensures
        voice_views(voices@) == voices_of_lines(lines_of(out@)),
{
    let v = to_chars(out);
    let n = v.len();
    let mut voices: Vec<VoiceInfo> = Vec::new();
    let mut pos: usize = 0;
    assert(v@.subrange(0, n as int) =~= v@);
    while pos < n
        invariant
            pos <= n == v@.len(),
            v@ == out@,
            voice_views(voices@) + voices_of_lines(lines_of(v@.subrange(pos as int, n as int)))
                == voices_of_lines(lines_of(out@)),
        decreases n - pos,
    {
        let e = next_newline(v.as_slice(), pos, n);
        let line_end = if e < n && e > pos && v[e - 1] == '\r' {
            e - 1
        } else {
            e
        };
        let ghost s = v@.subrange(pos as int, n as int);
        let ghost before = voices@;
        proof {
            let k = (e - pos) as int;
            if e < n {
                assert(s.take(k) =~= v@.subrange(pos as int, e as int));
                assert(strip_cr(s.take(k)) =~= v@.subrange(pos as int, line_end as int));
                assert(s.skip(k + 1) =~= v@.subrange(e + 1, n as int));
            } else {
                assert(v@.subrange(pos as int, line_end as int) =~= s);
            }
        }
        let ghost line = v@.subrange(pos as int, line_end as int);
        match parse_voice_line(v.as_slice(), pos, line_end) {
            Some(info) => {
                voices.push(info);
                assert(voice_views(voices@) =~= voice_views(before) + seq![info@]);
            },
            None => {},
        }
        proof {
            let rest = if e < n {
                v@.subrange(e + 1, n as int)
            } else {
                Seq::<char>::empty()
            };
            assert(lines_of(s) =~= seq![line] + lines_of(rest));
            assert(seq![line] + lines_of(rest) =~= (seq![line] + lines_of(rest)));
            assert((seq![line] + lines_of(rest)).drop_first() =~= lines_of(rest));
            let mine = match voice_of_line(line) {
                Some(x) => seq![x],
                None => Seq::empty(),
            };
            assert(voices_of_lines(lines_of(s)) == mine + voices_of_lines(lines_of(rest)));
            assert(voice_views(voices@) =~= voice_views(before) + mine);
            assert(voice_views(before) + (mine + voices_of_lines(lines_of(rest))) =~= (
            voice_views(before) + mine) + voices_of_lines(lines_of(rest)));
            if e >= n {
                assert(v@.subrange(n as int, n as int) =~= Seq::<char>::empty());
            }
        }
        pos = if e < n {
            e + 1
        } else {
            n
        };
    }
    assert(v@.subrange(n as int, n as int) =~= Seq::<char>::empty());
    assert(voice_views(voices@) + Seq::<(Seq<char>, Seq<char>)>::empty() =~= voice_views(voices@));
    voices
}

/// The first model with id `model_id`; when there is none, the error
/// names the id.
pub fn find_model<'a>(models: &'a Vec<ModelConfig>, model_id: &str) -> (r: Result<
    &'a ModelConfig,
    String,
>)
    ensures
        match r {
            Ok(m) => exists|i: int|
                0 <= i < models@.len() && models@[i] == *m && m.id@ == model_id@ && forall|j: int|
                    0 <= j < i ==> #[trigger] models@[j].id@ != model_id@,
            Err(e) => {
                &&& forall|i: int| 0 <= i < models@.len() ==> #[trigger] models@[i].id@ != model_id@
                &&& e@ == "配置里没有模型 "@ + model_id@
            },
        },
{
    let wanted = String::from_str(model_id);
    let mut i: usize = 0;
    while i < models.len()
        invariant
            i <= models@.len(),
            wanted@ == model_id@,
            forall|j: int| 0 <= j < i ==> #[trigger] models@[j].id@ != model_id@,
        decreases models@.len() - i,
    {
        if models[i].id == wanted {
            return Ok(&models[i]);
        }
        i = i + 1;
    }
    let mut e = String::from_str("配置里没有模型 ");
    e.append(model_id);
    Err(e)
}

/// Checks a request to run an action again on one model: the selected text
/// must not be empty and the model must be configured. Gives the model and
/// the system prompt.
pub fn prepare_retry<'a>(
    selection: &str,
    models: &'a Vec<ModelConfig>,
    target_lang: &str,
    action: ActionKind,
    model_id: &str,
) -> (r: Result<(&'a ModelConfig, String), String>)
    ensures
        match r {
            Ok((m, system)) => {
                &&& selection@.len() > 0
                &&& m.id@ == model_id@
                &&& exists|i: int| 0 <= i < models@.len() && models@[i] == *m && forall|j: int|
                    0 <= j < i ==> #[trigger] models@[j].id@ != model_id@
                &&& system@ == prompt_text(action, prompt_language(target_lang@))
            },
            Err(e) => if selection@.len() == 0 {
                e@ == "没有可用的划词文本"@
            } else {
                &&& forall|i: int| 0 <= i < models@.len() ==> #[trigger] models@[i].id@ != model_id@
                &&& e@ == "配置里没有模型 "@ + model_id@
            },
        },
{
    if selection.is_empty() {
        return Err(String::from_str("没有可用的划词文本"));
    }
    let m = find_model(models, model_id)?;
    let system = system_prompt(action, target_lang);
    Ok((m, system))
}

/// The decimal digit for `d` (below ten).
pub open spec fn digit_char(d: nat) -> char {
    if d == 0 {
        '0'
    } else if d == 1 {
        '1'
    } else if d == 2 {
        '2'
    } else if d == 3 {
        '3'
    } else if d == 4 {
        '4'
    } else if d == 5 {
        '5'
    } else if d == 6 {
        '6'
    } else if d == 7 {
        '7'
    } else if d == 8 {
        '8'
    } else {
        '9'
    }
}

/// `n` written in decimal, without leading zeros.
pub open spec fn decimal_text(n: nat) -> Seq<char>
    decreases n,
{
    if n < 10 {
        seq![digit_char(n)]
    } else {
        decimal_text(n / 10) + seq![digit_char(n % 10)]
    }
}

/// The number a run of decimal digits denotes.
pub open spec fn digits_value(s: Seq<char>) -> int
    decreases s.len(),
{
    if s.len() == 0 {
        0
    } else {
        digits_value(s.drop_last()) * 10 + (s.last() as int - '0' as int)
    }
}

/// `decimal_text(n)` is `n` written in decimal: digits only, denoting `n`,
/// with no leading zero (zero itself is `0`).
pub proof fn law_decimal_text_denotes(n: nat)
    ensures
        decimal_text(n).len() > 0,
        forall|i: int| 0 <= i < decimal_text(n).len() ==> '0' <= #[trigger] decimal_text(n)[i] <= '9',
        digits_value(decimal_text(n)) == n,
        n > 0 ==> decimal_text(n)[0] != '0',
        n == 0 ==> decimal_text(n) == seq!['0'],
    decreases n,
{
    if n < 10 {
        let s = decimal_text(n);
        assert(s.drop_last() =~= Seq::<char>::empty());
        assert(digits_value(Seq::<char>::empty()) == 0);
        assert(s.last() == digit_char(n));
        assert(digits_value(s) == digit_char(n) as int - '0' as int);
    } else {
        let q = n / 10;
        let r = n % 10;
        law_decimal_text_denotes(q);
        let s = decimal_text(n);
        let h = decimal_text(q);
        assert(s == h + seq![digit_char(r)]);
        assert(s.drop_last() =~= h);
        assert(s.last() == digit_char(r));
        assert(digit_char(r) as int - '0' as int == r);
        assert(q * 10 + r == n);
        assert forall|i: int| 0 <= i < s.len() implies '0' <= #[trigger] s[i] <= '9' by {
            if i < h.len() {
                assert(s[i] == h[i]);
            }
        }
        assert(s[0] == h[0]);
    }
}

/// `n` written in decimal, as `u32`'s `Display` writes it.
pub fn decimal(n: u32) -> (s: String)
    ensures
        s@ == decimal_text(n as nat),
    decreases n,
{
    let mut s = if n < 10 {
        String::new()
    } else {
        decimal(n / 10)
    };
    let d = n % 10;
    let c = if d == 0 {
        '0'
    } else if d == 1 {
        '1'
    } else if d == 2 {
        '2'
    } else if d == 3 {
        '3'
    } else if d == 4 {
        '4'
    } else if d == 5 {
        '5'
    } else if d == 6 {
        '6'
    } else if d == 7 {
        '7'
    } else if d == 8 {
        '8'
    } else {
        '9'
    };
    crate::text::push_char(&mut s, c);
    s
}

/// The arguments for the speech synthesizer (`say`): the text, then
/// `-v voice` when a voice is configured, then `-r rate` when a rate is.
pub open spec fn say_args(text: Seq<char>, voice: Seq<char>, rate: u32) -> Seq<Seq<char>> {
    seq![text] + (if trim(voice).len() > 0 {
        seq!["-v"@, trim(voice)]
    } else {
        Seq::empty()
    }) + (if rate > 0 {
        seq!["-r"@, decimal_text(rate as nat)]
    } else {
        Seq::empty()
    })
}

/// The arguments start with the text itself; a configured voice follows
/// it as `-v` and the voice's trimmed name; a rate above zero comes last as
/// `-r` and the rate in decimal, whether or not a voice is configured; and
/// nothing else is passed.
pub proof fn law_say_args_shape(text: Seq<char>, voice: Seq<char>, rate: u32)
    ensures
        ({
            let a = say_args(text, voice, rate);
            let v: int = if trim(voice).len() > 0 { 2 } else { 0 };
            let r: int = if rate > 0 { 2 } else { 0 };
            &&& a.len() == 1 + v + r
            &&& a[0] == text
            &&& trim(voice).len() > 0 ==> a[1] == "-v"@ && a[2] == trim(voice)
            &&& rate > 0 ==> a[a.len() - 2] == "-r"@ && a[a.len() - 1] == decimal_text(
                rate as nat,
            )
        }),
{
}

/// The rate option depends on the rate alone: two voices give the same
/// last two arguments at a rate above zero.
pub proof fn law_rate_ignores_voice(text: Seq<char>, v1: Seq<char>, v2: Seq<char>, rate: u32)
    requires
        rate > 0,
    ensures
        say_args(text, v1, rate).skip(say_args(text, v1, rate).len() - 2) == say_args(
            text,
            v2,
            rate,
        ).skip(say_args(text, v2, rate).len() - 2),
        say_args(text, v1, rate).skip(say_args(text, v1, rate).len() - 2) == seq![
            "-r"@,
            decimal_text(rate as nat),
        ],
{
    law_say_args_shape(text, v1, rate);
    law_say_args_shape(text, v2, rate);
    let a = say_args(text, v1, rate);
    let b = say_args(text, v2, rate);
    assert(a.skip(a.len() - 2) =~= seq!["-r"@, decimal_text(rate as nat)]);
    assert(b.skip(b.len() - 2) =~= seq!["-r"@, decimal_text(rate as nat)]);
}

/// The speech synthesizer's arguments for speaking `text` with `voice`
/// (empty: the system's) at `rate` words per minute (0: the system's).
/// Fails when the text is only whitespace.
pub fn say_arguments(text: &str, voice: &str, rate: u32) -> (r: Result<Vec<String>, String>)
    ensures
        match r {
            Ok(args) => trim(text@).len() > 0 && args.deep_view() == say_args(text@, voice@, rate),
            Err(e) => trim(text@).len() == 0 && e@ == "没有可朗读的文本"@,
        },
{
    if trimmed(text).as_str().is_empty() {
        return Err(String::from_str("没有可朗读的文本"));
    }
    let mut args: Vec<String> = Vec::new();
    args.push(String::from_str(text));
    let ghost a1 = args.deep_view();
    assert(a1 =~= seq![text@]);
    let v = trimmed(voice);
    if !v.as_str().is_empty() {
        args.push(String::from_str("-v"));
        args.push(v);
    }
    let ghost a2 = args.deep_view();
    assert(a2 =~= a1 + (if trim(voice@).len() > 0 {
        seq!["-v"@, trim(voice@)]
    } else {
        Seq::<Seq<char>>::empty()
    }));
    if rate > 0 {
        args.push(String::from_str("-r"));
        args.push(decimal(rate));
    }
    assert(args.deep_view() =~= a2 + (if rate > 0 {
        seq!["-r"@, decimal_text(rate as nat)]
    } else {
        Seq::<Seq<char>>::empty()
    }));
    Ok(args)
}

} // verus!
