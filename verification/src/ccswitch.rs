//! Importing model candidates from cc-switch.
//!
//! cc-switch keeps its providers in a table whose `settings_config` column
//! is a JSON settings document for Anthropic-protocol clients:
//! `{"env": {"ANTHROPIC_BASE_URL": ..., "ANTHROPIC_AUTH_TOKEN": ..., "ANTHROPIC_MODEL": ...}}`.
//! Those are Anthropic-protocol endpoints while this tool speaks the OpenAI
//! protocol, so the endpoint is mapped (heuristically, see
//! [`to_openai_endpoint`]); the same key works for both.

use vstd::prelude::*;
use crate::config::{ModelConfig, ModelView, model_views};
use crate::json::{json_string_at, lookup_json_string};
use crate::text::{
    skip_slashes_backward, strip_trailing_slashes,
    is_ws, lemma_trim_end_shape, lemma_trim_end_unique, lemma_trim_start_shape,
    lemma_trim_start_unique, trim_end, trim_start, contains_chars, copy_chars, ends_with_chars, from_chars, occurs_in, push_char,
    skip_ws_backward, skip_ws_forward, to_chars, trim, trimmed,
};

verus! {

/// The OpenAI-compatible endpoint for an Anthropic-protocol base URL:
/// Zhipu's known path for its host, otherwise the URL without a trailing
/// `/anthropic`, ending in `/v1`.
pub open spec fn openai_endpoint(base: Seq<char>) -> Seq<char> {
    let b = strip_trailing_slashes(trim(base));
    if occurs_in("open.bigmodel.cn"@, b) {
        "https://open.bigmodel.cn/api/paas/v4"@
    } else {
        let stripped = if "/anthropic"@.is_suffix_of(b) {
            b.take(b.len() - "/anthropic"@.len())
        } else {
            b
        };
        if "/v1"@.is_suffix_of(stripped) {
            stripped
        } else {
            stripped + "/v1"@
        }
    }
}

/// Maps an Anthropic-protocol endpoint to the OpenAI-compatible one.
///
/// Providers do not agree on their OpenAI paths; Zhipu's is known, the
/// others get "drop a trailing `/anthropic`, add `/v1`". Users are meant to
/// check the result in the settings page.
pub fn to_openai_endpoint(base: &str) -> (e: String)
    ensures
        e@ == openai_endpoint(base@),
{
    let v = to_chars(base);
    let n = v.len();
    let a = skip_ws_forward(v.as_slice(), 0, n);
    let b = skip_ws_backward(v.as_slice(), a, n);
    assert(v@.subrange(0, n as int) =~= v@);
    let end = skip_slashes_backward(v.as_slice(), a, b);
    let s = copy_chars(v.as_slice(), a, end);
    let big = to_chars("open.bigmodel.cn");
    if contains_chars(s.as_slice(), big.as_slice()) {
        return String::from_str("https://open.bigmodel.cn/api/paas/v4");
    }
    let anth = to_chars("/anthropic");
    let keep = if ends_with_chars(s.as_slice(), anth.as_slice()) {
        s.len() - anth.len()
    } else {
        s.len()
    };
    let st = copy_chars(s.as_slice(), 0, keep);
    assert(s@.subrange(0, s@.len() as int) =~= s@);
    assert(s@.subrange(0, keep as int) =~= s@.take(keep as int));
    let v1 = to_chars("/v1");
    let mut out = from_chars(st.as_slice(), 0, st.len());
    assert(st@.subrange(0, st@.len() as int) =~= st@);
    if !ends_with_chars(st.as_slice(), v1.as_slice()) {
        out.append("/v1");
    }
    out
}

/// Stripping trailing slashes leaves a prefix.
proof fn lemma_strip_slashes_prefix(s: Seq<char>)
    ensures
        strip_trailing_slashes(s).len() <= s.len(),
        strip_trailing_slashes(s) =~= s.take(strip_trailing_slashes(s).len() as int),
    decreases s.len(),
{
    if s.len() > 0 && s.last() == '/' {
        lemma_strip_slashes_prefix(s.drop_last());
    }
}

/// Text that does not end in `/` and has no whitespace at its ends.
proof fn lemma_clean_end_fixed(r: Seq<char>)
    requires
        r.len() > 0,
        !is_ws(r[0]),
        !is_ws(r.last()),
        r.last() != '/',
    ensures
        strip_trailing_slashes(trim(r)) == r,
{
    lemma_trim_start_unique(Seq::<char>::empty(), r);
    assert(Seq::<char>::empty() + r =~= r);
    lemma_trim_end_unique(r, Seq::<char>::empty());
    assert(r + Seq::<char>::empty() =~= r);
}

/// Mapping an endpoint that is already in OpenAI form changes nothing:
/// mapping twice is mapping once.
pub proof fn law_openai_endpoint_is_idempotent(base: Seq<char>)
    ensures
        openai_endpoint(openai_endpoint(base)) == openai_endpoint(base),
{
    reveal_strlit("open.bigmodel.cn");
    reveal_strlit("https://open.bigmodel.cn/api/paas/v4");
    reveal_strlit("/anthropic");
    reveal_strlit("/v1");
    let big = "open.bigmodel.cn"@;
    let zhipu = "https://open.bigmodel.cn/api/paas/v4"@;
    let anth = "/anthropic"@;
    let v1 = "/v1"@;
    let b = strip_trailing_slashes(trim(base));
    let r = openai_endpoint(base);
    if occurs_in(big, b) {
        lemma_clean_end_fixed(zhipu);
        assert(zhipu.subrange(8, 8 + big.len() as int) =~= big);
    } else {
        let stripped = if anth.is_suffix_of(b) {
            b.take(b.len() - anth.len())
        } else {
            b
        };
        lemma_strip_slashes_prefix(trim(base));
        lemma_trim_start_shape(base);
        lemma_trim_end_shape(trim_start(base));
        assert(stripped =~= b.take(stripped.len() as int));
        assert(v1.is_suffix_of(r)) by {
            if !v1.is_suffix_of(stripped) {
                assert((stripped + v1).subrange(stripped.len() as int, (stripped + v1).len() as int)
                    =~= v1);
            }
        }
        assert(r.last() == v1.last());
        if stripped.len() > 0 {
            assert(r[0] == stripped[0]);
            assert(stripped[0] == b[0]);
            assert(b[0] == trim(base)[0]);
            assert(trim(base)[0] == trim_start(base)[0]);
        } else if !v1.is_suffix_of(stripped) {
            assert(r[0] == v1[0]);
        }
        lemma_clean_end_fixed(r);
        assert(!occurs_in(big, r)) by {
            if occurs_in(big, r) {
                let i = choose|i: int|
                    0 <= i && i + big.len() <= r.len() && #[trigger] r.subrange(i, i + big.len())
                        == big;
                if i + big.len() <= stripped.len() {
                    assert(b.subrange(i, i + big.len()) =~= r.subrange(i, i + big.len()));
                } else {
                    let k = stripped.len() - i;
                    assert(r[stripped.len() as int] == '/');
                    assert(big[k] == r.subrange(i, i + big.len())[k]);
                }
            }
        }
        assert(!anth.is_suffix_of(r)) by {
            if anth.is_suffix_of(r) {
                assert(r.subrange(r.len() - anth.len(), r.len() as int).last() == anth.last());
            }
        }
    }
}

/// A row of cc-switch's provider table.
pub struct ProviderRow {
    pub id: String,
    pub name: String,
    /// The JSON settings document.
    pub settings_config: String,
}

/// The contents of a [`ProviderRow`]: id, name and settings document.
pub open spec fn row_view(r: ProviderRow) -> (Seq<char>, Seq<char>, Seq<char>) {
    (r.id@, r.name@, r.settings_config@)
}

/// The string at `pointer` in `doc`, or the empty string.
pub open spec fn json_string_or_empty(doc: Seq<char>, pointer: Seq<char>) -> Seq<char> {
    match json_string_at(doc, pointer) {
        Some(s) => s,
        None => Seq::<char>::empty(),
    }
}

/// The key in a settings document: the auth token, or else the API key,
/// trimmed.
pub open spec fn settings_token(doc: Seq<char>) -> Seq<char> {
    match json_string_at(doc, "/env/ANTHROPIC_AUTH_TOKEN"@) {
        Some(t) => trim(t),
        None => trim(json_string_or_empty(doc, "/env/ANTHROPIC_API_KEY"@)),
    }
}

/// The base URL in a settings document, trimmed.
pub open spec fn settings_base(doc: Seq<char>) -> Seq<char> {
    trim(json_string_or_empty(doc, "/env/ANTHROPIC_BASE_URL"@))
}

/// The model in a settings document: the environment's, or else the
/// top-level one.
pub open spec fn settings_model(doc: Seq<char>) -> Seq<char> {
    match json_string_at(doc, "/env/ANTHROPIC_MODEL"@) {
        Some(m) => m,
        None => json_string_or_empty(doc, "/model"@),
    }
}

/// The first eight characters of `id` (all of it if shorter).
pub open spec fn short_id(id: Seq<char>) -> Seq<char> {
    if id.len() <= 8 {
        id
    } else {
        id.take(8)
    }
}

/// The model candidate for a provider row: none for rows with neither a
/// key nor a base URL (the official login entries); otherwise disabled and
/// not primary, with an id prefixed so it cannot clash with hand-made ones.
pub open spec fn provider_entry(row: (Seq<char>, Seq<char>, Seq<char>)) -> Option<ModelView> {
    let (id, name, doc) = row;
    if settings_token(doc).len() == 0 && settings_base(doc).len() == 0 {
        None
    } else {
        Some(
            ModelView {
                id: "cc-"@ + short_id(id),
                name: name,
                endpoint: openai_endpoint(settings_base(doc)),
                model: settings_model(doc),
                api_key: settings_token(doc),
                enabled: false,
                primary: false,
            },
        )
    }
}

/// The string at `pointer` in `doc`, or an empty string.
fn json_string_or_new(doc: &str, pointer: &str) -> (s: String)
    ensures
        s@ == json_string_or_empty(doc@, pointer@),
{
    match lookup_json_string(doc, pointer) {
        Some(s) => s,
        None => String::new(),
    }
}

/// The model candidate for one provider row, if it has a key or a base URL.
pub fn provider_model(row: &ProviderRow) -> (m: Option<ModelConfig>)
    ensures
        match m {
            Some(c) => provider_entry(row_view(*row)) == Some(c@),
            None => provider_entry(row_view(*row)) is None,
        },
{
    let doc = row.settings_config.as_str();
    let token = match lookup_json_string(doc, "/env/ANTHROPIC_AUTH_TOKEN") {
        Some(t) => trimmed(t.as_str()),
        None => trimmed(json_string_or_new(doc, "/env/ANTHROPIC_API_KEY").as_str()),
    };
    let base = trimmed(json_string_or_new(doc, "/env/ANTHROPIC_BASE_URL").as_str());
    if token.as_str().is_empty() && base.as_str().is_empty() {
        return None;
    }
    let model = match lookup_json_string(doc, "/env/ANTHROPIC_MODEL") {
        Some(m) => m,
        None => json_string_or_new(doc, "/model"),
    };
    let idv = to_chars(row.id.as_str());
    let k = if idv.len() <= 8 {
        idv.len()
    } else {
        8
    };
    let mut id = String::from_str("cc-");
    let mut i: usize = 0;
    while i < k
        invariant
            k <= idv@.len(),
            i <= k,
            id@ == "cc-"@ + idv@.take(i as int),
        decreases k - i,
    {
        push_char(&mut id, idv[i]);
        i = i + 1;
        assert(id@ =~= "cc-"@ + idv@.take(i as int));
    }
    assert(idv@.take(k as int) =~= short_id(row.id@));
    Some(
        ModelConfig {
            id,
            name: row.name.clone(),
            endpoint: to_openai_endpoint(base.as_str()),
            model,
            api_key: token,
            enabled: false,
            primary: false,
        },
    )
}

/// The model candidates of all rows, in row order.
pub open spec fn provider_entries(rows: Seq<ProviderRow>) -> Seq<ModelView> {
    rows.map_values(|r: ProviderRow| row_view(r)).filter_map(|r| provider_entry(r))
}

/// Turns cc-switch's provider rows into model candidates, for the user to
/// pick from and enable. Fails when no row yields one.
pub fn import_providers(rows: &Vec<ProviderRow>) -> (r: Result<Vec<ModelConfig>, String>)
    ensures
        match r {
            Ok(list) => provider_entries(rows@).len() > 0 && model_views(list@) == provider_entries(
                rows@,
            ),
            Err(e) => provider_entries(rows@).len() == 0 && e@ == "cc-switch 里没有可导入的供应商"@,
        },
{
    let ghost all = rows@.map_values(|r: ProviderRow| row_view(r));
    let mut out: Vec<ModelConfig> = Vec::new();
    let mut i: usize = 0;
    while i < rows.len()
        invariant
            i <= rows@.len(),
            all == rows@.map_values(|r: ProviderRow| row_view(r)),
            model_views(out@) == all.take(i as int).filter_map(|r| provider_entry(r)),
        decreases rows@.len() - i,
    {
        let ghost before = out@;
        proof {
            assert(all.take(i + 1).drop_last() =~= all.take(i as int));
            assert(all.take(i + 1).last() == row_view(rows@[i as int]));
        }
        match provider_model(&rows[i]) {
            Some(m) => {
                out.push(m);
                assert(model_views(out@) =~= model_views(before) + seq![m@]);
            },
            None => {},
        }
        i = i + 1;
    }
    assert(all.take(rows@.len() as int) =~= all);
    if out.len() == 0 {
        return Err(String::from_str("cc-switch 里没有可导入的供应商"));
    }
    Ok(out)
}

/// `filter_map` of two runs is the `filter_map` of each, in order.
proof fn lemma_filter_map_append<A, B>(a: Seq<A>, b: Seq<A>, f: spec_fn(A) -> Option<B>)
    ensures
        (a + b).filter_map(f) == a.filter_map(f) + b.filter_map(f),
    decreases b.len(),
{
    if b.len() == 0 {
        assert(a + b =~= a);
        assert(a.filter_map(f) + b.filter_map(f) =~= a.filter_map(f));
    } else {
        assert((a + b).last() == b.last());
        assert((a + b).drop_last() =~= a + b.drop_last());
        lemma_filter_map_append(a, b.drop_last(), f);
        match f(b.last()) {
            Some(x) => {
                assert(a.filter_map(f) + b.drop_last().filter_map(f) + seq![x] =~= a.filter_map(f)
                    + (b.drop_last().filter_map(f) + seq![x]));
            },
            None => {},
        }
    }
}

/// Importing goes row by row: the candidates of two runs of rows are those
/// of the first run followed by those of the second, so no usable row is
/// lost and the order of the rows is kept.
pub proof fn law_import_is_row_by_row(first: Seq<ProviderRow>, second: Seq<ProviderRow>)
    ensures
        provider_entries(first + second) == provider_entries(first) + provider_entries(second),
{
    let f = |r: ProviderRow| row_view(r);
    assert((first + second).map_values(f) =~= first.map_values(f) + second.map_values(f));
    lemma_filter_map_append(
        first.map_values(f),
        second.map_values(f),
        |r| provider_entry(r),
    );
}

/// One row gives one candidate when it has a token or a base URL, and none
/// otherwise; so `n` usable rows give `n` candidates.
pub proof fn law_import_one_row(row: ProviderRow)
    ensures
        provider_entries(seq![row]) == match provider_entry(row_view(row)) {
            Some(m) => seq![m],
            None => Seq::<ModelView>::empty(),
        },
        provider_entries(seq![row]).len() == if settings_token(row.settings_config@).len() == 0
            && settings_base(row.settings_config@).len() == 0 {
            0nat
        } else {
            1nat
        },
{
    assert(seq![row].map_values(|r: ProviderRow| row_view(r)) =~= seq![row_view(row)]);
    Seq::lemma_filter_map_singleton(row_view(row), |r| provider_entry(r));
}

/// Trailing slashes do not matter: a base URL with one more `/` at its end
/// maps to the same endpoint (for a URL that does not end in whitespace,
/// which trimming would otherwise keep inside).
pub proof fn law_trailing_slash_is_ignored(base: Seq<char>)
    requires
        trim_end(base) == base,
    ensures
        openai_endpoint(base + seq!['/']) == openai_endpoint(base),
{
    let s = base + seq!['/'];
    let e = Seq::<char>::empty();
    crate::text::lemma_all_ws_trim(base);
    if base.len() == 0 {
        assert(s =~= seq!['/']);
        lemma_trim_start_unique(e, s);
        assert(e + s =~= s);
    } else {
        crate::text::lemma_trim_start_text_prefix(base, seq!['/']);
        lemma_trim_end_shape(base);
        lemma_trim_start_shape(base);
        let u = trim_start(base);
        assert(u.last() == base.last());
        assert(u + e =~= u);
        lemma_trim_end_unique(u, e);
    }
    let u = trim_start(base);
    assert((u + seq!['/']).last() == '/');
    assert((u + seq!['/']) + e =~= u + seq!['/']);
    lemma_trim_end_unique(u + seq!['/'], e);
    assert((u + seq!['/']).drop_last() =~= u);
    if base.len() == 0 {
        assert(u =~= e);
        assert(trim(base) =~= e);
    }
}

/// The `/anthropic` suffix is what is replaced: a clean base URL (trimmed,
/// not ending in `/`, not already ending in `/anthropic`, not Zhipu's)
/// with `/anthropic` appended maps to the same endpoint as without it.
pub proof fn law_anthropic_suffix_is_replaced(u: Seq<char>)
    requires
        trim(u) == u,
        u.len() == 0 || u.last() != '/',
        !"/anthropic"@.is_suffix_of(u),
        !occurs_in("open.bigmodel.cn"@, u + "/anthropic"@),
    ensures
        openai_endpoint(u + "/anthropic"@) == openai_endpoint(u),
{
    reveal_strlit("/anthropic");
    let anth = "/anthropic"@;
    let big = "open.bigmodel.cn"@;
    let w = u + anth;
    let e = Seq::<char>::empty();
    if u.len() > 0 {
        crate::text::lemma_trimmed_ends(u);
        assert(w[0] == u[0]);
    }
    assert(w.last() == anth.last());
    lemma_trim_start_unique(e, w);
    assert(e + w =~= w);
    lemma_trim_end_unique(w, e);
    assert(w + e =~= w);
    assert(trim(w) == w);
    assert(strip_trailing_slashes(w) == w);
    assert(strip_trailing_slashes(u) == u);
    assert(w.subrange(w.len() - anth.len(), w.len() as int) =~= anth);
    assert(anth.is_suffix_of(w));
    assert(w.take(w.len() - anth.len()) =~= u);
    assert(!occurs_in(big, u)) by {
        if occurs_in(big, u) {
            let i = choose|i: int|
                0 <= i && i + big.len() <= u.len() && #[trigger] u.subrange(i, i + big.len()) == big;
            assert(w.subrange(i, i + big.len()) =~= u.subrange(i, i + big.len()));
        }
    }
}

/// What a usable row becomes: a candidate that is neither enabled nor
/// primary, keeps the row's name, has an id made of `cc-` and at most the
/// first eight characters of the row's id, the OpenAI-compatible mapping
/// of the row's base URL as endpoint, and the row's key. A row with neither
/// a key nor a base URL gives no candidate.
pub proof fn law_candidate_of_row(row: ProviderRow)
    ensures
        match provider_entry(row_view(row)) {
            Some(m) => {
                &&& !m.enabled && !m.primary
                &&& m.name == row.name@
                &&& "cc-"@.is_prefix_of(m.id)
                &&& m.id.skip(3).is_prefix_of(row.id@)
                &&& m.id.len() == 3 + if row.id@.len() < 8 {
                    row.id@.len() as int
                } else {
                    8
                }
                &&& m.endpoint == openai_endpoint(settings_base(row.settings_config@))
                &&& m.api_key == settings_token(row.settings_config@)
            },
            None => settings_token(row.settings_config@).len() == 0 && settings_base(
                row.settings_config@,
            ).len() == 0,
        },
{
    reveal_strlit("cc-");
    let id = row.id@;
    let sid = short_id(id);
    let full = "cc-"@ + sid;
    assert(full.subrange(0, 3) =~= "cc-"@);
    assert(full.skip(3) =~= sid);
    assert(id.subrange(0, sid.len() as int) =~= sid);
}

/// A clean base URL that already ends in `/v1` is kept as it is (no
/// second `/v1`), unless it is Zhipu's; any base URL naming Zhipu's host
/// maps to Zhipu's OpenAI-compatible endpoint.
pub proof fn law_endpoint_keeps_v1_and_knows_zhipu(u: Seq<char>)
    requires
        trim(u) == u,
        u.len() > 0,
        u.last() != '/',
    ensures
        "/v1"@.is_suffix_of(u) && !occurs_in("open.bigmodel.cn"@, u) ==> openai_endpoint(u) == u,
        occurs_in("open.bigmodel.cn"@, u) ==> openai_endpoint(u)
            == "https://open.bigmodel.cn/api/paas/v4"@,
{
    reveal_strlit("/v1");
    reveal_strlit("/anthropic");
    let anth = "/anthropic"@;
    assert(strip_trailing_slashes(u) == u);
    if "/v1"@.is_suffix_of(u) {
        assert(u.last() == "/v1"@.last());
        if anth.is_suffix_of(u) {
            assert(u.last() == anth.last());
        }
    }
}

} // verus!
