//! Language-model and embedding-model settings: provider defaults, the
//! validation of what the user typed (endpoint, model, key), and the rules
//! that decide which key a runtime call uses. Reading and writing the
//! settings files happens in the application, which hands the stored
//! values to these functions.
use vstd::prelude::*;
use crate::text::{
    after, before, before_chars, chars_of, contains, find_first, first_occ, has_prefix_str,
    has_ws_or_ctrl, has_ctrl, lemma_trim_idempotent, occurs_at, any_ctrl, any_ws_or_ctrl, last_pos, lower,
    lower_chars, owned,
    push_chars, push_str, rfind_char, slice_chars, starts_with, string_of, text_is, trim,
    trim_chars, trim_end_char, trim_end_char_chars, trim_start_either, trim_start_either_chars,
    trimmed,
};

verus! {

#[derive(Debug)]
pub enum LlmError {
    /// Reading or writing the settings files failed (the message of the I/O error).
    Io(String),
    Invalid(String),
}

pub type LlmResult<T> = Result<T, LlmError>;

pub open spec fn llm_error_text(e: LlmError) -> Seq<char> {
    match e {
        LlmError::Io(s) => "读写语言模型配置失败: "@ + s@,
        LlmError::Invalid(s) => s@,
    }
}

pub open spec fn invalid(r: LlmResult<()>, m: Seq<char>) -> bool {
    r matches Err(LlmError::Invalid(s)) && s@ == m
}

impl LlmError {
    /// The message shown to the user.
    pub fn message(&self) -> (r: String)
        ensures
            r@ == llm_error_text(*self),
    {
        match self {
            LlmError::Io(s) => {
                let mut v = chars_of("读写语言模型配置失败: ");
                let w = chars_of(s.as_str());
                push_chars(&mut v, &w);
                string_of(&v)
            },
            LlmError::Invalid(s) => s.clone(),
        }
    }
}

fn invalid_msg<T>(m: &str) -> (r: LlmResult<T>)
    ensures
        r matches Err(LlmError::Invalid(s)) && s@ == m@,
{
    Err(LlmError::Invalid(owned(m)))
}

#[derive(Debug, Clone, Copy, PartialEq, Eq, Structural)]
pub enum Provider {
    Off,
    Openai,
    Xai,
    Ollama,
    Custom,
}

pub open spec fn default_base_url_spec(p: Provider) -> Seq<char> {
    match p {
        Provider::Openai => "https://api.openai.com/v1"@,
        Provider::Xai => "https://api.x.ai/v1"@,
        Provider::Ollama => "http://127.0.0.1:11434/v1"@,
        _ => Seq::empty(),
    }
}

pub open spec fn default_model_spec(p: Provider) -> Seq<char> {
    match p {
        Provider::Openai => "gpt-4o-mini"@,
        Provider::Xai => "grok-4.5"@,
        Provider::Ollama => "qwen2.5"@,
        _ => Seq::empty(),
    }
}

pub open spec fn default_embedding_model_spec(p: Provider) -> Seq<char> {
    match p {
        Provider::Openai => "text-embedding-3-small"@,
        Provider::Ollama => "nomic-embed-text"@,
        _ => Seq::empty(),
    }
}

impl Provider {
    pub fn default_base_url(self) -> (r: &'static str)
        ensures
            r@ == default_base_url_spec(self),
    {
        proof {
            reveal_strlit("");
        }
        match self {
            Provider::Off => "",
            Provider::Openai => "https://api.openai.com/v1",
            Provider::Xai => "https://api.x.ai/v1",
            Provider::Ollama => "http://127.0.0.1:11434/v1",
            Provider::Custom => "",
        }
    }

    pub fn default_model(self) -> (r: &'static str)
        ensures
            r@ == default_model_spec(self),
    {
        proof {
            reveal_strlit("");
        }
        match self {
            Provider::Off => "",
            Provider::Openai => "gpt-4o-mini",
            Provider::Xai => "grok-4.5",
            Provider::Ollama => "qwen2.5",
            Provider::Custom => "",
        }
    }

    pub fn default_embedding_model(self) -> (r: &'static str)
        ensures
            r@ == default_embedding_model_spec(self),
    {
        proof {
            reveal_strlit("");
        }
        match self {
            Provider::Off | Provider::Xai | Provider::Custom => "",
            Provider::Openai => "text-embedding-3-small",
            Provider::Ollama => "nomic-embed-text",
        }
    }
}

#[derive(Debug, Clone, PartialEq, Eq)]
pub struct EmbeddingConfig {
    pub provider: Provider,
    pub base_url: String,
    pub model: String,
}

impl Default for EmbeddingConfig {
    fn default() -> (r: Self)
        ensures
            r.provider == Provider::Off,
            r.base_url@ == Seq::<char>::empty(),
            r.model@ == Seq::<char>::empty(),
    {
        EmbeddingConfig { provider: Provider::Off, base_url: String::new(), model: String::new() }
    }
}

#[derive(Debug, Clone, PartialEq, Eq)]
pub struct LlmConfig {
    pub provider: Provider,
    pub base_url: String,
    pub model: String,
    pub embedding: EmbeddingConfig,
    /// Older files stored only the embedding model's name; it is moved into
    /// `embedding` when read and never written back.
    pub embedding_model: String,
}

impl Default for LlmConfig {
    fn default() -> (r: Self)
        ensures
            r.provider == Provider::Off,
            r.base_url@ == Seq::<char>::empty(),
            r.model@ == Seq::<char>::empty(),
            r.embedding.provider == Provider::Off,
            r.embedding.base_url@ == Seq::<char>::empty(),
            r.embedding.model@ == Seq::<char>::empty(),
            r.embedding_model@ == Seq::<char>::empty(),
    {
        LlmConfig {
            provider: Provider::Off,
            base_url: String::new(),
            model: String::new(),
            embedding: EmbeddingConfig::default(),
            embedding_model: String::new(),
        }
    }
}

/// What reading a configuration file makes of it: a legacy
/// `embeddingModel` moves into the embedding settings when the embedding is
/// off and the chat provider can serve embeddings; the legacy field is
/// always emptied.
pub open spec fn after_load_spec(c: LlmConfig, r: LlmConfig) -> bool {
    &&& r.provider == c.provider
    &&& r.base_url == c.base_url
    &&& r.model == c.model
    &&& r.embedding_model@ == Seq::<char>::empty()
    &&& ({
        let migrate = c.embedding.provider == Provider::Off && trim(c.embedding_model@).len() > 0
            && (c.provider == Provider::Openai || c.provider == Provider::Ollama || c.provider
            == Provider::Custom);
        if migrate {
            &&& r.embedding.provider == c.provider
            &&& r.embedding.base_url@ == c.base_url@
            &&& r.embedding.model@ == trim(c.embedding_model@)
        } else {
            r.embedding == c.embedding
        }
    })
}

impl LlmConfig {
    /// Moves a legacy `embeddingModel` into the embedding settings when the
    /// embedding is off and the chat provider can serve embeddings; the
    /// legacy field is always emptied.
    pub fn after_load(self) -> (r: Self)
        ensures
            after_load_spec(self, r),
    {
        let legacy = trimmed(self.embedding_model.as_str());
        let serves = match self.provider {
            Provider::Openai | Provider::Ollama | Provider::Custom => true,
            _ => false,
        };
        let embedding = if self.embedding.provider == Provider::Off && legacy.len() > 0 && serves {
            EmbeddingConfig {
                provider: self.provider,
                base_url: self.base_url.clone(),
                model: string_of(&legacy),
            }
        } else {
            self.embedding
        };
        LlmConfig {
            provider: self.provider,
            base_url: self.base_url,
            model: self.model,
            embedding,
            embedding_model: String::new(),
        }
    }

    /// Neither the chat model nor the embedding model is enabled.
    pub fn both_off(&self) -> (r: bool)
        ensures
            r == (self.provider == Provider::Off && self.embedding.provider == Provider::Off),
    {
        self.provider == Provider::Off && self.embedding.provider == Provider::Off
    }
}

#[derive(Debug, Clone, PartialEq, Eq)]
pub struct LlmSettings {
    pub provider: Provider,
    pub base_url: String,
    pub model: String,
    pub has_key: bool,
    pub embedding_provider: Provider,
    pub embedding_base_url: String,
    pub embedding_model: String,
    pub has_embedding_key: bool,
}

/// A chat-model draft as submitted; an empty key means "keep the stored key".
#[derive(Debug, Clone)]
pub struct LlmDraft {
    pub provider: Provider,
    pub base_url: String,
    pub model: String,
    pub key: String,
}

/// An embedding-model draft as submitted, independent of the chat model.
#[derive(Debug, Clone)]
pub struct EmbeddingDraft {
    pub provider: Provider,
    pub base_url: String,
    pub model: String,
    pub key: String,
}

#[derive(Debug, Clone, PartialEq, Eq)]
pub struct Normalized {
    pub config: LlmConfig,
    /// `None` keeps the stored key; `Some("")` means no key at all.
    pub key: Option<String>,
}

#[derive(Debug, Clone, PartialEq, Eq)]
pub struct NormalizedEmbedding {
    pub config: EmbeddingConfig,
    /// `None` keeps the stored key; `Some("")` means no key at all.
    pub key: Option<String>,
}

/// The embedding model is enabled and names a model.
pub fn embedding_ready(cfg: &LlmConfig) -> (r: bool)
    ensures
        r == (cfg.embedding.provider != Provider::Off && trim(cfg.embedding.model@).len() > 0),
{
    cfg.embedding.provider != Provider::Off && trimmed(cfg.embedding.model.as_str()).len() > 0
}

// ---------- endpoints ----------

fn join_path(base_url: &str, tail: &str) -> (r: String)
    ensures
        r@ == trim_end_char(base_url@, '/') + tail@,
{
    let b = chars_of(base_url);
    let mut v = trim_end_char_chars(&b, '/');
    push_str(&mut v, tail);
    string_of(&v)
}

/// The OpenAI-compatible models list, used to test a connection.
pub fn models_url(base_url: &str) -> (r: String)
    ensures
        r@ == trim_end_char(base_url@, '/') + "/models"@,
{
    join_path(base_url, "/models")
}

pub fn chat_url(base_url: &str) -> (r: String)
    ensures
        r@ == trim_end_char(base_url@, '/') + "/chat/completions"@,
{
    join_path(base_url, "/chat/completions")
}

pub fn embeddings_url(base_url: &str) -> (r: String)
    ensures
        r@ == trim_end_char(base_url@, '/') + "/embeddings"@,
{
    join_path(base_url, "/embeddings")
}

/// The authority part of an address: after `://`, before the first `/`.
pub open spec fn authority(url: Seq<char>) -> Seq<char> {
    let rest = match first_occ(url, "://"@) {
        Some(i) => url.skip(i + 3),
        None => url,
    };
    before(rest, '/')
}

/// The authority without a user part (everything up to the last `@`).
pub open spec fn strip_user(a: Seq<char>) -> Seq<char> {
    match last_pos(a, '@') {
        Some(i) => a.skip(i + 1 as int),
        None => a,
    }
}

/// A host without its port; an IPv6 literal taken from inside its brackets.
pub open spec fn strip_port(h: Seq<char>) -> Seq<char> {
    if h.len() > 0 && h[0] == '[' {
        before(trim_start_either(h, '[', '['), ']')
    } else {
        before(h, ':')
    }
}

/// The host of an address, trimmed and lowercased.
pub open spec fn host_of(url: Seq<char>) -> Seq<char> {
    lower(trim(strip_port(strip_user(authority(url)))))
}

pub open spec fn is_loopback_spec(url: Seq<char>) -> bool {
    let h = host_of(url);
    h == "127.0.0.1"@ || h == "localhost"@ || h == "::1"@ || h == "0.0.0.0"@
}

fn authority_chars(url: &str) -> (r: Vec<char>)
    ensures
        r@ == authority(url@),
{
    let u = chars_of(url);
    let sep = chars_of("://");
    proof {
        reveal_strlit("://");
    }
    let rest = match find_first(&u, &sep) {
        Some(i) => {
            assert(sep@.len() == 3);
            assert(occurs_at(u@, sep@, i as int));
            let m = u.len();
            assert(i + 3 <= m);
            let st: usize = i + 3;
            let v = slice_chars(&u, st, m);
            assert(v@ =~= u@.skip(i + 3));
            v
        },
        None => u,
    };
    before_chars(&rest, '/')
}

fn strip_user_chars(a: &Vec<char>) -> (r: Vec<char>)
    ensures
        r@ == strip_user(a@),
{
    match rfind_char(a, '@') {
        Some(i) => {
            let v = slice_chars(a, i + 1, a.len());
            assert(v@ =~= a@.skip(i + 1));
            v
        },
        None => crate::text::copy_chars(a),
    }
}

fn strip_port_chars(h: &Vec<char>) -> (r: Vec<char>)
    ensures
        r@ == strip_port(h@),
{
    if h.len() > 0 && h[0] == '[' {
        let t = trim_start_either_chars(h, '[', '[');
        before_chars(&t, ']')
    } else {
        before_chars(h, ':')
    }
}

fn host_chars(url: &str) -> (r: Vec<char>)
    ensures
        r@ == host_of(url@),
{
    let a = authority_chars(url);
    let h = strip_user_chars(&a);
    let h2 = strip_port_chars(&h);
    let t = trim_chars(&h2);
    lower_chars(&t)
}

/// Whether the address points at this machine.
pub fn is_loopback(url: &str) -> (r: bool)
    ensures
        r == is_loopback_spec(url@),
{
    let h = host_chars(url);
    text_is(&h, "127.0.0.1") || text_is(&h, "localhost") || text_is(&h, "::1") || text_is(
        &h,
        "0.0.0.0",
    )
}

/// What `validate_endpoint` decides: `None` accepts the address, otherwise
/// the reason it is refused.
pub open spec fn endpoint_problem(url: Seq<char>) -> Option<Seq<char>> {
    if has_ws_or_ctrl(url) {
        Some("接口地址含非法字符"@)
    } else if starts_with(lower(url), "https://"@) {
        if url.len() <= 8 {
            Some("接口地址不完整"@)
        } else {
            None
        }
    } else if starts_with(lower(url), "http://"@) {
        if is_loopback_spec(url) {
            None
        } else {
            Some("非本机地址必须使用 https。本机可用 http://127.0.0.1 或 http://localhost"@)
        }
    } else {
        Some("接口地址必须以 https:// 开头（本机可用 http://）"@)
    }
}

pub open spec fn check_result(r: LlmResult<()>, problem: Option<Seq<char>>) -> bool {
    match problem {
        None => r is Ok,
        Some(m) => invalid(r, m),
    }
}

/// Accepts `https://` addresses and plain `http://` only for this machine;
/// refuses whitespace, control characters and other schemes.
pub fn validate_endpoint(url: &str) -> (r: LlmResult<()>)
    ensures
        check_result(r, endpoint_problem(url@)),
{
    let u = chars_of(url);
    if any_ws_or_ctrl(&u) {
        return invalid_msg("接口地址含非法字符");
    }
    let lowered = lower_chars(&u);
    if has_prefix_str(&lowered, "https://") {
        if u.len() <= 8 {
            return invalid_msg("接口地址不完整");
        }
        return Ok(());
    }
    if has_prefix_str(&lowered, "http://") {
        if is_loopback(url) {
            return Ok(());
        }
        return invalid_msg("非本机地址必须使用 https。本机可用 http://127.0.0.1 或 http://localhost");
    }
    invalid_msg("接口地址必须以 https:// 开头（本机可用 http://）")
}

// ---------- drafts ----------

/// The endpoint a draft resolves to, or why it cannot be used.
pub open spec fn resolve_base_url_spec(p: Provider, raw: Seq<char>) -> Result<Seq<char>, Seq<char>> {
    let t = trim(raw);
    if t.len() == 0 && default_base_url_spec(p).len() == 0 {
        Err("请填写接口地址，例如 https://api.deepseek.com/v1"@)
    } else {
        let url = if t.len() == 0 {
            default_base_url_spec(p)
        } else {
            trim_end_char(t, '/')
        };
        match endpoint_problem(url) {
            Some(m) => Err(m),
            None => Ok(url),
        }
    }
}

fn resolve_base_url(provider: Provider, raw: &str) -> (r: LlmResult<String>)
    ensures
        match resolve_base_url_spec(provider, raw@) {
            Ok(u) => r matches Ok(s) && s@ == u,
            Err(m) => r matches Err(LlmError::Invalid(s)) && s@ == m,
        },
{
    let t = trimmed(raw);
    let url = if t.len() == 0 {
        let def = provider.default_base_url();
        if chars_of(def).len() == 0 {
            return invalid_msg("请填写接口地址，例如 https://api.deepseek.com/v1");
        }
        owned(def)
    } else {
        string_of(&trim_end_char_chars(&t, '/'))
    };
    match validate_endpoint(url.as_str()) {
        Ok(()) => Ok(url),
        Err(e) => Err(e),
    }
}

/// The model a draft resolves to, or why it cannot be used. `default`
/// stands for the provider's default model, `what` for the field's name.
pub open spec fn resolve_model_spec(raw: Seq<char>, default: Seq<char>, what: Seq<char>) -> Result<
    Seq<char>,
    Seq<char>,
> {
    let t = trim(raw);
    if t.len() > 0 {
        if has_ws_or_ctrl(t) {
            Err(what + "不能含空白或控制字符"@)
        } else {
            Ok(t)
        }
    } else if default.len() == 0 {
        Err("请填写"@ + what)
    } else {
        Ok(default)
    }
}

fn resolve_named(raw: &str, default: &str, what: &str) -> (r: LlmResult<String>)
    ensures
        match resolve_model_spec(raw@, default@, what@) {
            Ok(u) => r matches Ok(s) && s@ == u,
            Err(m) => r matches Err(LlmError::Invalid(s)) && s@ == m,
        },
{
    let t = trimmed(raw);
    if t.len() > 0 {
        if any_ws_or_ctrl(&t) {
            let mut m = chars_of(what);
            push_str(&mut m, "不能含空白或控制字符");
            return Err(LlmError::Invalid(string_of(&m)));
        }
        return Ok(string_of(&t));
    }
    let d = chars_of(default);
    if d.len() == 0 {
        let mut m = chars_of("请填写");
        push_str(&mut m, what);
        return Err(LlmError::Invalid(string_of(&m)));
    }
    Ok(string_of(&d))
}

/// What `require_key` decides for a provider, endpoint and effective key.
pub open spec fn key_problem(p: Provider, base_url: Seq<char>, key: Seq<char>) -> Option<Seq<char>> {
    if key.len() > 0 {
        if has_ctrl(key) {
            Some("API Key 含非法字符"@)
        } else {
            None
        }
    } else if p == Provider::Ollama && is_loopback_spec(base_url) {
        None
    } else {
        Some("请填写语言模型 API Key"@)
    }
}

/// A key is needed unless Ollama runs on this machine; a key may not hold
/// control characters.
pub fn require_key(provider: Provider, base_url: &str, key: &str) -> (r: LlmResult<()>)
    ensures
        check_result(r, key_problem(provider, base_url@, key@)),
{
    let k = chars_of(key);
    if k.len() > 0 {
        if any_ctrl(&k) {
            return invalid_msg("API Key 含非法字符");
        }
        return Ok(());
    }
    if provider == Provider::Ollama && is_loopback(base_url) {
        return Ok(());
    }
    invalid_msg("请填写语言模型 API Key")
}

pub open spec fn opt_str(o: Option<&str>) -> Option<Seq<char>> {
    match o {
        Some(s) => Some(s@),
        None => None,
    }
}

/// The key a draft submits: its trimmed text, or `None` when that is empty.
pub open spec fn incoming_key(key: Seq<char>) -> Option<Seq<char>> {
    if trim(key).len() > 0 {
        Some(trim(key))
    } else {
        None
    }
}

/// The first of several optional keys that is present, or empty.
pub open spec fn first_key(a: Option<Seq<char>>, b: Option<Seq<char>>) -> Seq<char> {
    match a {
        Some(k) => k,
        None => match b {
            Some(k) => k,
            None => Seq::empty(),
        },
    }
}

/// What `normalize_draft` gives for a draft: `Err` with the message, or the
/// resolved endpoint and model.
pub open spec fn normalize_draft_spec(d: LlmDraft, existing: Option<Seq<char>>) -> Result<
    (Seq<char>, Seq<char>),
    Seq<char>,
> {
    match resolve_base_url_spec(d.provider, d.base_url@) {
        Err(m) => Err(m),
        Ok(url) => match resolve_model_spec(
            d.model@,
            default_model_spec(d.provider),
            "模型名"@,
        ) {
            Err(m) => Err(m),
            Ok(model) => match key_problem(
                d.provider,
                url,
                first_key(incoming_key(d.key@), existing),
            ) {
                Some(m) => Err(m),
                None => Ok((url, model)),
            },
        },
    }
}

pub open spec fn key_view(k: Option<String>) -> Option<Seq<char>> {
    match k {
        Some(s) => Some(s@),
        None => None,
    }
}

/// Checks a chat-model draft. Turning the model off always succeeds and
/// clears the key; otherwise the endpoint falls back to the provider's
/// default and must pass `validate_endpoint`, the model falls back to the
/// provider's default and may not hold whitespace, and a key must be at
/// hand (the submitted one, else the stored one) unless Ollama runs on this
/// machine. The embedding settings are never touched here.
pub fn normalize_draft(draft: &LlmDraft, existing_key: Option<&str>) -> (r: LlmResult<Normalized>)
    ensures
        draft.provider == Provider::Off ==> (r matches Ok(n) && n.config.provider == Provider::Off
            && n.config.base_url@.len() == 0 && n.config.model@.len() == 0
            && n.config.embedding.provider == Provider::Off && n.config.embedding.base_url@.len()
            == 0 && n.config.embedding.model@.len() == 0 && n.config.embedding_model@.len() == 0
            && key_view(n.key) == Some(Seq::<char>::empty())),
        draft.provider != Provider::Off ==> match normalize_draft_spec(*draft, opt_str(existing_key)) {
            Err(m) => r matches Err(LlmError::Invalid(s)) && s@ == m,
            Ok((url, model)) => r matches Ok(n) && n.config.provider == draft.provider
                && n.config.base_url@ == url && n.config.model@ == model
                && n.config.embedding.provider == Provider::Off && n.config.embedding.base_url@.len()
                == 0 && n.config.embedding.model@.len() == 0 && n.config.embedding_model@.len() == 0
                && key_view(n.key) == incoming_key(draft.key@),
        },
{
    if draft.provider == Provider::Off {
        return Ok(Normalized { config: LlmConfig::default(), key: Some(String::new()) });
    }
    let base_url = match resolve_base_url(draft.provider, draft.base_url.as_str()) {
        Ok(u) => u,
        Err(e) => return Err(e),
    };
    let model = match resolve_named(draft.model.as_str(), draft.provider.default_model(), "模型名") {
        Ok(m) => m,
        Err(e) => return Err(e),
    };
    let incoming = trimmed(draft.key.as_str());
    let key: Option<String> = if incoming.len() > 0 {
        Some(string_of(&incoming))
    } else {
        None
    };
    let effective: String = match &key {
        Some(k) => k.clone(),
        None => match existing_key {
            Some(e) => owned(e),
            None => String::new(),
        },
    };
    match require_key(draft.provider, base_url.as_str(), effective.as_str()) {
        Ok(()) => {},
        Err(e) => return Err(e),
    }
    Ok(Normalized {
        config: LlmConfig {
            provider: draft.provider,
            base_url,
            model,
            embedding: EmbeddingConfig::default(),
            embedding_model: String::new(),
        },
        key,
    })
}

/// What `normalize_embedding_draft` gives for a draft that is not off.
pub open spec fn normalize_embedding_spec(
    d: EmbeddingDraft,
    existing: Option<Seq<char>>,
    chat: LlmConfig,
    chat_key: Option<Seq<char>>,
) -> Result<(Seq<char>, Seq<char>), Seq<char>> {
    if d.provider == Provider::Xai {
        Err("xAI 不提供向量模型。请改用 OpenAI、Ollama 或自定义接口。"@)
    } else {
        match resolve_base_url_spec(d.provider, d.base_url@) {
            Err(m) => Err(m),
            Ok(url) => match resolve_model_spec(
                d.model@,
                default_embedding_model_spec(d.provider),
                "向量模型名"@,
            ) {
                Err(m) => Err(m),
                Ok(model) => {
                    let reuse_chat = d.provider == chat.provider && url == chat.base_url@;
                    let effective = match incoming_key(d.key@) {
                        Some(k) => k,
                        None => first_key(
                            existing,
                            if reuse_chat {
                                chat_key
                            } else {
                                None
                            },
                        ),
                    };
                    match key_problem(d.provider, url, effective) {
                        Some(m) => Err(m),
                        None => Ok((url, model)),
                    }
                },
            },
        }
    }
}

/// Checks an embedding-model draft, as `normalize_draft` does for the chat
/// model, with two differences: xAI serves no embeddings, and when the
/// endpoint is the chat model's own the chat key may serve.
pub fn normalize_embedding_draft(
    draft: &EmbeddingDraft,
    existing_key: Option<&str>,
    chat: &LlmConfig,
    chat_key: Option<&str>,
) -> (r: LlmResult<NormalizedEmbedding>)
    ensures
        draft.provider == Provider::Off ==> (r matches Ok(n) && n.config.provider == Provider::Off
            && n.config.base_url@.len() == 0 && n.config.model@.len() == 0 && key_view(n.key)
            == Some(Seq::<char>::empty())),
        draft.provider != Provider::Off ==> match normalize_embedding_spec(
            *draft,
            opt_str(existing_key),
            *chat,
            opt_str(chat_key),
        ) {
            Err(m) => r matches Err(LlmError::Invalid(s)) && s@ == m,
            Ok((url, model)) => r matches Ok(n) && n.config.provider == draft.provider
                && n.config.base_url@ == url && n.config.model@ == model && key_view(n.key)
                == incoming_key(draft.key@),
        },
{
    if draft.provider == Provider::Off {
        return Ok(NormalizedEmbedding { config: EmbeddingConfig::default(), key: Some(String::new()) });
    }
    if draft.provider == Provider::Xai {
        return invalid_msg("xAI 不提供向量模型。请改用 OpenAI、Ollama 或自定义接口。");
    }
    let base_url = match resolve_base_url(draft.provider, draft.base_url.as_str()) {
        Ok(u) => u,
        Err(e) => return Err(e),
    };
    let model = match resolve_named(
        draft.model.as_str(),
        draft.provider.default_embedding_model(),
        "向量模型名",
    ) {
        Ok(m) => m,
        Err(e) => return Err(e),
    };
    let incoming = trimmed(draft.key.as_str());
    let key: Option<String> = if incoming.len() > 0 {
        Some(string_of(&incoming))
    } else {
        None
    };
    let url_v = chars_of(base_url.as_str());
    let chat_v = chars_of(chat.base_url.as_str());
    let reuse_chat = draft.provider == chat.provider && crate::text::same_text(&url_v, &chat_v);
    let effective: String = match &key {
        Some(k) => k.clone(),
        None => match existing_key {
            Some(e) => owned(e),
            None => if reuse_chat {
                match chat_key {
                    Some(c) => owned(c),
                    None => String::new(),
                }
            } else {
                String::new()
            },
        },
    };
    match require_key(draft.provider, base_url.as_str(), effective.as_str()) {
        Ok(()) => {},
        Err(e) => return Err(e),
    }
    Ok(NormalizedEmbedding {
        config: EmbeddingConfig { provider: draft.provider, base_url, model },
        key,
    })
}

// ---------- runtime settings ----------

/// The embedding endpoint is the chat model's own.
pub open spec fn same_endpoint_spec(chat: LlmConfig, e: EmbeddingConfig) -> bool {
    e.provider != Provider::Off && e.provider == chat.provider && e.base_url@ == chat.base_url@
}

pub fn same_endpoint(chat: &LlmConfig, embedding: &EmbeddingConfig) -> (r: bool)
    ensures
        r == same_endpoint_spec(*chat, *embedding),
{
    if embedding.provider == Provider::Off || embedding.provider != chat.provider {
        return false;
    }
    let a = chars_of(embedding.base_url.as_str());
    let b = chars_of(chat.base_url.as_str());
    crate::text::same_text(&a, &b)
}

pub open spec fn stored(k: Option<String>) -> Seq<char> {
    match k {
        Some(s) => s@,
        None => Seq::empty(),
    }
}

/// Checks the saved chat settings before a generation. `stored_key` is the
/// saved chat key, when there is one.
pub fn load_runtime(cfg: LlmConfig, stored_key: Option<String>) -> (r: LlmResult<(LlmConfig, String)>)
    ensures
        cfg.provider == Provider::Off ==> (r matches Err(LlmError::Invalid(m)) && m@
            == "还没有启用语言模型。到设置「四、语言模型」选择供应商并保存。"@),
        cfg.provider != Provider::Off ==> match key_problem(cfg.provider, cfg.base_url@, stored(stored_key)) {
            Some(m) => r matches Err(LlmError::Invalid(s)) && s@ == m,
            None => r matches Ok((c, k)) && c == cfg && k@ == stored(stored_key),
        },
{
    if cfg.provider == Provider::Off {
        return invalid_msg("还没有启用语言模型。到设置「四、语言模型」选择供应商并保存。");
    }
    let key = match stored_key {
        Some(k) => k,
        None => String::new(),
    };
    match require_key(cfg.provider, cfg.base_url.as_str(), key.as_str()) {
        Ok(()) => Ok((cfg, key)),
        Err(e) => Err(e),
    }
}

pub open spec fn embedding_key_spec(cfg: LlmConfig, emb_key: Option<String>, chat_key: Option<String>) -> Seq<char> {
    match emb_key {
        Some(k) => k@,
        None => if same_endpoint_spec(cfg, cfg.embedding) {
            stored(chat_key)
        } else {
            Seq::empty()
        },
    }
}

/// The key an embedding call uses: the saved embedding key, else the chat
/// key when the endpoint is the chat model's own, else none.
pub fn embedding_key_for(cfg: &LlmConfig, emb_key: Option<String>, chat_key: Option<String>) -> (r:
    String)
    ensures
        r@ == embedding_key_spec(*cfg, emb_key, chat_key),
{
    match emb_key {
        Some(k) => k,
        None => if same_endpoint(cfg, &cfg.embedding) {
            match chat_key {
                Some(k) => k,
                None => String::new(),
            }
        } else {
            String::new()
        },
    }
}

/// Checks the saved embedding settings before a vector search. The caller
/// falls back to lexical search when this fails.
pub fn load_embedding_runtime(cfg: LlmConfig, emb_key: Option<String>, chat_key: Option<String>) -> (r:
    LlmResult<(EmbeddingConfig, String)>)
    ensures
        !(cfg.embedding.provider != Provider::Off && trim(cfg.embedding.model@).len() > 0) ==> (
        r matches Err(LlmError::Invalid(m)) && m@
            == "还没有启用向量模型。到设置「五、向量检索」选择供应商并保存。"@),
        (cfg.embedding.provider != Provider::Off && trim(cfg.embedding.model@).len() > 0
            && cfg.embedding.provider == Provider::Xai) ==> (r matches Err(LlmError::Invalid(m))
            && m@ == "xAI 不提供向量模型。到设置「五、向量检索」改选 OpenAI、Ollama 或自定义。"@),
        (cfg.embedding.provider != Provider::Off && trim(cfg.embedding.model@).len() > 0
            && cfg.embedding.provider != Provider::Xai) ==> match key_problem(
            cfg.embedding.provider,
            cfg.embedding.base_url@,
            embedding_key_spec(cfg, emb_key, chat_key),
        ) {
            Some(m) => r matches Err(LlmError::Invalid(s)) && s@ == m,
            None => r matches Ok((e, k)) && e == cfg.embedding && k@ == embedding_key_spec(
                cfg,
                emb_key,
                chat_key,
            ),
        },
{
    if !embedding_ready(&cfg) {
        return invalid_msg("还没有启用向量模型。到设置「五、向量检索」选择供应商并保存。");
    }
    if cfg.embedding.provider == Provider::Xai {
        return invalid_msg("xAI 不提供向量模型。到设置「五、向量检索」改选 OpenAI、Ollama 或自定义。");
    }
    let key = embedding_key_for(&cfg, emb_key, chat_key);
    match require_key(cfg.embedding.provider, cfg.embedding.base_url.as_str(), key.as_str()) {
        Ok(()) => Ok((cfg.embedding, key)),
        Err(e) => Err(e),
    }
}

/// The settings page's view of the saved configuration. `has_key` tells
/// whether a chat key is saved, `has_embedding_key_file` whether an
/// embedding key is; the embedding also counts as keyed when it shares the
/// chat endpoint and a chat key is saved.
pub fn to_settings(config: &LlmConfig, has_key: bool, has_embedding_key_file: bool) -> (r: LlmSettings)
    ensures
        r.provider == config.provider,
        r.base_url == config.base_url,
        r.model == config.model,
        r.has_key == has_key,
        r.embedding_provider == config.embedding.provider,
        r.embedding_base_url == config.embedding.base_url,
        r.embedding_model == config.embedding.model,
        r.has_embedding_key == (has_embedding_key_file || (same_endpoint_spec(
            *config,
            config.embedding,
        ) && has_key)),
{
    let shared = same_endpoint(config, &config.embedding);
    LlmSettings {
        provider: config.provider,
        base_url: config.base_url.clone(),
        model: config.model.clone(),
        has_key,
        embedding_provider: config.embedding.provider,
        embedding_base_url: config.embedding.base_url.clone(),
        embedding_model: config.embedding.model.clone(),
        has_embedding_key: has_embedding_key_file || (shared && has_key),
    }
}

/// The settings shown when nothing is enabled.
pub fn empty_settings() -> (r: LlmSettings)
    ensures
        r.provider == Provider::Off,
        r.base_url@.len() == 0,
        r.model@.len() == 0,
        !r.has_key,
        r.embedding_provider == Provider::Off,
        r.embedding_base_url@.len() == 0,
        r.embedding_model@.len() == 0,
        !r.has_embedding_key,
{
    LlmSettings {
        provider: Provider::Off,
        base_url: String::new(),
        model: String::new(),
        has_key: false,
        embedding_provider: Provider::Off,
        embedding_base_url: String::new(),
        embedding_model: String::new(),
        has_embedding_key: false,
    }
}

// ---------- saving ----------

/// What happens to a key file after settings are saved.
#[derive(Debug, Clone, PartialEq, Eq)]
pub enum KeyFileAction {
    Keep,
    Remove,
    Write(String),
}

/// What saving settings does to the files.
#[derive(Debug, Clone, PartialEq, Eq)]
pub enum SavePlan {
    /// Both models are off: every settings file is removed.
    ClearAll,
    /// The configuration is written and the key file handled as stated.
    Write(LlmConfig, KeyFileAction),
}

pub open spec fn key_action_spec(off: bool, key: Option<String>, a: KeyFileAction) -> bool {
    if off {
        a == KeyFileAction::Remove
    } else {
        match key {
            None => a == KeyFileAction::Keep,
            Some(k) => if k@.len() == 0 {
                a == KeyFileAction::Remove
            } else {
                a matches KeyFileAction::Write(w) && w@ == k@
            },
        }
    }
}

fn key_action(off: bool, key: Option<String>) -> (a: KeyFileAction)
    ensures
        key_action_spec(off, key, a),
{
    if off {
        return KeyFileAction::Remove;
    }
    match key {
        None => KeyFileAction::Keep,
        Some(k) => if chars_of(k.as_str()).len() == 0 {
            KeyFileAction::Remove
        } else {
            KeyFileAction::Write(k)
        },
    }
}

/// Saving a checked chat draft over the loaded configuration: the chat
/// fields are replaced, the embedding settings kept. When both end up off
/// everything is cleared; when the chat model is off its key file goes.
pub fn plan_chat_save(loaded: LlmConfig, n: Normalized) -> (r: SavePlan)
    ensures
        n.config.provider == Provider::Off && loaded.embedding.provider == Provider::Off ==> r
            == SavePlan::ClearAll,
        !(n.config.provider == Provider::Off && loaded.embedding.provider == Provider::Off) ==> (
        r matches SavePlan::Write(c, a) && c.provider == n.config.provider && c.base_url
            == n.config.base_url && c.model == n.config.model && c.embedding == loaded.embedding
            && c.embedding_model == loaded.embedding_model && key_action_spec(
            n.config.provider == Provider::Off,
            n.key,
            a,
        )),
{
    let cfg = LlmConfig {
        provider: n.config.provider,
        base_url: n.config.base_url,
        model: n.config.model,
        embedding: loaded.embedding,
        embedding_model: loaded.embedding_model,
    };
    if cfg.both_off() {
        return SavePlan::ClearAll;
    }
    let off = cfg.provider == Provider::Off;
    SavePlan::Write(cfg, key_action(off, n.key))
}

/// Saving a checked embedding draft over the loaded configuration: only
/// the embedding settings are replaced.
pub fn plan_embedding_save(loaded: LlmConfig, n: NormalizedEmbedding) -> (r: SavePlan)
    ensures
        n.config.provider == Provider::Off && loaded.provider == Provider::Off ==> r
            == SavePlan::ClearAll,
        !(n.config.provider == Provider::Off && loaded.provider == Provider::Off) ==> (
        r matches SavePlan::Write(c, a) && c.provider == loaded.provider && c.base_url
            == loaded.base_url && c.model == loaded.model && c.embedding == n.config
            && c.embedding_model == loaded.embedding_model && key_action_spec(
            n.config.provider == Provider::Off,
            n.key,
            a,
        )),
{
    let cfg = LlmConfig {
        provider: loaded.provider,
        base_url: loaded.base_url,
        model: loaded.model,
        embedding: n.config,
        embedding_model: loaded.embedding_model,
    };
    if cfg.both_off() {
        return SavePlan::ClearAll;
    }
    let off = cfg.embedding.provider == Provider::Off;
    SavePlan::Write(cfg, key_action(off, n.key))
}

/// Turning the chat model off: the embedding settings are kept and the
/// chat key file removed, unless nothing is left enabled.
pub fn plan_clear_chat(loaded: LlmConfig) -> (r: SavePlan)
    ensures
        loaded.embedding.provider == Provider::Off ==> r == SavePlan::ClearAll,
        loaded.embedding.provider != Provider::Off ==> (r matches SavePlan::Write(c, a)
            && c.provider == Provider::Off && c.base_url@.len() == 0 && c.model@.len() == 0
            && c.embedding == loaded.embedding && c.embedding_model == loaded.embedding_model
            && a == KeyFileAction::Remove),
{
    if loaded.embedding.provider == Provider::Off {
        return SavePlan::ClearAll;
    }
    let cfg = LlmConfig {
        provider: Provider::Off,
        base_url: String::new(),
        model: String::new(),
        embedding: loaded.embedding,
        embedding_model: loaded.embedding_model,
    };
    SavePlan::Write(cfg, KeyFileAction::Remove)
}

/// Turning the embedding model off: the chat settings are kept and the
/// embedding key file removed, unless nothing is left enabled.
pub fn plan_clear_embedding(loaded: LlmConfig) -> (r: SavePlan)
    ensures
        loaded.provider == Provider::Off ==> r == SavePlan::ClearAll,
        loaded.provider != Provider::Off ==> (r matches SavePlan::Write(c, a) && c.provider
            == loaded.provider && c.base_url == loaded.base_url && c.model == loaded.model
            && c.embedding.provider == Provider::Off && c.embedding.base_url@.len() == 0
            && c.embedding.model@.len() == 0 && c.embedding_model == loaded.embedding_model
            && a == KeyFileAction::Remove),
{
    if loaded.provider == Provider::Off {
        return SavePlan::ClearAll;
    }
    let cfg = LlmConfig {
        provider: loaded.provider,
        base_url: loaded.base_url,
        model: loaded.model,
        embedding: EmbeddingConfig::default(),
        embedding_model: loaded.embedding_model,
    };
    SavePlan::Write(cfg, KeyFileAction::Remove)
}

/// A saved secret as read from its file: trimmed, and missing when empty.
pub fn secret_from_file(content: &str) -> (r: Option<String>)
    ensures
        match r {
            Some(k) => trim(content@).len() > 0 && k@ == trim(content@),
            None => trim(content@).len() == 0,
        },
{
    let t = trimmed(content);
    if t.len() == 0 {
        None
    } else {
        Some(string_of(&t))
    }
}

// ---------- messages ----------

pub open spec fn mentions(d: Seq<char>, p: &str) -> bool {
    contains(d, p@)
}

/// The user-facing text for a failed HTTP call, from the action's name and
/// the error's description: time-outs and dropped connections get advice,
/// DNS and certificate failures are named, anything else is quoted.
pub open spec fn failure_text(action: Seq<char>, d: Seq<char>) -> Seq<char> {
    if mentions(d, "timed out") || mentions(d, "timeout") {
        action
            + "超时。测试连接只打 /models，生成线索要等模型写完整张图，请再试一次；若反复超时，换更快的模型或检查网络。"@
    } else if mentions(d, "reset by peer") || mentions(d, "os error 54") || mentions(d, "connection error") {
        action
            + "时连接被对端断开。多半是网关/CDN 掐了 HTTP 连接，不是模型名错。请再试一次；若反复出现，换直连供应商或检查代理。"@
    } else if mentions(d, "dns") || mentions(d, "failed to lookup") {
        action + "失败：解析不到主机。"@ + d
    } else if mentions(d, "certificate") || mentions(d, "tls") || mentions(d, "SSL") {
        action + "失败：证书校验没通过。"@ + d
    } else {
        action + "失败。"@ + d
    }
}

pub fn describe_failure(action: &str, detail: &str) -> (r: String)
    ensures
        r@ == failure_text(action@, detail@),
{
    let d = chars_of(detail);
    let mut out = chars_of(action);
    if crate::text::contains_str(&d, "timed out") || crate::text::contains_str(&d, "timeout") {
        push_str(
            &mut out,
            "超时。测试连接只打 /models，生成线索要等模型写完整张图，请再试一次；若反复超时，换更快的模型或检查网络。",
        );
    } else if crate::text::contains_str(&d, "reset by peer") || crate::text::contains_str(
        &d,
        "os error 54",
    ) || crate::text::contains_str(&d, "connection error") {
        push_str(
            &mut out,
            "时连接被对端断开。多半是网关/CDN 掐了 HTTP 连接，不是模型名错。请再试一次；若反复出现，换直连供应商或检查代理。",
        );
    } else if crate::text::contains_str(&d, "dns") || crate::text::contains_str(&d, "failed to lookup") {
        push_str(&mut out, "失败：解析不到主机。");
        push_chars(&mut out, &d);
    } else if crate::text::contains_str(&d, "certificate") || crate::text::contains_str(&d, "tls")
        || crate::text::contains_str(&d, "SSL") {
        push_str(&mut out, "失败：证书校验没通过。");
        push_chars(&mut out, &d);
    } else {
        push_str(&mut out, "失败。");
        push_chars(&mut out, &d);
    }
    string_of(&out)
}

pub open spec fn listed(names: Seq<String>, wanted: Seq<char>) -> bool {
    exists|i: int| 0 <= i < names.len() && (#[trigger] names[i])@ == wanted
}

/// The result line of a connection test: whether the provider listed any
/// models and whether the configured one is among them.
pub fn connection_report(names: &Vec<String>, wanted: &str) -> (r: String)
    ensures
        names@.len() == 0 ==> r@ == "已接通 "@ + wanted@ + "（未返回模型列表）"@,
        names@.len() > 0 && listed(names@, wanted@) ==> r@ == "连接成功：已找到模型 "@ + wanted@,
        names@.len() > 0 && !listed(names@, wanted@) ==> r@ == "已接通，但列表里没有「"@ + wanted@
            + "」。可用 "@ + crate::text::dec(names@.len()) + " 个模型，请核对模型名。"@,
{
    let w = chars_of(wanted);
    if names.len() == 0 {
        let mut out = chars_of("已接通 ");
        push_chars(&mut out, &w);
        push_str(&mut out, "（未返回模型列表）");
        return string_of(&out);
    }
    let mut i: usize = 0;
    while i < names.len()
        invariant
            i <= names@.len(),
            w@ == wanted@,
            forall|k: int| 0 <= k < i ==> (#[trigger] names@[k])@ != wanted@,
        decreases names@.len() - i,
    {
        let n = chars_of(names[i].as_str());
        if crate::text::same_text(&n, &w) {
            let mut out = chars_of("连接成功：已找到模型 ");
            push_chars(&mut out, &w);
            return string_of(&out);
        }
        i = i + 1;
    }
    let mut out = chars_of("已接通，但列表里没有「");
    push_chars(&mut out, &w);
    push_str(&mut out, "」。可用 ");
    crate::text::push_dec_usize(&mut out, names.len());
    push_str(&mut out, " 个模型，请核对模型名。");
    string_of(&out)
}

/// Where a connection test goes and with which key: refused when no
/// provider is chosen; otherwise the checked draft's `/models` address and
/// its key, else the stored key, else none.
pub fn probe_target(n: &Normalized, existing_key: Option<String>) -> (r: Result<(String, String), String>)
    ensures
        n.config.provider == Provider::Off ==> (r matches Err(m) && m@ == "请先选择供应商"@),
        n.config.provider != Provider::Off ==> (r matches Ok((url, key)) && url@ == trim_end_char(
            n.config.base_url@,
            '/',
        ) + "/models"@ && key@ == first_key(key_view(n.key), key_view(existing_key))),
{
    if n.config.provider == Provider::Off {
        return Err(owned("请先选择供应商"));
    }
    let key = match &n.key {
        Some(k) => k.clone(),
        None => match existing_key {
            Some(k) => k,
            None => String::new(),
        },
    };
    Ok((models_url(n.config.base_url.as_str()), key))
}

/// What the provider's answer to a connection test means: 401 and 403
/// refuse the key; any other status outside 200..=299 is an error quoting
/// the status and the body's first 120 characters.
pub fn probe_status_problem(code: u16, status: &str, body: &str) -> (r: Option<String>)
    ensures
        (code == 401 || code == 403) ==> (r matches Some(m) && m@ == "API Key 无效或没有权限"@),
        !(code == 401 || code == 403) && !(200 <= code <= 299) ==> (r matches Some(m) && m@
            == "供应商返回 "@ + status@ + ": "@ + crate::text::prefix(body@, 120)),
        !(code == 401 || code == 403) && 200 <= code <= 299 ==> r is None,
{
    if code == 401 || code == 403 {
        return Some(owned("API Key 无效或没有权限"));
    }
    if !(200 <= code && code <= 299) {
        let mut m = chars_of("供应商返回 ");
        push_str(&mut m, status);
        push_str(&mut m, ": ");
        push_chars(&mut m, &crate::text::prefix_chars(&chars_of(body), 120));
        return Some(string_of(&m));
    }
    None
}

// ---------- laws ----------

/// Every endpoint a checked draft is saved with passes `validate_endpoint`.
pub proof fn lemma_normalized_endpoint_is_valid(d: LlmDraft, existing: Option<Seq<char>>)
    requires
        normalize_draft_spec(d, existing) is Ok,
    ensures
        endpoint_problem(normalize_draft_spec(d, existing)->Ok_0.0) is None,
{
}

/// A trailing slash on the base address does not change the joined URL.
pub proof fn lemma_join_ignores_trailing_slash(base: Seq<char>)
    ensures
        trim_end_char(base.push('/'), '/') == trim_end_char(base, '/'),
{
    assert(base.push('/').drop_last() =~= base);
}

/// Plain `http://` is only ever accepted for this machine.
pub proof fn lemma_plain_http_only_loopback(url: Seq<char>)
    requires
        endpoint_problem(url) is None,
        !starts_with(lower(url), "https://"@),
    ensures
        is_loopback_spec(url),
{
}

// ---------- saved keys ----------

/// The settings file in the data folder.
pub const CONFIG_FILE: &'static str = "llm.json";

/// The chat key file in the data folder.
pub const KEY_FILE: &'static str = "llm.key";

/// The embedding key file in the data folder.
pub const EMBEDDING_KEY_FILE: &'static str = "llm.embedding.key";

/// A key read from a file that may not exist (`file` is its content when
/// it does): the trimmed content, or `missing` when the file is absent or
/// blank.
pub open spec fn saved_key(file: Option<String>, missing: Seq<char>) -> (bool, Seq<char>) {
    match file {
        Some(s) => if trim(s@).len() > 0 {
            (true, trim(s@))
        } else {
            (false, missing)
        },
        None => (false, missing),
    }
}

fn read_secret(file: Option<String>, missing: &str) -> (r: LlmResult<String>)
    ensures
        saved_key(file, missing@).0 ==> (r matches Ok(k) && k@ == saved_key(file, missing@).1),
        !saved_key(file, missing@).0 ==> invalid_text(r, missing@),
{
    match file {
        Some(s) => match secret_from_file(s.as_str()) {
            Some(k) => Ok(k),
            None => Err(LlmError::Invalid(owned(missing))),
        },
        None => Err(LlmError::Invalid(owned(missing))),
    }
}

pub open spec fn invalid_text<T>(r: LlmResult<T>, m: Seq<char>) -> bool {
    r matches Err(LlmError::Invalid(s)) && s@ == m
}

/// The saved chat key, given the key file's content when it exists.
pub fn get_key(file: Option<String>) -> (r: LlmResult<String>)
    ensures
        saved_key(file, "未保存语言模型 API Key"@).0 ==> (r matches Ok(k) && k@ == saved_key(file, "未保存语言模型 API Key"@).1),
        !saved_key(file, "未保存语言模型 API Key"@).0 ==> invalid_text(r, "未保存语言模型 API Key"@),
{
    read_secret(file, "未保存语言模型 API Key")
}

/// The saved embedding key, given the key file's content when it exists.
pub fn get_embedding_key(file: Option<String>) -> (r: LlmResult<String>)
    ensures
        saved_key(file, "未保存向量模型 API Key"@).0 ==> (r matches Ok(k) && k@ == saved_key(file, "未保存向量模型 API Key"@).1),
        !saved_key(file, "未保存向量模型 API Key"@).0 ==> invalid_text(r, "未保存向量模型 API Key"@),
{
    read_secret(file, "未保存向量模型 API Key")
}

/// Whether a chat key is saved.
pub fn has_key(file: Option<String>) -> (r: bool)
    ensures
        r == saved_key(file, Seq::empty()).0,
{
    match file {
        Some(s) => secret_from_file(s.as_str()).is_some(),
        None => false,
    }
}

/// The settings page's view, given the saved configuration and the key
/// files' contents when they exist.
pub fn load_settings(config: &LlmConfig, key_file: Option<String>, embedding_key_file: Option<String>) -> (r: LlmSettings)
    ensures
        r.provider == config.provider,
        r.base_url == config.base_url,
        r.model == config.model,
        r.has_key == saved_key(key_file, Seq::empty()).0,
        r.embedding_provider == config.embedding.provider,
        r.embedding_base_url == config.embedding.base_url,
        r.embedding_model == config.embedding.model,
        r.has_embedding_key == (saved_key(embedding_key_file, Seq::empty()).0 || (same_endpoint_spec(
            *config,
            config.embedding,
        ) && saved_key(key_file, Seq::empty()).0)),
{
    let k = has_key(key_file);
    let e = has_key(embedding_key_file);
    to_settings(config, k, e)
}

// ---------- model calls ----------

/// A failed send worth retrying: the connection was reset or timed out.
pub open spec fn transient_spec(detail: Seq<char>) -> bool {
    mentions(detail, "reset by peer") || mentions(detail, "os error 54") || mentions(detail, "timed out")
        || mentions(detail, "connection error")
}

pub fn is_transient(detail: &str) -> (r: bool)
    ensures
        r == transient_spec(detail@),
{
    let d = chars_of(detail);
    crate::text::contains_str(&d, "reset by peer") || crate::text::contains_str(&d, "os error 54")
        || crate::text::contains_str(&d, "timed out")
        || crate::text::contains_str(&d, "connection error")
}

/// Whether a failed send is tried again: only transient failures, at most
/// three attempts in all (`attempt` counts from 0).
pub fn should_retry(detail: &str, attempt: u32) -> (r: bool)
    ensures
        r == (transient_spec(detail@) && attempt < 2),
{
    is_transient(detail) && attempt < 2
}

/// The pause before another attempt, growing by 400 ms each time.
pub fn retry_delay_ms(attempt: u32) -> (r: u64)
    requires
        attempt < 3,
    ensures
        r == 400 * (attempt as u64 + 1),
{
    400 * (attempt as u64 + 1)
}

/// What a model endpoint's status means: 401 and 403 refuse the key;
/// anything outside 200..=299 is an error quoting the status and the
/// body's first 160 characters. `service` names the endpoint.
pub open spec fn status_problem_spec(code: u16, status: Seq<char>, body: Seq<char>, service: Seq<char>) -> Option<Seq<char>> {
    if code == 401 || code == 403 {
        Some(service + " API Key 无效或没有权限"@)
    } else if !(200 <= code <= 299) {
        Some(service + "返回 "@ + status + ": "@ + crate::text::prefix(body, 160))
    } else {
        None
    }
}

pub fn status_problem(code: u16, status: &str, body: &str, service: &str) -> (r: Option<String>)
    ensures
        match status_problem_spec(code, status@, body@, service@) {
            Some(m) => r matches Some(s) && s@ == m,
            None => r is None,
        },
{
    if code == 401 || code == 403 {
        let mut m = chars_of(service);
        push_str(&mut m, " API Key 无效或没有权限");
        return Some(string_of(&m));
    }
    if !(200 <= code && code <= 299) {
        let mut m = chars_of(service);
        push_str(&mut m, "返回 ");
        push_str(&mut m, status);
        push_str(&mut m, ": ");
        push_chars(&mut m, &crate::text::prefix_chars(&chars_of(body), 160));
        return Some(string_of(&m));
    }
    None
}

// ---------- read-back laws ----------

/// Saving and loading again gives back what was saved: a configuration
/// read from its file (`after_load`) has no legacy embedding field, every
/// save plan carries that field over from the configuration it loaded, and
/// so the configuration the plan writes reads back unchanged.
pub proof fn lemma_saved_config_reads_back(raw: LlmConfig, loaded: LlmConfig, written: LlmConfig, back: LlmConfig)
    requires
        after_load_spec(raw, loaded),
        written.embedding_model == loaded.embedding_model,
        after_load_spec(written, back),
    ensures
        back.provider == written.provider,
        back.base_url == written.base_url,
        back.model == written.model,
        back.embedding == written.embedding,
        back.embedding_model@ == written.embedding_model@,
{
    assert(trim(written.embedding_model@).len() == 0);
}

/// A key submitted with a saved draft reads back as submitted, trimmed: the
/// key file holds the trimmed key (`incoming_key`), and reading that file
/// gives the same key.
pub proof fn lemma_submitted_key_reads_back(submitted: Seq<char>, file: String, missing: Seq<char>)
    requires
        incoming_key(submitted) is Some,
        file@ == incoming_key(submitted)->0,
    ensures
        saved_key(Some(file), missing) == (true, trim(submitted)),
{
    lemma_trim_idempotent(submitted);
}

} // verus!
