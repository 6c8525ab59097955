use mudflat_knowledge::llm::{
    chat_url, connection_report, describe_failure, embedding_key_for, embeddings_url,
    load_embedding_runtime, load_runtime, models_url, normalize_draft, normalize_embedding_draft,
    plan_chat_save, plan_clear_chat, probe_status_problem, probe_target, secret_from_file, to_settings,
    validate_endpoint,
    EmbeddingConfig, EmbeddingDraft, KeyFileAction, LlmConfig, LlmDraft, Provider, SavePlan,
};

fn draft(provider: Provider, base: &str, model: &str, key: &str) -> LlmDraft {
    LlmDraft { provider, base_url: base.into(), model: model.into(), key: key.into() }
}

fn embed_draft(provider: Provider, base: &str, model: &str, key: &str) -> EmbeddingDraft {
    EmbeddingDraft { provider, base_url: base.into(), model: model.into(), key: key.into() }
}

#[test]
fn openai_fills_default_endpoint_and_requires_key() {
    let n = normalize_draft(&draft(Provider::Openai, "", "", "sk-abc"), None).unwrap();
    assert_eq!(n.config.base_url, "https://api.openai.com/v1");
    assert_eq!(n.config.model, "gpt-4o-mini");
    assert_eq!(n.config.embedding.provider, Provider::Off);
    assert_eq!(n.key.as_deref(), Some("sk-abc"));

    let err = normalize_draft(&draft(Provider::Openai, "", "", ""), None).unwrap_err();
    assert!(err.message().contains("API Key"));
}

#[test]
fn openai_keeps_existing_key_when_input_blank() {
    let n = normalize_draft(&draft(Provider::Openai, "", "gpt-4o-mini", ""), Some("sk-old")).unwrap();
    assert!(n.key.is_none());
    assert_eq!(n.config.model, "gpt-4o-mini");
}

#[test]
fn ollama_allows_missing_key_on_loopback() {
    let n = normalize_draft(&draft(Provider::Ollama, "", "", ""), None).unwrap();
    assert_eq!(n.config.base_url, "http://127.0.0.1:11434/v1");
    assert_eq!(n.config.model, "qwen2.5");
}

#[test]
fn custom_https_requires_key_and_model() {
    let err = normalize_draft(
        &draft(Provider::Custom, "https://api.deepseek.com/v1", "deepseek-chat", ""),
        None,
    )
    .unwrap_err();
    assert!(err.message().contains("API Key"));

    let n = normalize_draft(
        &draft(Provider::Custom, "https://api.deepseek.com/v1/", "deepseek-chat", "sk-1"),
        None,
    )
    .unwrap();
    assert_eq!(n.config.base_url, "https://api.deepseek.com/v1");
}

#[test]
fn rejects_plain_http_on_public_hosts() {
    let err = validate_endpoint("http://api.openai.com/v1").unwrap_err();
    assert!(err.message().contains("https"));
}

#[test]
fn allows_http_on_localhost_and_loopback() {
    validate_endpoint("http://127.0.0.1:11434/v1").unwrap();
    validate_endpoint("http://localhost:1234/v1").unwrap();
    validate_endpoint("https://api.openai.com/v1").unwrap();
}

#[test]
fn rejects_non_http_schemes_and_control_chars() {
    assert!(validate_endpoint("javascript:alert(1)").is_err());
    assert!(validate_endpoint("https://api.openai.com/v1\n").is_err());
    assert!(validate_endpoint("").is_err());
}

#[test]
fn models_url_joins_without_double_slash() {
    assert_eq!(models_url("https://api.openai.com/v1/"), "https://api.openai.com/v1/models");
    assert_eq!(models_url("http://127.0.0.1:11434/v1"), "http://127.0.0.1:11434/v1/models");
    assert_eq!(
        chat_url("https://api.deepseek.com/v1/"),
        "https://api.deepseek.com/v1/chat/completions"
    );
    assert_eq!(embeddings_url("https://api.openai.com/v1/"), "https://api.openai.com/v1/embeddings");
}

#[test]
fn xai_fills_chat_default_and_leaves_embedding_blank() {
    let n = normalize_draft(&draft(Provider::Xai, "", "", "xai-key"), None).unwrap();
    assert_eq!(n.config.base_url, "https://api.x.ai/v1");
    assert_eq!(n.config.model, "grok-4.5");
    assert_eq!(n.config.embedding.provider, Provider::Off);
}

#[test]
fn embedding_rejects_xai() {
    let err = normalize_embedding_draft(
        &embed_draft(Provider::Xai, "", "", "xai-key"),
        None,
        &LlmConfig::default(),
        None,
    )
    .unwrap_err();
    assert!(err.message().contains("不提供向量模型"));
}

// ---- further cases ----

#[test]
fn loopback_forms_are_recognised() {
    validate_endpoint("http://user@LOCALHOST:8080/x").unwrap();
    validate_endpoint("http://[::1]:11434/v1").unwrap();
    validate_endpoint("HTTP://0.0.0.0/v1").unwrap();
    let err = validate_endpoint("http://localhost.evil.com/v1").unwrap_err();
    assert_eq!(err.message(), "非本机地址必须使用 https。本机可用 http://127.0.0.1 或 http://localhost");
    assert_eq!(validate_endpoint("https://").unwrap_err().message(), "接口地址不完整");
    assert_eq!(validate_endpoint("a b").unwrap_err().message(), "接口地址含非法字符");
    assert_eq!(
        validate_endpoint("ftp://x").unwrap_err().message(),
        "接口地址必须以 https:// 开头（本机可用 http://）"
    );
}

#[test]
fn model_and_endpoint_errors() {
    let e = normalize_draft(&draft(Provider::Custom, "", "m", "k"), None).unwrap_err();
    assert_eq!(e.message(), "请填写接口地址，例如 https://api.deepseek.com/v1");
    let e = normalize_draft(&draft(Provider::Custom, "https://x.y", "", "k"), None).unwrap_err();
    assert_eq!(e.message(), "请填写模型名");
    let e = normalize_draft(&draft(Provider::Openai, "", "gpt 4", "k"), None).unwrap_err();
    assert_eq!(e.message(), "模型名不能含空白或控制字符");
    let e = normalize_draft(&draft(Provider::Openai, "", "", "sk\u{7}x"), None).unwrap_err();
    assert_eq!(e.message(), "API Key 含非法字符");
    let n = normalize_draft(&draft(Provider::Off, "x", "y", "z"), None).unwrap();
    assert_eq!(n.config, LlmConfig::default());
    assert_eq!(n.key.as_deref(), Some(""));
}

#[test]
fn embedding_reuses_chat_key_only_on_same_endpoint() {
    let chat = normalize_draft(&draft(Provider::Openai, "", "", "sk-chat"), None).unwrap().config;
    let n = normalize_embedding_draft(&embed_draft(Provider::Openai, "", "", ""), None, &chat, Some("sk-chat"))
        .unwrap();
    assert_eq!(n.config.model, "text-embedding-3-small");
    assert!(n.key.is_none());
    let err = normalize_embedding_draft(
        &embed_draft(Provider::Custom, "https://other.example/v1", "e", ""),
        None,
        &chat,
        Some("sk-chat"),
    )
    .unwrap_err();
    assert!(err.message().contains("API Key"));
}

#[test]
fn runtime_checks_saved_settings() {
    let err = load_runtime(LlmConfig::default(), None).unwrap_err();
    assert!(err.message().contains("还没有启用"));
    let cfg = normalize_draft(&draft(Provider::Openai, "", "", "sk-abc"), None).unwrap().config;
    let (c, k) = load_runtime(cfg.clone(), Some("sk-abc".into())).unwrap();
    assert_eq!(c.provider, Provider::Openai);
    assert_eq!(k, "sk-abc");
    assert!(load_runtime(cfg, None).is_err());
}

#[test]
fn embedding_runtime_uses_chat_key_on_shared_endpoint() {
    let mut cfg = normalize_draft(&draft(Provider::Openai, "", "", "sk"), None).unwrap().config;
    cfg.embedding = EmbeddingConfig {
        provider: Provider::Openai,
        base_url: "https://api.openai.com/v1".into(),
        model: "text-embedding-3-small".into(),
    };
    assert_eq!(embedding_key_for(&cfg, None, Some("sk-shared".into())), "sk-shared");
    let (emb, key) = load_embedding_runtime(cfg.clone(), None, Some("sk-shared".into())).unwrap();
    assert_eq!(emb.model, "text-embedding-3-small");
    assert_eq!(key, "sk-shared");
    let (_, key) = load_embedding_runtime(cfg.clone(), Some("sk-embed".into()), Some("sk-shared".into())).unwrap();
    assert_eq!(key, "sk-embed");
    let s = to_settings(&cfg, true, false);
    assert!(s.has_embedding_key);
    let off = load_embedding_runtime(LlmConfig::default(), None, None).unwrap_err();
    assert!(off.message().contains("还没有启用向量模型"));
}

#[test]
fn save_plans_follow_the_off_rules() {
    let off = normalize_draft(&draft(Provider::Off, "", "", ""), None).unwrap();
    assert_eq!(plan_chat_save(LlmConfig::default(), off), SavePlan::ClearAll);
    let on = normalize_draft(&draft(Provider::Openai, "", "", " sk-new "), None).unwrap();
    match plan_chat_save(LlmConfig::default(), on) {
        SavePlan::Write(c, KeyFileAction::Write(k)) => {
            assert_eq!(c.provider, Provider::Openai);
            assert_eq!(k, "sk-new");
        }
        other => panic!("unexpected {other:?}"),
    }
    assert_eq!(plan_clear_chat(LlmConfig::default()), SavePlan::ClearAll);
}

#[test]
fn secrets_and_messages() {
    assert_eq!(secret_from_file("  wrk-abc123  ").as_deref(), Some("wrk-abc123"));
    assert!(secret_from_file(" \n ").is_none());
    assert_eq!(
        describe_failure("生成向量", "error sending request: dns error"),
        "生成向量失败：解析不到主机。error sending request: dns error"
    );
    assert!(describe_failure("测试", "operation timed out").starts_with("测试超时。"));
    assert_eq!(describe_failure("测试", "boom"), "测试失败。boom");
    let names = vec!["a".to_string(), "gpt-4o-mini".to_string()];
    assert_eq!(connection_report(&names, "gpt-4o-mini"), "连接成功：已找到模型 gpt-4o-mini");
    assert_eq!(
        connection_report(&names, "x"),
        "已接通，但列表里没有「x」。可用 2 个模型，请核对模型名。"
    );
    assert_eq!(connection_report(&vec![], "x"), "已接通 x（未返回模型列表）");
}

#[test]
fn connection_test_target_and_status() {
    let n = normalize_draft(&draft(Provider::Openai, "https://api.openai.com/v1/", "gpt-4o-mini", ""), Some("sk-old")).unwrap();
    let (url, key) = probe_target(&n, Some("sk-old".into())).unwrap();
    assert_eq!(url, "https://api.openai.com/v1/models");
    assert_eq!(key, "sk-old");
    let n = normalize_draft(&draft(Provider::Openai, "", "", " sk-new "), Some("sk-old")).unwrap();
    assert_eq!(probe_target(&n, Some("sk-old".into())).unwrap().1, "sk-new");
    let off = normalize_draft(&draft(Provider::Off, "", "", ""), None).unwrap();
    assert_eq!(probe_target(&off, None).unwrap_err(), "请先选择供应商");

    assert_eq!(probe_status_problem(403, "403 Forbidden", "").unwrap(), "API Key 无效或没有权限");
    let long = "x".repeat(200);
    assert_eq!(
        probe_status_problem(500, "500 Internal Server Error", &long).unwrap(),
        format!("供应商返回 500 Internal Server Error: {}", "x".repeat(120))
    );
    assert!(probe_status_problem(204, "204 No Content", "").is_none());
}
