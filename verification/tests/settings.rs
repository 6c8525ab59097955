use mudflat_knowledge::keystore::{get_key as gateway_key_from_file, has_key as gateway_has_key, stored_text, KeyError};
use mudflat_knowledge::llm::{get_embedding_key, get_key, has_key, is_transient, load_settings, retry_delay_ms, should_retry, status_problem, LlmConfig};
use mudflat_knowledge::settings::{check_external_url, gateway_key, key_load_error, review_settings, settings_from, setup_status, tag_names};
use mudflat_knowledge::text::{parse_i64, chars_of};

#[test]
fn key_files_are_trimmed() {
    assert_eq!(gateway_key_from_file(Some("  wrk-abc123  \n".into())).unwrap(), "wrk-abc123");
    assert!(matches!(gateway_key_from_file(Some("   ".into())), Err(KeyError::NotFound)));
    assert!(matches!(gateway_key_from_file(None), Err(KeyError::NotFound)));
    assert!(gateway_has_key(Some("k".into())));
    assert!(!gateway_has_key(None));
    assert_eq!(stored_text("  wrk-abc  "), "wrk-abc");
    assert_eq!(KeyError::NotFound.message(), "未保存 API Key");
    assert_eq!(KeyError::Io("denied".into()).message(), "读写 Key 文件失败: denied");
}

#[test]
fn llm_key_files() {
    assert_eq!(get_key(Some(" sk ".into())).unwrap(), "sk");
    assert_eq!(get_key(None).unwrap_err().message(), "未保存语言模型 API Key");
    assert_eq!(get_embedding_key(Some("\n".into())).unwrap_err().message(), "未保存向量模型 API Key");
    assert!(has_key(Some("x".into())));
    assert!(!has_key(Some(" ".into())));
    let s = load_settings(&LlmConfig::default(), Some("k".into()), None);
    assert!(s.has_key);
    assert!(!s.has_embedding_key);
}

#[test]
fn transport_decisions() {
    assert!(is_transient("connection reset by peer"));
    assert!(!is_transient("404"));
    assert!(should_retry("operation timed out", 1));
    assert!(!should_retry("operation timed out", 2));
    assert_eq!(retry_delay_ms(1), 800);
    assert_eq!(status_problem(401, "401 Unauthorized", "", "语言模型").unwrap(), "语言模型 API Key 无效或没有权限");
    assert_eq!(status_problem(500, "500 Internal Server Error", "boom", "向量接口").unwrap(), "向量接口返回 500 Internal Server Error: boom");
    assert!(status_problem(200, "200 OK", "", "语言模型").is_none());
}

#[test]
fn settings_values() {
    assert_eq!(settings_from(Some("1700000000".into()), None).last_full_sync, Some(1700000000));
    assert_eq!(settings_from(Some("x".into()), None).last_full_sync, None);
    assert_eq!(review_settings(Some("30".into())).batch_size, 30);
    assert_eq!(review_settings(Some("25".into())).batch_size, 20);
    assert_eq!(review_settings(None).batch_size, 20);
    let s = setup_status(true, 0);
    assert!(s.has_key && !s.has_books);
}

#[test]
fn integers_parse_like_std() {
    for t in ["0", "-0", "+7", "-9223372036854775808", "9223372036854775807", "", "-", "+", "-+1", "9223372036854775808", " 1", "1a"] {
        assert_eq!(parse_i64(&chars_of(t)), t.parse::<i64>().ok(), "{t}");
    }
}

#[test]
fn user_input_checks() {
    assert!(check_external_url("https://weread.qq.com").is_ok());
    assert_eq!(check_external_url("file:///etc").unwrap_err(), "仅支持打开 http/https 链接");
    assert_eq!(check_external_url("https://a b").unwrap_err(), "URL 含非法字符");
    assert_eq!(gateway_key("  k  ").unwrap(), "k");
    assert_eq!(gateway_key("  ").unwrap_err(), "API Key 不能为空");
    assert_eq!(key_load_error(true, ""), "尚未保存 API Key，请先到设置页填写并保存");
    assert_eq!(key_load_error(false, "denied"), "读取 API Key 失败：denied（可到设置页重新保存）");
    assert_eq!(tag_names(&vec![" a ".into(), "  ".into(), "b".into()]), vec!["a".to_string(), "b".to_string()]);
}
