use mudflat_knowledge::db::{
    batch_size_from, check_batch_size, delete_removes_row, effective_created_at, filter_conditions,
    ids_removed_remotely, migrations_after, order_by_ids, schema_plan, search_argument, CardFilter,
    CardRow, SchemaPlan, SqlParam,
};
use mudflat_knowledge::keystore::{get_key, stored_text, KeyError};
use mudflat_knowledge::llm::{self, EmbeddingConfig, LlmConfig, Provider};

const NOW: i64 = 1_700_000_000;

fn card(id: i64) -> CardRow {
    CardRow {
        id,
        kind: "highlight".into(),
        book_id: Some(1),
        remote_id: Some(format!("r{id}")),
        chapter_uid: None,
        chapter_title: None,
        text: format!("text {id}"),
        abstract_text: None,
        range_str: None,
        color_style: 0,
        note: String::new(),
        starred: false,
        excluded_from_review: false,
        created_at: NOW,
        updated_at: NOW,
        deleted: false,
        book_title: "b".into(),
        tags: vec![],
    }
}

#[test]
fn schema_plans_by_version() {
    assert_eq!(schema_plan(0, false).unwrap(), SchemaPlan::Fresh);
    assert_eq!(schema_plan(0, true).unwrap(), SchemaPlan::UpgradeFrom(0));
    assert_eq!(schema_plan(1, true).unwrap(), SchemaPlan::UpgradeFrom(1));
    assert_eq!(schema_plan(2, true).unwrap(), SchemaPlan::Current);
    assert_eq!(
        schema_plan(99, true).unwrap_err(),
        "数据库版本 v99 高于当前应用支持的 v2，请先升级应用；原库未被改动"
    );
    assert!(schema_plan(3, false).is_err());
}

#[test]
fn migrations_run_once_in_order() {
    assert_eq!(migrations_after(0), vec![1, 2]);
    assert_eq!(migrations_after(1), vec![2]);
    assert!(migrations_after(2).is_empty());
    assert_eq!(migrations_after(-5), vec![1, 2]);
}

#[test]
fn created_at_keeps_past_and_clamps_future() {
    assert_eq!(effective_created_at(1_600_000_000, NOW), 1_600_000_000);
    assert_eq!(effective_created_at(NOW + 3600, NOW), NOW);
    assert_eq!(effective_created_at(0, NOW), NOW);
    assert_eq!(effective_created_at(-3, NOW), NOW);
}

#[test]
fn search_argument_quotes_long_queries() {
    assert_eq!(search_argument("  ab "), (false, "ab".to_string()));
    assert_eq!(search_argument("认知负荷"), (true, "\"认知负荷\"".to_string()));
    assert_eq!(search_argument(" a\"b-c OR "), (true, "\"a\"\"b-c OR\"".to_string()));
}

#[test]
fn search_phrase_reads_back_as_typed() {
    let typed = "he said \"no\" - OR";
    let (fts, arg) = search_argument(typed);
    assert!(fts);
    let inner = &arg[1..arg.len() - 1];
    assert_eq!(inner.replace("\"\"", "\""), typed);
}

#[test]
fn cards_come_back_in_requested_order() {
    let rows = vec![card(1), card(2), card(3)];
    let out = order_by_ids(rows, &[3, 1, 2]);
    assert_eq!(out.iter().map(|c| c.id).collect::<Vec<_>>(), vec![3, 1, 2]);
    let out = order_by_ids(vec![card(5), card(4)], &[4]);
    assert_eq!(out.iter().map(|c| c.id).collect::<Vec<_>>(), vec![4, 5]);
}

#[test]
fn cards_gone_remotely_are_the_absent_ones() {
    let rows = vec![(1, "a".to_string()), (2, "b".to_string()), (3, "c".to_string())];
    let present = vec!["b".to_string()];
    assert_eq!(ids_removed_remotely(&rows, &present), vec![1, 3]);
    assert!(ids_removed_remotely(&rows, &vec!["a".into(), "b".into(), "c".into()]).is_empty());
}

#[test]
fn review_batches_and_deletion() {
    assert!(check_batch_size(10).is_ok());
    assert!(check_batch_size(30).is_ok());
    assert_eq!(check_batch_size(25).unwrap_err(), "每批张数仅支持 10 / 20 / 30");
    assert_eq!(batch_size_from(Some(10)), 10);
    assert_eq!(batch_size_from(Some(15)), 20);
    assert_eq!(batch_size_from(None), 20);
    assert!(delete_removes_row("self"));
    assert!(!delete_removes_row("highlight"));
    assert!(!delete_removes_row("thought"));
}

#[test]
fn filter_conditions_number_their_placeholders() {
    let f = CardFilter {
        book_id: Some(7),
        tag_ids: vec![4, 5],
        starred_only: true,
        kinds: vec!["highlight".into(), "thought".into()],
    };
    let (conds, params) = filter_conditions(&f, 1);
    assert_eq!(
        conds,
        vec![
            "c.book_id=?2".to_string(),
            "c.starred=1".to_string(),
            "c.kind IN (?3,?4)".to_string(),
            "c.id IN (SELECT card_id FROM card_tags WHERE tag_id IN (?5,?6))".to_string(),
        ]
    );
    assert_eq!(params.len(), 5);
    assert!(matches!(params[0], SqlParam::Int(7)));
    assert!(matches!(&params[1], SqlParam::Text(s) if s == "highlight"));
    assert!(matches!(params[4], SqlParam::Int(5)));
    let (none, no_params) = filter_conditions(&CardFilter::default(), 0);
    assert!(none.is_empty() && no_params.is_empty());
}

#[test]
fn saved_keys_read_back_trimmed() {
    let written = stored_text("  wrk-abc123  ");
    assert_eq!(get_key(Some(written)).unwrap(), "wrk-abc123");
    assert!(matches!(get_key(Some(stored_text("   "))), Err(KeyError::NotFound)));
    let model_key = llm::get_key(Some(" sk-secret ".trim().to_string())).unwrap();
    assert_eq!(model_key, "sk-secret");
}

#[test]
fn written_config_reads_back_unchanged() {
    let written = LlmConfig {
        provider: Provider::Openai,
        base_url: "https://api.openai.com/v1".into(),
        model: "gpt-4o-mini".into(),
        embedding: EmbeddingConfig { provider: Provider::Off, base_url: String::new(), model: String::new() },
        embedding_model: String::new(),
    };
    let read = written.clone().after_load();
    assert_eq!(read, written);
    let legacy = LlmConfig { embedding_model: " text-embedding-3-small ".into(), ..written.clone() };
    let migrated = legacy.after_load();
    assert_eq!(migrated.embedding.provider, Provider::Openai);
    assert_eq!(migrated.embedding.model, "text-embedding-3-small");
    assert_eq!(migrated.clone().after_load(), migrated);
}

#[test]
fn upsert_keeps_remote_highlight_time_and_self_heals() {
    let highlight_time = 1_600_000_000i64;
    assert_eq!(
        effective_created_at(highlight_time, 1_700_000_100),
        highlight_time,
        "created_at 修回真实划线时间，而非同步时间"
    );
    assert_eq!(effective_created_at(1_900_000_000, 1_700_000_200), 1_700_000_200, "未来时间戳钳到同步时刻");
}

#[test]
fn fts_query_special_chars_do_not_error() {
    for q in ["\"文本", "alpha- beta", "OR NOT", "普通句子", "a-b-c"] {
        let (fts, arg) = search_argument(q);
        if fts {
            assert!(arg.starts_with('"') && arg.ends_with('"'), "查询 {q:?} 应整句作短语");
            let inner = &arg[1..arg.len() - 1];
            assert_eq!(inner.replace("\"\"", "\""), q.trim(), "查询 {q:?} 的引号应被转义");
        } else {
            assert_eq!(arg, q.trim());
        }
    }
    assert_eq!(search_argument("普通句子"), (true, "\"普通句子\"".to_string()));
}

#[test]
fn plan_and_apply_schema_work_on_in_memory_conn() {
    // An empty connection: version 0 and no tables.
    assert_eq!(schema_plan(0, false).unwrap(), SchemaPlan::Fresh);
    // Applying runs every migration once and lands on the latest version.
    assert_eq!(migrations_after(0).last().copied(), Some(mudflat_knowledge::db::LATEST_VERSION));
    assert_eq!(schema_plan(mudflat_knowledge::db::LATEST_VERSION, true).unwrap(), SchemaPlan::Current);
    assert!(migrations_after(mudflat_knowledge::db::LATEST_VERSION).is_empty());
}
