use mudflat_knowledge::gateway::{
    classify_code_error, code_error, next_notebook_cursor, next_synckey, not_json_error, shape_error,
    status_error, truncate, BookCategory, BookInfo, BookmarkItem, ChapterInfo, GatewayError,
    NotebookBook, ReviewDetail,
};
use mudflat_knowledge::sync::{
    chapter_title_for, highlight_card, new_book, record_failed, record_synced, repair_needed,
    should_pull, start_summary, thought_card,
};

fn notebook(categories: Vec<&str>) -> NotebookBook {
    NotebookBook {
        book: BookInfo {
            book_id: "3300067488".into(),
            title: "置身事内".into(),
            author: "兰小欢".into(),
            cover: "https://x/y.jpg".into(),
            categories: categories.into_iter().map(|t| BookCategory { title: t.into() }).collect(),
        },
        note_count: 120,
        review_count: 5,
        sort: 1778312777,
        reading_progress: 64,
    }
}

#[test]
fn first_category_or_empty() {
    assert_eq!(notebook(vec!["经济理财-财经", "其他"]).first_category(), "经济理财-财经");
    assert_eq!(notebook(vec![]).first_category(), "");
}

#[test]
fn gateway_errors_read_as_messages() {
    assert!(GatewayError::Unauthorized.is_auth());
    assert!(!GatewayError::Network("x".into()).is_auth());
    assert_eq!(GatewayError::Unauthorized.message(), "API Key 无效或已过期");
    assert_eq!(GatewayError::Http { status: 500, body: "oops".into() }.message(), "网关错误 500: oops");
    assert_eq!(GatewayError::Network("timeout".into()).message(), "网络错误: timeout");
}

#[test]
fn statuses_are_classified() {
    assert!(matches!(status_error(401, ""), Some(GatewayError::Unauthorized)));
    assert!(matches!(status_error(403, ""), Some(GatewayError::Unauthorized)));
    assert!(status_error(200, "").is_none());
    let long = "x".repeat(300);
    match status_error(502, &long) {
        Some(GatewayError::Http { status, body }) => {
            assert_eq!(status, 502);
            assert_eq!(body.len(), 200);
        }
        _ => panic!("502 is an error"),
    }
    match not_json_error(200, "eof", "<html>") {
        GatewayError::Http { body, .. } => assert_eq!(body, "非 JSON 响应: eof; body=<html>"),
        _ => panic!(),
    }
    match shape_error("notebooks 解析失败: ", "missing field") {
        GatewayError::Http { status, body } => {
            assert_eq!(status, 200);
            assert_eq!(body, "notebooks 解析失败: missing field");
        }
        _ => panic!(),
    }
    assert_eq!(truncate("一二三", 2), "一二");
}

#[test]
fn code_field_errors() {
    assert!(matches!(classify_code_error(401, ""), GatewayError::Unauthorized));
    assert!(matches!(classify_code_error(-1, "invalid token"), GatewayError::Unauthorized));
    match classify_code_error(-2, "busy") {
        GatewayError::Http { status, body } => assert_eq!((status, body.as_str()), (200, "busy")),
        _ => panic!(),
    }
    assert!(code_error(Some(0), "auth").is_none());
    assert!(code_error(None, "auth").is_none());
    assert!(code_error(Some(5), "x").is_some());
}

#[test]
fn paging_stops() {
    assert_eq!(next_notebook_cursor(true, Some(17)), Some(17));
    assert_eq!(next_notebook_cursor(true, None), None);
    assert_eq!(next_notebook_cursor(false, Some(17)), None);
    assert_eq!(next_synckey(true, 0, 42), Some(42));
    assert_eq!(next_synckey(true, 42, 42), None);
    assert_eq!(next_synckey(true, 0, 0), Some(0));
    assert_eq!(next_synckey(false, 1, 2), None);
}

#[test]
fn pull_decisions() {
    assert!(should_pull((None, None), 3, 1), "基线缺失必须拉取");
    assert!(should_pull((Some(3), None), 3, 1));
    assert!(!should_pull((Some(3), Some(1)), 3, 1), "计数一致时跳过");
    for (n, rv) in [(4, 1), (3, 2), (2, 0)] {
        assert!(should_pull((Some(3), Some(1)), n, rv));
    }
    assert!(repair_needed(&None));
    assert!(!repair_needed(&Some("1".into())));
}

#[test]
fn highlights_and_thoughts_become_rows() {
    let chapters = vec![
        ChapterInfo { chapter_uid: 11, chapter_idx: 2, title: "第二章".into() },
        ChapterInfo { chapter_uid: 11, chapter_idx: 2, title: "第二章 土地与融资".into() },
    ];
    assert_eq!(chapter_title_for(&chapters, 11), Some("第二章 土地与融资"));
    assert_eq!(chapter_title_for(&chapters, 12), None);
    let bm = BookmarkItem {
        bookmark_id: "bm-1".into(),
        book_id: "b".into(),
        chapter_uid: 11,
        mark_text: "政府直接参与了经济活动".into(),
        create_time: 0,
        range: "2959-3007".into(),
        color_style: 1,
    };
    let u = highlight_card(&bm, 7, &chapters);
    assert_eq!(u.kind, "highlight");
    assert_eq!(u.chapter_title, Some("第二章 土地与融资"));
    assert_eq!(u.created_at, 1);
    assert_eq!(u.range_str, Some("2959-3007"));
    let mut rv = ReviewDetail::default();
    assert!(thought_card(&rv, 7).is_none());
    rv.review_id = "rv-1".into();
    rv.content = "想法".into();
    rv.create_time = 1700100000;
    let t = thought_card(&rv, 7).unwrap();
    assert_eq!(t.kind, "thought");
    assert_eq!(t.chapter_uid, None);
    assert_eq!(t.chapter_title, None);
    assert_eq!(t.abstract_text, None);
    assert_eq!(t.created_at, 1700100000);
}

#[test]
fn summary_counts() {
    let nb = notebook(vec![]);
    let b = new_book(&nb);
    assert_eq!(b.weread_book_id, "3300067488");
    assert_eq!(b.note_count, 120);
    let mut s = start_summary(3);
    record_synced(&mut s, (2, 1, 3, 0));
    record_failed(&mut s, &nb, "断了".into());
    assert_eq!((s.books_total, s.books_synced, s.books_failed), (3, 1, 1));
    assert_eq!((s.highlights, s.thoughts, s.added, s.removed), (2, 1, 3, 0));
    assert_eq!(s.failures[0].title, "置身事内");
    assert_eq!(s.failures[0].error, "断了");
}

// The stored baseline of a book is the pair of counts of its last
// successful sync; `(None, None)` when it never synced.

#[test]
fn no_baseline_means_pull() {
    assert!(should_pull((None, None), 3, 1), "基线缺失（首同步/旧库升级）必须拉取");
}

#[test]
fn unchanged_baseline_skips_pull() {
    assert!(!should_pull((Some(3), Some(1)), 3, 1), "远端计数与基线一致时跳过");
}

#[test]
fn changed_remote_count_pulls() {
    for (n, rv) in [(4, 1), (3, 2), (2, 0)] {
        assert!(should_pull((Some(3), Some(1)), n, rv), "任一计数变化都要拉取 ({n},{rv})");
    }
}

#[test]
fn created_at_repair_clears_baselines_once() {
    let stored = (Some(3), Some(1));
    assert!(!should_pull(stored, 3, 1), "前置：基线一致时本应跳过");
    assert!(repair_needed(&None), "无修复标记时需要全量重拉");
    let cleared: (Option<i64>, Option<i64>) = (None, None);
    assert!(should_pull(cleared, 3, 1), "基线被清空后必须拉取");
    assert!(!repair_needed(&Some("1".into())), "修复只做一次");
    assert!(!should_pull(stored, 3, 1));
}

#[test]
fn baseline_survives_remote_count_overwrite() {
    // The displayed counts are overwritten with the remote ones; the pull
    // decision reads only the baseline.
    assert!(should_pull((Some(3), Some(1)), 9, 1), "远端新增后必须拉取，即使展示列已被覆盖");
}
