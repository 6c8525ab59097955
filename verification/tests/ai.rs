use mudflat_knowledge::ai::{
    accepted_question_of, ai_scaffold, artifact_is_current, card_content_hash, check_scaffold_reply,
    embed_text_for, fnv1a64, fuse_hits, lexical_hits, needs_stale_mark, pending_embeddings,
    provider_name, question_input_hash, request_failed, rule_scaffold, scaffold_input_hash,
    scaffold_user_prompt, select_questions, stored_scaffold, to_question_face, vector_count_mismatch,
    ArtifactRow, QuestionCandidate, QuestionContent, RawCandidate,
};
use mudflat_knowledge::db::CardRow;
use mudflat_knowledge::llm::Provider;

fn sample(id: i64, text: &str, note: &str, chapter: &str) -> CardRow {
    CardRow {
        id,
        kind: "highlight".into(),
        book_id: Some(1),
        remote_id: Some(format!("r{id}")),
        chapter_uid: Some(chapter.chars().map(|c| c as i64).sum::<i64>().max(1)),
        chapter_title: Some(chapter.into()),
        text: text.into(),
        abstract_text: None,
        range_str: None,
        color_style: 0,
        note: note.into(),
        starred: false,
        excluded_from_review: false,
        created_at: 1,
        updated_at: 1,
        deleted: false,
        book_title: "原子习惯".into(),
        tags: vec![],
    }
}

#[test]
fn embed_text_is_highlight_and_note_without_book_title() {
    let mut card = sample(1, "沉没成本让人加码。", "已经付出的不该再决定下一步。", "决策");
    let t = embed_text_for(&card);
    assert!(t.contains("沉没成本"));
    assert!(t.contains("已经付出"));
    assert!(!t.contains("原子习惯"), "书名会污染短划线的向量");
    let hashed = card_content_hash(&card);
    card.book_title = "另一本书".into();
    assert_eq!(hashed, card_content_hash(&card), "书名变化不应迫使重算向量");
    card.note = "改了想法".into();
    assert_ne!(hashed, card_content_hash(&card));
}

#[test]
fn rule_scaffold_uses_note_and_neighbors() {
    let src = sample(1, "人不是拥有习惯，而是由习惯塑造。", "身份是重复出来的", "习惯的复利");
    let pool = vec![
        sample(2, "每做一个 1% 的改进，你都在变成那种人。", "", "习惯的复利"),
        sample(3, "环境是无形的手。", "", "环境"),
    ];
    let sc = rule_scaffold(&src, &pool, 3);
    assert_eq!(sc.paraphrase.as_deref(), Some("身份是重复出来的"));
    assert_eq!(sc.neighbors[0].id, 2);
    assert!(sc.source_card_ids.contains(&1));
    assert!(!sc.from_ai);
}

// ---------- further cases ----------

#[test]
fn fnv_known_values() {
    assert_eq!(fnv1a64(""), "cbf29ce484222325");
    assert_eq!(fnv1a64("a"), "af63dc4c8601ec8c");
}

#[test]
fn hashes_differ_by_purpose() {
    let c = sample(1, "正文", "批注", "章");
    assert_ne!(card_content_hash(&c), question_input_hash(&c));
    assert_eq!(scaffold_input_hash(&c, &[3, 2]), scaffold_input_hash(&c, &[2, 3]));
    assert_ne!(scaffold_input_hash(&c, &[2]), scaffold_input_hash(&c, &[2, 3]));
}

#[test]
fn rule_scaffold_orders_by_distance_and_fills_from_book() {
    let src = sample(10, "本卡", "  ", "甲");
    let pool = vec![
        sample(1, "远", "", "甲"),
        sample(12, "近", "", "甲"),
        sample(9, "别章最近", "", "乙"),
        sample(10, "自己", "", "甲"),
        sample(30, "别章远", "", "乙"),
    ];
    let sc = rule_scaffold(&src, &pool, 3);
    assert_eq!(sc.paraphrase, None);
    assert_eq!(sc.neighbors.iter().map(|c| c.id).collect::<Vec<_>>(), vec![12, 1, 9]);
    assert_eq!(sc.source_card_ids, vec![10, 12, 1, 9]);
    let long = sample(1, "x", &"长".repeat(130), "甲");
    let sc = rule_scaffold(&long, &[], 3);
    assert_eq!(sc.paraphrase.unwrap().chars().count(), 120);
}

#[test]
fn scaffold_prompt_lists_neighbors() {
    let src = sample(1, " 本卡 ", " 注 ", "甲");
    let n = vec![sample(2, " 邻 ", "", "甲")];
    assert_eq!(scaffold_user_prompt(&src, &n), "本卡 #1：本卡\n批注：注\n相邻 #2：邻");
}

#[test]
fn scaffold_reply_is_checked() {
    let ok = check_scaffold_reply(Some("  一句足够的白话解释 ".into()), None, &vec![1, 5, 2], &vec![1, 2]).unwrap();
    assert_eq!(ok.0, "一句足够的白话解释");
    assert_eq!(ok.1, "");
    assert_eq!(ok.2, vec![1, 2]);
    assert_eq!(check_scaffold_reply(Some("太短".into()), None, &vec![], &vec![]).unwrap_err(), "支架解释不可用");
    assert!(check_scaffold_reply(None, None, &vec![], &vec![]).is_err());
}

#[test]
fn ai_and_stored_scaffolds() {
    let src = sample(1, "本卡", "注", "甲");
    let pool = vec![sample(2, "邻", "", "甲"), sample(3, "远", "", "乙")];
    let rule = rule_scaffold(&src, &pool, 3);
    let s = ai_scaffold(&rule, "白话", "", &vec![]);
    assert!(s.from_ai);
    assert_eq!(s.example, None);
    assert_eq!(s.source_card_ids, rule.source_card_ids);
    let s = ai_scaffold(&rule, "白话", "例子", &vec![2]);
    assert_eq!(s.example.as_deref(), Some("例子"));
    assert_eq!(s.source_card_ids, vec![2]);
    let st = stored_scaffold(&Some(" p ".into()), &Some("  ".into()), vec![1, 3], 1, &pool);
    assert_eq!(st.paraphrase.as_deref(), Some("p"));
    assert_eq!(st.example, None);
    assert_eq!(st.neighbors.iter().map(|c| c.id).collect::<Vec<_>>(), vec![3]);
}

fn row(status: &str, hash: &str) -> ArtifactRow {
    ArtifactRow {
        id: 7,
        artifact_type: "question_face".into(),
        primary_card_id: 1,
        source_card_ids: "[1]".into(),
        input_hash: hash.into(),
        provider: "openai".into(),
        model: "m".into(),
        prompt_version: "question-face-v1".into(),
        content_json: "{}".into(),
        status: status.into(),
        user_edited: false,
    }
}

fn content(accepted: Option<&str>) -> QuestionContent {
    QuestionContent {
        unsuitable: false,
        reason: None,
        candidates: vec![QuestionCandidate { kind: "why".into(), question: "为什么习惯会塑造身份？".into() }],
        accepted_question: accepted.map(|s| s.to_string()),
    }
}

#[test]
fn question_face_goes_stale_when_card_changes() {
    let h = "abc".to_string();
    assert!(artifact_is_current(&row("accepted", "abc"), &h));
    assert!(!artifact_is_current(&row("rejected", "abc"), &h));
    assert!(needs_stale_mark(&row("proposed", "old"), &h));
    assert!(!needs_stale_mark(&row("rejected", "old"), &h));
    let f = to_question_face(row("accepted", "old"), content(None), &h);
    assert!(f.stale);
    assert_eq!(f.status, "stale");
    assert_eq!(f.content.accepted_question.as_deref(), Some("为什么习惯会塑造身份？"));
    let f = to_question_face(row("proposed", "abc"), content(None), &h);
    assert!(!f.stale);
    assert_eq!(f.status, "proposed");
    assert_eq!(f.content.accepted_question, None);
}

#[test]
fn accepting_a_question() {
    let c = content(None);
    assert_eq!(accepted_question_of(&c, &None).unwrap(), ("为什么习惯会塑造身份？".to_string(), false));
    assert_eq!(accepted_question_of(&c, &Some("  我改写的问题够长了吗  ".into())).unwrap(), ("我改写的问题够长了吗".to_string(), true));
    assert_eq!(accepted_question_of(&c, &Some("太短".into())).unwrap_err(), "问题长度不合适");
    let mut bad = content(None);
    bad.unsuitable = true;
    assert_eq!(accepted_question_of(&bad, &None).unwrap_err(), "这条不适合作为问题");
}

#[test]
fn questions_are_filtered() {
    let card = sample(1, "人不是拥有习惯，而是由习惯塑造。", "", "习惯的复利");
    let raw = vec![
        RawCandidate { kind: Some("concept".into()), question: Some("这段话如何解释身份与重复行为的关系？".into()) },
        RawCandidate { kind: Some("cloze".into()), question: Some("人不是拥有习惯，而是由习惯塑造。".into()) },
        RawCandidate { kind: Some("nope".into()), question: Some("无效类型的问题在这里".into()) },
        RawCandidate { kind: Some("contrast".into()), question: Some("若把习惯理解成身外之物，会漏掉什么？".into()) },
    ];
    let out = select_questions(false, None, &raw, &card);
    assert!(!out.unsuitable);
    assert_eq!(out.candidates.len(), 2);
    assert_eq!(out.candidates[1].kind, "contrast");
    let none = select_questions(false, None, &vec![], &card);
    assert!(none.unsuitable);
    assert_eq!(none.reason.as_deref(), Some("没有得到可用的问题"));
}

#[test]
fn fused_hits_mark_both_and_semantic() {
    let a = sample(1, "沉没成本让人继续投入。", "", "决策");
    let b = sample(2, "人会为已经付出的东西加码。", "", "决策");
    let c = sample(3, "工作记忆容量有限。", "", "认知");
    let hits = fuse_hits(&vec![a.clone(), c.clone()], &vec![b.clone(), a.clone()], &vec![1, 2, 3, 99]);
    assert_eq!(hits.len(), 3);
    let kinds: Vec<(i64, String)> = hits.into_iter().map(|h| (h.card.id, h.match_kind)).collect();
    assert_eq!(kinds, vec![(1, "both".to_string()), (2, "semantic".to_string()), (3, "lexical".to_string())]);
    let lex = lexical_hits(vec![a, b]);
    assert!(lex.iter().all(|h| h.match_kind == "lexical"));
}

#[test]
fn pending_embeddings_skip_current_vectors() {
    let a = sample(1, "甲", "", "章");
    let b = sample(2, "乙", "注", "章");
    let stored = vec![(1, card_content_hash(&a)), (2, "old".to_string())];
    let p = pending_embeddings(&[a, b.clone()], &stored);
    assert_eq!(p.len(), 1);
    assert_eq!(p[0].0, 2);
    assert_eq!(p[0].1, card_content_hash(&b));
    assert_eq!(p[0].2, "乙 注");
}

#[test]
fn names_and_messages() {
    assert_eq!(provider_name(Provider::Xai), "xai");
    assert_eq!(provider_name(Provider::Off), "off");
    assert_eq!(request_failed("生成问题", "超时"), "生成问题失败。超时");
    assert_eq!(vector_count_mismatch(3, 2), "向量条数不匹配：请求 3，返回 2");
}
