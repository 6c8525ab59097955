use mudflat_knowledge::db::CardRow;
use mudflat_knowledge::mindmap::{
    begin_chapter, chapters_done, check_enough_cards, clue_network_error, cluster_in_order,
    empty_clue_error, empty_tree, expand_clusters, finish_chapter, finish_merge, flatten_chapters,
    input_hash, merge_user_prompt, pack_card_line, pack_cluster_line, pack_for_prompt, plan_clue,
    plan_progress, retry_message, sanitize, start_run, status_for, system_prompt, user_prompt,
    user_prompt_counted, AfterChapters, ChapterPack, ChapterReply, CluePlan, Mindmap, MindmapError,
    MindmapNode, MindmapStats,
};

fn card(id: i64, chapter: &str, kind: &str, text: &str, note: &str, starred: bool) -> CardRow {
    CardRow {
        id,
        kind: kind.into(),
        book_id: Some(1),
        remote_id: Some(format!("r{id}")),
        chapter_uid: Some(1),
        chapter_title: Some(chapter.into()),
        text: text.into(),
        abstract_text: None,
        range_str: None,
        color_style: 0,
        note: note.into(),
        starred,
        excluded_from_review: false,
        created_at: 1,
        updated_at: 10 + id,
        deleted: false,
        book_title: "原子习惯".into(),
        tags: vec![],
    }
}

fn sample_cards() -> Vec<CardRow> {
    vec![
        card(1, "习惯的复利", "highlight", "人不是拥有习惯，而是由习惯塑造。", "", false),
        card(2, "习惯的复利", "thought", "身份不是想出来的，是重复出来的。", "", false),
        card(3, "习惯的复利", "highlight", "每做一个 1% 的改进，你都在把自己变成那种人。", "", false),
        card(4, "习惯的复利", "highlight", "你高估了一天的意义，低估了两年的意义。", "", false),
        card(5, "如何建立习惯", "highlight", "让它显而易见、有吸引力、简便易行、令人愉悦。", "", false),
        card(6, "如何建立习惯", "highlight", "把新习惯叠在旧习惯后面。", "", false),
        card(7, "如何建立习惯", "highlight", "早饭后立刻写。", "我试过早饭后立刻写 20 分钟，比定闹钟有用。", false),
        card(8, "环境", "highlight", "环境是无形的手。", "", false),
        card(9, "环境", "highlight", "想多读书，就把书放在沙发上，把遥控器藏起来。", "", false),
        card(10, "环境", "highlight", "自控力是高估的，设计才是可重复的。", "", true),
        card(11, "坏习惯", "highlight", "让它看不见、没有吸引力、难以实行、令人不满。", "", false),
        card(12, "坏习惯", "highlight", "戒手机不是靠意志，是把充电器放到另一间房。", "", false),
        card(13, "坏习惯", "thought", "和 #9 是同一件事的反面。", "", false),
        card(14, "习惯的复利", "highlight", "你的结果是滞后指标，身份才是先行指标。", "", false),
        card(15, "如何建立习惯", "highlight", "两分钟规则：入门必须短到不可能失败。", "", false),
        card(16, "如何建立习惯", "highlight", "先出现，再优化。", "", false),
        card(17, "身份", "highlight", "不要以结果为目标，要以身份为目标。", "", false),
        card(18, "身份", "highlight", "「我是跑步的人」比「我要跑完马拉松」更稳。", "", false),
    ]
}

fn theme(id: &str, label: &str, ids: &[i64], children: Vec<MindmapNode>) -> MindmapNode {
    MindmapNode {
        id: id.into(),
        label: label.into(),
        kind: "theme".into(),
        summary: None,
        source_card_ids: ids.to_vec(),
        children,
    }
}

fn raw_tree(children: Vec<MindmapNode>) -> Mindmap {
    Mindmap {
        book_id: 0,
        title: String::new(),
        mode: "theme".into(),
        input_hash: String::new(),
        prompt_version: String::new(),
        stats: MindmapStats { cards: 0, chapters: 0, themes: 0, unplaced: 0 },
        root: MindmapNode {
            id: "root".into(),
            label: "x".into(),
            kind: "book".into(),
            summary: None,
            source_card_ids: vec![],
            children,
        },
        warnings: vec![],
    }
}

fn message(e: MindmapError) -> String {
    e.message()
}

#[test]
fn drops_card_leaves_and_excerpt_titles() {
    let cards = sample_cards();
    let tree = raw_tree(vec![
        theme("bad-leaf", "身份由重复塑造", &[1, 2, 3, 14, 17, 18], vec![MindmapNode {
            id: "c-1".into(),
            label: "人不是拥有习惯，而是由习惯塑造。".into(),
            kind: "card".into(),
            summary: None,
            source_card_ids: vec![1],
            children: vec![],
        }]),
        theme("excerpt", "人不是拥有习惯，而是由习惯塑造。", &[1, 2], vec![]),
        theme("env", "环境在替你做决定", &[8, 9, 10, 12], vec![]),
        theme("compound", "复利只在两年后显现", &[4, 3], vec![]),
        theme("method", "先出现再优化动作", &[15, 16], vec![]),
        theme("four", "习惯四法则成对出现", &[5, 11, 13], vec![]),
    ]);
    let hash = input_hash(&cards);
    let out = sanitize(tree, &cards, 1, "原子习惯", &hash).unwrap();
    assert!(out.root.children.iter().all(|n| n.kind == "theme"));
    assert!(out.root.children.iter().all(|n| n.children.iter().all(|c| c.kind != "card")));
    assert!(out.root.children.iter().any(|n| n.label == "环境在替你做决定"));
    assert!(!out.root.children.iter().any(|n| n.label.contains("人不是拥有习惯")));
    assert!(out.stats.themes >= 4);
    assert_eq!(out.input_hash, hash);
}

#[test]
fn drops_theme_with_one_card_or_unknown_id() {
    let cards = sample_cards();
    let tree = raw_tree(vec![
        theme("ok", "身份由重复行为塑造", &[1, 2], vec![]),
        theme("one", "单独一条不能成题", &[4], vec![]),
        theme("ghost", "库外节点必须丢掉啊", &[999, 998], vec![]),
    ]);
    let out = sanitize(tree, &cards, 1, "原子习惯", "h").unwrap();
    assert_eq!(out.root.children.len(), 1);
    assert_eq!(out.root.children[0].label, "身份由重复行为塑造");
    assert!(out.stats.unplaced >= 1);
}

#[test]
fn empty_after_sanitize_names_drop_reasons() {
    let cards = sample_cards();
    let tree = raw_tree(vec![
        theme("one", "单独一条不能成题啊", &[4], vec![]),
        theme("excerpt", "人不是拥有习惯，而是由习惯塑造。", &[1, 2], vec![]),
        theme("ghost", "库外节点必须丢掉啊", &[999, 998], vec![]),
    ]);
    let err = message(sanitize(tree, &cards, 1, "原子习惯", "h").unwrap_err());
    assert!(err.starts_with("没有得到可用的概要节点。"));
    assert!(err.contains("丢掉「单独一条不能成题啊」：只有 1 张证据，至少要 2 张"));
    assert!(err.contains("丢掉原文截断节点「人不是拥有习惯，而是由习惯塑造。」"));
    assert!(err.contains("丢掉「库外节点必须丢掉啊」：没有有效证据卡号"));
    assert!(err.contains("请重试，或换一个模型。"));
}

#[test]
fn empty_model_children_keeps_fallback_line() {
    let err = message(sanitize(raw_tree(vec![]), &sample_cards(), 1, "原子习惯", "h").unwrap_err());
    assert_eq!(err, "没有得到可用的概要节点。请重试，或换一个模型。");
}

#[test]
fn system_prompt_states_sanitize_invariants() {
    let p = system_prompt();
    assert!(p.contains("线索"));
    assert!(p.contains("sourceCardIds"));
    assert!(p.contains("禁止 kind=card"));
    assert!(p.contains("8 到 24"));
    assert!(p.contains("至少 2 个"));
    assert!(p.contains("不要第三层"));
    assert!(p.contains("没出现的论点不要补"));
    assert!(!p.contains("AI 思维导图"));
}

#[test]
fn user_prompt_explains_input_lines() {
    let p = user_prompt("原子习惯", &["#1 [章:复利] [划线] [星] 人由习惯塑造。".into()]);
    assert!(p.contains("书名：原子习惯"));
    assert!(p.contains("#id"));
    assert!(p.contains("请输出 JSON"));
    assert!(!p.contains("主题脑图"));
}

#[test]
fn pack_line_includes_id_chapter_and_note() {
    let c = card(7, "如何建立习惯", "highlight", "早饭后立刻写。", "我试过早饭后立刻写 20 分钟", true);
    let line = pack_card_line(&c);
    assert!(line.contains("#7"));
    assert!(line.contains("如何建立习惯"));
    assert!(line.contains("[星]"));
    assert!(line.contains("注:"));
}

#[test]
fn pack_for_prompt_keeps_every_card() {
    let cards: Vec<CardRow> = (1..=50)
        .map(|i| card(i, "章", "highlight", "一段用来凑数的划线原文。", "", false))
        .collect();
    let packed = pack_for_prompt(&cards);
    assert_eq!(packed.len(), 50);
    assert!(packed[0].contains("#1"));
    assert!(packed[49].contains("#50"));
}

fn n_cards(n: usize) -> Vec<CardRow> {
    (1..=n as i64)
        .map(|i| {
            let ch = ((i - 1) % 5) + 1;
            let mut c = card(
                i,
                &format!("第{ch}章"),
                "highlight",
                &format!("这是第{i}条足够长的划线原文用来归纳主题。"),
                "",
                false,
            );
            c.chapter_uid = Some(ch);
            c
        })
        .collect()
}

#[test]
fn plan_oneshot_includes_all_eighty() {
    match plan_clue(&n_cards(80)) {
        CluePlan::OneShot { lines, .. } => assert_eq!(lines.len(), 80),
        CluePlan::ByChapter { .. } => panic!("80 张应一次归纳"),
    }
}

#[test]
fn plan_eighty_one_goes_by_chapter_and_keeps_every_card() {
    match plan_clue(&n_cards(81)) {
        CluePlan::ByChapter { chapters } => {
            assert_eq!(chapters.len(), 5);
            let n: usize = chapters.iter().map(|c| c.lines.len()).sum();
            assert_eq!(n, 81);
        }
        CluePlan::OneShot { .. } => panic!("81 张应按章归纳"),
    }
}

#[test]
fn plan_progress_oneshot_is_one_step() {
    let (steps, msg) = plan_progress(&plan_clue(&n_cards(80)), 80);
    assert_eq!(steps, 1);
    assert_eq!(msg, "80 张卡片，全书一次归纳");
}

#[test]
fn plan_progress_by_chapter_counts_eligible_plus_merge() {
    let (steps, msg) = plan_progress(&plan_clue(&n_cards(81)), 81);
    assert_eq!(steps, 6);
    assert_eq!(msg, "81 张卡片，按 5 章归纳");
}

#[test]
fn plan_large_near_dupes_compresses_before_oneshot() {
    let cards: Vec<CardRow> = (1..=401)
        .map(|i| {
            let mut c = card(i, "环境", "highlight", "环境是无形的手在替你做决定。", "", i == 1);
            c.chapter_uid = Some(1);
            c
        })
        .collect();
    match plan_clue(&cards) {
        CluePlan::OneShot { lines, clusters } => {
            assert_eq!(lines.len(), 1);
            assert_eq!(clusters[0].len(), 401);
            assert!(lines[0].contains("同簇"));
        }
        CluePlan::ByChapter { .. } => panic!("近重复大书应压成一簇"),
    }
}

#[test]
fn plan_large_unique_keeps_every_card_by_chapter() {
    match plan_clue(&n_cards(401)) {
        CluePlan::ByChapter { chapters } => {
            let n: usize = chapters.iter().map(|c| c.lines.len()).sum();
            assert_eq!(n, 401);
        }
        CluePlan::OneShot { .. } => panic!("互不重复的 401 张应按章送，不得丢掉"),
    }
}

#[test]
fn short_quotes_join_previous_cluster() {
    let a = card(1, "环境", "highlight", "环境是无形的手在替你做决定。", "", false);
    let b = card(2, "环境", "highlight", "金句。", "", false);
    let c = card(3, "环境", "highlight", "把遥控器藏起来才读得进书。", "", false);
    let refs = vec![&a, &b, &c];
    let clusters = cluster_in_order(&refs);
    assert_eq!(clusters.len(), 2);
    assert_eq!(clusters[0].iter().map(|x| x.id).collect::<Vec<_>>(), vec![1, 2]);
    assert_eq!(clusters[1][0].id, 3);
}

#[test]
fn expand_clusters_fills_in_mates() {
    let mut tree = raw_tree(vec![theme("env", "环境在替你做决定", &[8], vec![])]);
    expand_clusters(&mut tree, &[vec![8, 9, 10]]);
    let mut ids = tree.root.children[0].source_card_ids.clone();
    ids.sort();
    assert_eq!(ids, vec![8, 9, 10]);
}

#[test]
fn merge_prompt_keeps_chapter_titles_and_ids() {
    let p = merge_user_prompt("原子习惯", &[
        ("环境".into(), vec![theme("a", "环境在替你做决定", &[8, 9], vec![])]),
        ("身份".into(), vec![theme("b", "身份由重复塑造", &[1, 2], vec![])]),
    ]);
    assert!(p.contains("章：环境"));
    assert!(p.contains("8,9"));
    assert!(p.contains("身份由重复塑造"));
}

#[test]
fn hash_changes_when_card_updates() {
    let mut cards = sample_cards();
    let a = input_hash(&cards);
    cards[0].updated_at += 1;
    let b = input_hash(&cards);
    assert_ne!(a, b);
}

// ---------- further cases ----------

#[test]
fn hash_ignores_card_order_and_has_prefix() {
    let mut cards = sample_cards();
    let a = input_hash(&cards);
    cards.reverse();
    assert_eq!(a, input_hash(&cards));
    assert!(a.starts_with("v1:"));
    assert_eq!(a.len(), 3 + 16);
}

#[test]
fn sanitized_themes_are_sound() {
    let cards = sample_cards();
    let tree = raw_tree(vec![theme(
        "t",
        "  身份由重复行为塑造  ",
        &[1, 2, 2, 999],
        vec![
            theme("c1", "环境在替你做决定", &[8, 9], vec![theme("g", "第三层不应保留下来", &[10, 12], vec![])]),
            theme("c2", "太短", &[5, 6], vec![]),
        ],
    )]);
    let out = sanitize(tree, &cards, 1, "原子习惯", "h").unwrap();
    assert_eq!(out.root.kind, "book");
    assert_eq!(out.root.label, "原子习惯 · 我的划线");
    let top = &out.root.children[0];
    assert_eq!(top.label, "身份由重复行为塑造");
    assert_eq!(top.kind, "theme");
    assert_eq!(top.children.len(), 1);
    assert!(top.children[0].children.is_empty());
    // ids: own known ids first, then descendants' known ids, each once
    assert_eq!(top.source_card_ids, vec![1, 2, 8, 9, 10, 12, 5, 6]);
    assert_eq!(top.children[0].source_card_ids, vec![8, 9, 10, 12]);
    assert_eq!(out.stats.themes, 2);
    assert_eq!(out.stats.cards, 18);
    assert_eq!(out.stats.chapters, 1);
    assert_eq!(out.stats.unplaced, 10);
    assert!(out.warnings.iter().any(|w| w == "丢掉标题长度不合规的节点「太短」"));
    assert_eq!(out.warnings.last().unwrap(), "有 10 张未归入主题");
}

#[test]
fn at_most_twelve_top_themes() {
    let cards = sample_cards();
    let nodes: Vec<MindmapNode> = (0..15)
        .map(|i| theme(&format!("t{i}"), &format!("第{i}个足够长的概要标题"), &[1, 2], vec![]))
        .collect();
    let out = sanitize(raw_tree(nodes), &cards, 1, "书", "h").unwrap();
    assert_eq!(out.root.children.len(), 12);
}

#[test]
fn empty_clue_error_lists_eight_reasons_then_counts() {
    let warnings: Vec<String> = (0..11).map(|i| format!("理由{i}")).chain(vec!["理由0".to_string(), "  ".to_string()]).collect();
    let m = message(empty_clue_error(&warnings));
    assert!(m.starts_with("没有得到可用的概要节点。\n理由0\n"));
    assert!(m.contains("理由7"));
    assert!(!m.contains("理由8\n"));
    assert!(m.contains("\n…另有 3 条\n"));
    assert!(m.ends_with("请重试，或换一个模型。"));
}

#[test]
fn cluster_line_names_the_other_members() {
    let a = card(1, "环境", "highlight", "环境是无形的手在替你做决定。", "", false);
    let b = card(2, "环境", "highlight", "环境是无形的手在替你做决定。", "注", false);
    let line = pack_cluster_line(&[&a, &b]);
    assert!(line.starts_with("#2 "));
    assert!(line.ends_with(" | 同簇 #1"));
}

#[test]
fn card_line_exact_form() {
    let mut c = card(3, "  ", "thought", "短句", "  想法  ", false);
    c.chapter_title = Some("  ".into());
    assert_eq!(pack_card_line(&c), "#3 [章:未分章] [想法] 短句 | 注: 想法");
    let long = card(4, "章", "highlight", &"字".repeat(80), "", false);
    let line = pack_card_line(&long);
    assert!(line.ends_with(&format!("{}…", "字".repeat(72))));
}

#[test]
fn compressed_prompt_says_so() {
    let lines = vec!["a".to_string(), "b".to_string()];
    let p = user_prompt_counted("书", &lines, 5);
    assert!(p.contains("这是 5 条里压缩后的 2 簇"));
    assert!(p.ends_with("\n\na\nb"));
    assert!(!user_prompt("书", &lines).contains("压缩"));
}

#[test]
fn plan_keeps_every_card_id_once() {
    for n in [10usize, 81, 401] {
        let cards = n_cards(n);
        let mut ids: Vec<i64> = match plan_clue(&cards) {
            CluePlan::OneShot { clusters, .. } => clusters.into_iter().flatten().collect(),
            CluePlan::ByChapter { chapters } => chapters.into_iter().flat_map(|c| c.clusters.into_iter().flatten()).collect(),
        };
        ids.sort();
        assert_eq!(ids, (1..=n as i64).collect::<Vec<_>>());
    }
}

fn pack(title: &str, clusters: Vec<Vec<i64>>) -> ChapterPack {
    ChapterPack { title: title.into(), lines: clusters.iter().map(|c| format!("#{}", c[0])).collect(), clusters }
}

#[test]
fn chapter_run_keeps_answers_and_warns_on_the_rest() {
    let mut run = start_run();
    let small = pack("序", vec![vec![1]]);
    assert!(!begin_chapter(&mut run, &small));
    assert_eq!(run.warnings, vec!["「序」卡片不足，跳过".to_string()]);
    let a = pack("一", vec![vec![2, 3]]);
    assert!(begin_chapter(&mut run, &a));
    assert_eq!(run.current, 1);
    let (stage, msg) = finish_chapter(&mut run, &a, ChapterReply::Parsed(raw_tree(vec![theme("t", "一二三四五六七八", &[2], vec![])])));
    assert_eq!(stage, "chapter_ok");
    assert_eq!(msg, "");
    assert_eq!(run.outlines[0].1[0].source_card_ids, vec![2, 3]);
    let b = pack("二", vec![vec![4], vec![5]]);
    assert!(begin_chapter(&mut run, &b));
    let (stage, msg) = finish_chapter(&mut run, &b, ChapterReply::Unreadable("坏".into()));
    assert_eq!((stage.as_str(), msg.as_str()), ("chapter_failed", "结果无法解析：坏"));
    let (_, msg) = finish_chapter(&mut run, &b, ChapterReply::Failed("断了".into()));
    assert_eq!(msg, "断了");
    let (_, msg) = finish_chapter(&mut run, &b, ChapterReply::Parsed(raw_tree(vec![])));
    assert_eq!(msg, "没有可用概要");
    assert_eq!(run.warnings.len(), 4);
    assert_eq!(run.warnings[3], "「二」没有可用概要");
    match chapters_done(run) {
        AfterChapters::Single(t) => {
            assert_eq!(t.root.kind, "book");
            assert_eq!(t.root.children.len(), 1);
            assert_eq!(t.warnings.len(), 4);
        }
        _ => panic!("one chapter answered"),
    }
}

#[test]
fn no_answered_chapter_fails_with_reasons() {
    let mut run = start_run();
    let small = pack("序", vec![vec![1]]);
    begin_chapter(&mut run, &small);
    match chapters_done(run) {
        AfterChapters::Failed(e) => assert!(message(e).contains("「序」卡片不足，跳过")),
        _ => panic!("nothing answered"),
    }
}

#[test]
fn merge_failure_lays_chapters_side_by_side() {
    let mut run = start_run();
    for (i, t) in ["一", "二"].iter().enumerate() {
        let p = pack(t, vec![vec![10 * i as i64 + 1, 10 * i as i64 + 2]]);
        begin_chapter(&mut run, &p);
        finish_chapter(&mut run, &p, ChapterReply::Parsed(raw_tree(vec![theme("t", "一二三四五六七八", &[10 * i as i64 + 1], vec![])])));
    }
    let run = match chapters_done(run) {
        AfterChapters::Merge(r) => r,
        _ => panic!("two chapters call for a merge"),
    };
    assert_eq!(run.current, 3);
    let t = finish_merge(run, None);
    assert_eq!(t.root.children.len(), 2);
    assert_eq!(t.warnings.last().unwrap(), "全书合并失败，暂按各章概要并列。");
    assert_eq!(t.root.children[1].source_card_ids, vec![11, 12]);
}

#[test]
fn merged_tree_gets_mates_and_warnings() {
    let mut run = start_run();
    run.warnings.push("w".into());
    run.all_clusters.push(vec![1, 2]);
    let mut merged = raw_tree(vec![theme("t", "一二三四五六七八", &[2], vec![])]);
    merged.warnings.push("m".into());
    let t = finish_merge(run, Some(merged));
    assert_eq!(t.warnings, vec!["m".to_string(), "w".to_string()]);
    assert_eq!(t.root.children[0].source_card_ids, vec![2, 1]);
}

#[test]
fn flatten_keeps_twelve() {
    let outlines: Vec<(String, Vec<MindmapNode>)> = (0..5)
        .map(|c| (format!("章{c}"), (0..4).map(|i| theme(&format!("{c}-{i}"), "一二三四五六七八", &[1, 2], vec![])).collect()))
        .collect();
    let t = flatten_chapters(outlines, vec![]);
    assert_eq!(t.root.children.len(), 12);
    assert_eq!(t.root.children[11].id, "2-3");
    let e = empty_tree(vec!["x".into()]);
    assert_eq!(e.root.id, "root");
    assert_eq!(e.prompt_version, "mindmap-theme-v3");
}

#[test]
fn status_reports_staleness_and_endpoint() {
    let cards = sample_cards();
    let mut cached = raw_tree(vec![]);
    cached.input_hash = input_hash(&cards);
    let cfg = mudflat_knowledge::llm::LlmConfig {
        provider: mudflat_knowledge::llm::Provider::Openai,
        base_url: "https://api.openai.com/v1/".into(),
        model: "gpt-4o-mini".into(),
        embedding: mudflat_knowledge::llm::EmbeddingConfig::default(),
        embedding_model: String::new(),
    };
    let s = status_for(&cards, Some(cached), false, Some((cfg, "k".into())));
    assert!(s.available);
    assert!(!s.stale);
    assert_eq!(s.card_count, 18);
    assert_eq!(s.chat_endpoint.as_deref(), Some("https://api.openai.com/v1/chat/completions"));
    assert_eq!(s.model.as_deref(), Some("gpt-4o-mini"));
    let mut old = raw_tree(vec![]);
    old.input_hash = "v1:0".into();
    let s = status_for(&cards[..1], Some(old), true, None);
    assert!(!s.available);
    assert!(s.stale);
    assert!(s.chat_endpoint.is_none());
}

#[test]
fn generation_messages() {
    assert!(check_enough_cards(&sample_cards()).is_ok());
    assert_eq!(message(check_enough_cards(&sample_cards()[..1]).unwrap_err()), "至少两张卡片才能归纳线索。");
    assert!(message(clue_network_error("connection reset by peer")).starts_with("生成线索时连接被对端断开"));
    assert_eq!(message(clue_network_error("operation timed out")), "生成线索超时。请再试一次；若反复超时，换更快的模型。");
    assert_eq!(message(clue_network_error("dns")), "生成线索失败。dns");
    assert_eq!(retry_message(0), "连接不稳，第 2 次尝试…");
}
